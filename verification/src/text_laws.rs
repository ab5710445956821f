//! What holds of the texts that the library writes and reads, for all values.

use crate::app::{crop_name, text_of};
use crate::export::frame_name;
use crate::number::{lemma_small_int, Format, Num};
use crate::options::{is_digits, rate_in_range, unsigned_part};
use crate::text::{
    decimal, digit_char, lemma_value_of_decimal, lemma_value_of_padded, padded, value_of, zeros,
};
use crate::writer::{crop_args_text, crop_filter_text, texts, Bbox};
use vstd::arithmetic::power::{lemma_pow0, lemma_pow1, pow};
use vstd::arithmetic::power2::{lemma2_to64, pow2};
use vstd::prelude::*;

verus! {

/// A digit is worth how far its character stands behind that of zero.
pub proof fn lemma_digit_worth(c: char)
    requires
        '0' <= c <= '9',
    ensures
        value_of(seq![c]) == c as int - 48,
        value_of(seq![c]) < 10,
{
    assert(seq![c].drop_last() =~= Seq::empty());
    assert(value_of(Seq::<char>::empty()) == 0);
}

/// The place of a digit decides what it is worth: digits with `b` behind them are
/// worth ten to the power of the length of `b` as much.
pub proof fn lemma_places(a: Seq<char>, b: Seq<char>)
    ensures
        value_of(a + b) == value_of(a) * pow(10, b.len()) + value_of(b),
    decreases b.len(),
{
    if b.len() == 0 {
        lemma_pow0(10);
        assert(a + b =~= a);
        assert(value_of(b) == 0);
        assert(value_of(a) * 1 == value_of(a));
    } else {
        let less = b.drop_last();
        lemma_places(a, less);
        assert((a + b).drop_last() =~= a + less);
        assert((a + b).last() == b.last());
        let k = pow(10, less.len());
        reveal(pow);
        assert(pow(10, b.len()) == 10 * k);
        let v = value_of(a) as int;
        assert(v * (10 * k) == 10 * (v * k)) by (nonlinear_arith);
    }
}

/// A number is written with decimal digits only, without zeros before it, and with
/// no more of them than it takes.
pub proof fn lemma_decimal_written(n: nat)
    ensures
        is_digits(decimal(n)),
        value_of(decimal(n)) == n,
        n > 0 ==> decimal(n)[0] != '0',
        n < 10 ==> decimal(n).len() == 1,
        n < pow(10, decimal(n).len()),
        n >= 10 ==> n >= pow(10, (decimal(n).len() - 1) as nat),
    decreases n,
{
    lemma_value_of_decimal(n);
    if n < 10 {
        lemma_pow1(10);
        assert(decimal(n)[0] == digit_char(n));
    } else {
        lemma_decimal_written(n / 10);
        let less = decimal(n / 10);
        assert(decimal(n) == less.push(digit_char(n % 10)));
        assert(decimal(n)[0] == less[0]);
        lemma_pow0(10);
        lemma_pow1(10);
        reveal(pow);
        let k = pow(10, less.len());
        assert(pow(10, decimal(n).len()) == 10 * k);
        if less.len() > 1 {
            assert(k == 10 * pow(10, (less.len() - 1) as nat));
        }
    }
}

/// The parts of a text between its colons.
pub open spec fn fields(s: Seq<char>) -> Seq<Seq<char>>
    decreases s.len(),
{
    if s.len() == 0 {
        seq![Seq::empty()]
    } else {
        let before = fields(s.drop_last());
        if s.last() == ':' {
            before.push(Seq::empty())
        } else {
            before.drop_last().push(before.last().push(s.last()))
        }
    }
}

/// A text behind a colon is a part of its own.
proof fn lemma_one_more_field(s: Seq<char>, part: Seq<char>)
    requires
        forall|i: int| 0 <= i < part.len() ==> #[trigger] part[i] != ':',
    ensures
        fields(s + seq![':'] + part) == fields(s).push(part),
    decreases part.len(),
{
    let t = s + seq![':'] + part;
    if part.len() == 0 {
        assert(t.drop_last() =~= s);
        assert(part =~= Seq::empty());
    } else {
        let less = part.drop_last();
        assert forall|i: int| 0 <= i < less.len() implies #[trigger] less[i] != ':' by {
            assert(less[i] == part[i]);
        }
        lemma_one_more_field(s, less);
        assert(t.drop_last() =~= s + seq![':'] + less);
        assert(t.last() == part.last());
        assert(part[part.len() - 1] != ':');
        assert(fields(s).push(less).drop_last() =~= fields(s));
        assert(less.push(part.last()) =~= part);
    }
}

/// A text without a colon is one part.
proof fn lemma_one_field(part: Seq<char>)
    requires
        forall|i: int| 0 <= i < part.len() ==> #[trigger] part[i] != ':',
    ensures
        fields(part) == seq![part],
    decreases part.len(),
{
    if part.len() > 0 {
        let less = part.drop_last();
        assert forall|i: int| 0 <= i < less.len() implies #[trigger] less[i] != ':' by {
            assert(less[i] == part[i]);
        }
        lemma_one_field(less);
        assert(part[part.len() - 1] != ':');
        assert(less.push(part.last()) =~= part);
        assert(fields(part) =~= seq![part]);
    } else {
        assert(part =~= Seq::empty());
    }
}

/// Reading the crop filter back gives the region: what follows `crop=` has four
/// parts between colons, and they are the digits of its width, its height, and the
/// column and the row of its corner, in this order.
pub proof fn lemma_filter_reads_back(region: Bbox)
    ensures
        ({
            let text = crop_filter_text(region);
            let parts = fields(text.subrange(5, text.len() as int));
            &&& text.len() > 5
            &&& text.subrange(0, 5) == seq!['c', 'r', 'o', 'p', '=']
            &&& parts.len() == 4
            &&& forall|k: int| 0 <= k < 4 ==> is_digits(#[trigger] parts[k])
            &&& value_of(parts[0]) == region.w
            &&& value_of(parts[1]) == region.h
            &&& value_of(parts[2]) == region.x
            &&& value_of(parts[3]) == region.y
        }),
{
    reveal_strlit("crop=");
    reveal_strlit(":");
    let w = decimal(region.w as nat);
    let h = decimal(region.h as nat);
    let x = decimal(region.x as nat);
    let y = decimal(region.y as nat);
    lemma_decimal_written(region.w as nat);
    lemma_decimal_written(region.h as nat);
    lemma_decimal_written(region.x as nat);
    lemma_decimal_written(region.y as nat);
    let text = crop_filter_text(region);
    let rest = text.subrange(5, text.len() as int);
    assert(":"@ =~= seq![':']);
    assert(text.subrange(0, 5) =~= seq!['c', 'r', 'o', 'p', '=']);
    let wh = w + seq![':'] + h;
    let whx = wh + seq![':'] + x;
    assert(rest =~= whx + seq![':'] + y);
    lemma_one_field(w);
    lemma_one_more_field(w, h);
    lemma_one_more_field(wh, x);
    lemma_one_more_field(whx, y);
    assert(fields(rest) =~= seq![w, h, x, y]);
}

/// Different regions have different filters.
pub proof fn lemma_filters_distinct(a: Bbox, b: Bbox)
    requires
        crop_filter_text(a) == crop_filter_text(b),
    ensures
        a == b,
{
    lemma_filter_reads_back(a);
    lemma_filter_reads_back(b);
}

/// The arguments of the program: the input follows `-i`, the filter follows `-vf`,
/// the audio codec is `copy`, an existing file is overwritten, and the output comes
/// last.
pub proof fn lemma_args_in_place(input: Seq<char>, output: Seq<char>, region: Bbox)
    ensures
        ({
            let args = crop_args_text(input, output, region);
            &&& args.len() == 8
            &&& args[0] == seq!['-', 'y']
            &&& args[1] == seq!['-', 'i'] && args[2] == input
            &&& args[3] == seq!['-', 'v', 'f'] && args[4] == crop_filter_text(region)
            &&& args[5] == seq!['-', 'c', ':', 'a'] && args[6] == seq!['c', 'o', 'p', 'y']
            &&& args[7] == output
        }),
{
    reveal_strlit("-y");
    reveal_strlit("-i");
    reveal_strlit("-vf");
    reveal_strlit("-c:a");
    reveal_strlit("copy");
    assert("-y"@ =~= seq!['-', 'y']);
    assert("-i"@ =~= seq!['-', 'i']);
    assert("-vf"@ =~= seq!['-', 'v', 'f']);
    assert("-c:a"@ =~= seq!['-', 'c', ':', 'a']);
    assert("copy"@ =~= seq!['c', 'o', 'p', 'y']);
}

/// The texts of a list are those of its strings, in order.
pub proof fn lemma_texts_in_order(list: Seq<String>, i: int)
    requires
        0 <= i < list.len(),
    ensures
        texts(list).len() == list.len(),
        texts(list)[i] == list[i]@,
{
}

/// A frame's file name reads back: between `frame_` and `.png` stand at least six
/// digits, and they are the number of the frame; zeros stand before it only to make
/// up the six.
pub proof fn lemma_frame_name_reads_back(count: nat)
    ensures
        ({
            let name = frame_name(count);
            let digits = name.subrange(6, name.len() - 4);
            &&& name.len() >= 16
            &&& name.subrange(0, 6) == seq!['f', 'r', 'a', 'm', 'e', '_']
            &&& name.subrange(name.len() - 4, name.len() as int) == seq!['.', 'p', 'n', 'g']
            &&& is_digits(digits)
            &&& value_of(digits) == count
            &&& digits.len() > 6 ==> digits[0] != '0'
        }),
{
    reveal_strlit("frame_");
    reveal_strlit(".png");
    let digits = padded(count, 6);
    let plain = decimal(count);
    lemma_decimal_written(count);
    lemma_value_of_padded(count, 6);
    let name = frame_name(count);
    assert(is_digits(digits)) by {
        assert forall|i: int| 0 <= i < digits.len() implies '0' <= #[trigger] digits[i]
            && digits[i] <= '9' by {
            let more = digits.len() - plain.len();
            if i >= more {
                assert(digits[i] == plain[i - more]);
            }
        }
    }
    assert(digits.len() >= 6);
    assert(name.subrange(6, name.len() - 4) =~= digits);
    assert(name.subrange(0, 6) =~= seq!['f', 'r', 'a', 'm', 'e', '_']);
    assert(name.subrange(name.len() - 4, name.len() as int) =~= seq!['.', 'p', 'n', 'g']);
    if digits.len() > 6 {
        assert(plain == digits);
        if count == 0 {
            assert(plain.len() == 1);
        }
    }
}

/// The name of the cropped video starts with the stem of the input's name and ends
/// with its extension, or with that of an MP4 file where it has none.
pub proof fn lemma_crop_name_parts(stem: &str, ext: Option<&str>)
    ensures
        ({
            let name = crop_name(text_of(Some(stem)), text_of(ext));
            let mark = seq!['_', 'c', 'r', 'o', 'p', 'p', 'e', 'd', '.'];
            let n = stem@.len() as int;
            &&& name.subrange(0, n) == stem@
            &&& name.subrange(n, n + 9) == mark
            &&& name.subrange(n + 9, name.len() as int) == (match ext {
                Some(ext) => ext@,
                None => seq!['m', 'p', '4'],
            })
        }),
        crop_name(None, text_of(ext)) == seq![
            'c',
            'r',
            'o',
            'p',
            'p',
            'e',
            'd',
            '.',
            'm',
            'p',
            '4',
        ],
{
    reveal_strlit("_cropped.");
    reveal_strlit("mp4");
    reveal_strlit("cropped.mp4");
    let name = crop_name(text_of(Some(stem)), text_of(ext));
    let n = stem@.len() as int;
    assert(name.subrange(0, n) =~= stem@);
    assert(name.subrange(n, n + 9) =~= seq!['_', 'c', 'r', 'o', 'p', 'p', 'e', 'd', '.']);
    match ext {
        Some(ext) => {
            assert(name.subrange(n + 9, name.len() as int) =~= ext@);
        },
        None => {
            assert(name.subrange(n + 9, name.len() as int) =~= seq!['m', 'p', '4']);
        },
    }
    assert(crop_name(None, text_of(ext)) =~= seq![
        'c',
        'r',
        'o',
        'p',
        'p',
        'e',
        'd',
        '.',
        'm',
        'p',
        '4',
    ]);
}

/// Every whole number is read back from its digits, also with zeros or one plus sign
/// before them; a text with anything else in it is not a number.
pub proof fn lemma_counts_read_back(n: nat, more: nat, s: Seq<char>, i: int)
    ensures
        ({
            let text = zeros(more) + decimal(n);
            let signed = seq!['+'] + text;
            &&& is_digits(unsigned_part(text)) && value_of(unsigned_part(text)) == n
            &&& is_digits(unsigned_part(signed)) && value_of(unsigned_part(signed)) == n
        }),
        !is_digits(unsigned_part(Seq::empty())),
        !is_digits(unsigned_part(seq!['+'])),
        0 < i < s.len() && !('0' <= s[i] <= '9') ==> !is_digits(unsigned_part(s)),
        0 < s.len() && s[0] != '+' && !('0' <= s[0] <= '9') ==> !is_digits(unsigned_part(s)),
{
    let text = zeros(more) + decimal(n);
    let signed = seq!['+'] + text;
    lemma_decimal_written(n);
    lemma_places(zeros(more), decimal(n));
    lemma_zeros_worthless(more);
    assert(0 * pow(10, decimal(n).len()) == 0);
    assert(is_digits(text)) by {
        assert forall|k: int| 0 <= k < text.len() implies '0' <= #[trigger] text[k] && text[k]
            <= '9' by {
            if k >= more {
                assert(text[k] == decimal(n)[k - more]);
            }
        }
    }
    assert('0' <= text[0] && text[0] <= '9');
    assert(unsigned_part(signed) =~= text);
    assert(unsigned_part(seq!['+']) =~= Seq::empty());
    if 0 < i < s.len() && !('0' <= s[i] <= '9') {
        if s[0] == '+' {
            assert(unsigned_part(s)[i - 1] == s[i]);
        }
    }
}

proof fn lemma_zeros_worthless(n: nat)
    ensures
        value_of(zeros(n)) == 0,
    decreases n,
{
    if n > 0 {
        assert(zeros(n).drop_last() =~= zeros((n - 1) as nat));
        lemma_zeros_worthless((n - 1) as nat);
    }
}

/// A rate is accepted exactly from 1 to 30, both of them too.
pub proof fn lemma_rates_accepted(rate: Num)
    ensures
        rate is Finite ==> (rate_in_range(rate) <==> pow2(149) <= rate.signed() <= 30 * pow2(149)),
        !(rate is Finite) ==> !rate_in_range(rate),
{
    lemma2_to64();
    lemma_small_int(Format::Single, 1);
    lemma_small_int(Format::Single, 30);
}

} // verus!
