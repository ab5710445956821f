//! The values of command-line options.

use crate::number::{Format, Num};
use crate::single::Single;
use crate::text::value_of;
use vstd::prelude::*;
use vstd::string::{StrSliceExecFns, StringExecFns};

verus! {

/// The rate lies between 1 and 30.
pub open spec fn rate_in_range(n: Num) -> bool {
    n.at_least(Num::of_int(Format::Single, 1)) && Num::of_int(Format::Single, 30).at_least(n)
}

/// Check a sampling rate. `parsed` is the number that `text` denotes, if it
/// denotes one, and `shown` is how that number is displayed.
pub fn parse_analysis_fps(text: &str, parsed: Option<Single>, shown: &str) -> (r: Result<
    Single,
    String,
>)
    ensures
        match parsed {
            None => r matches Err(e) && e@ == "'"@ + text@ + "' is not a valid number"@,
            Some(n) => if rate_in_range(n@) {
                r == Ok::<Single, String>(n)
            } else {
                r matches Err(e) && e@ == shown@ + " is out of range (1–30)"@
            },
        },
{
    match parsed {
        None => {
            let mut e = String::from_str("'");
            e.append(text);
            e.append("' is not a valid number");
            Err(e)
        },
        Some(n) => {
            if n.at_least(Single::of_int(1)) && Single::of_int(30).at_least(n) {
                Ok(n)
            } else {
                let mut e = String::from_str(shown);
                e.append(" is out of range (1–30)");
                Err(e)
            }
        },
    }
}

/// The name of a bounding-box method, and the text of its parameter.
pub enum MethodText<'a> {
    Union,
    Percentile(&'a str),
    DensityFilter(&'a str),
    Erosion(&'a str),
}

/// What follows `prefix` in `text`.
fn after_prefix<'a>(text: &'a str, prefix: &str) -> (r: Option<&'a str>)
    ensures
        match r {
            Some(rest) => text@ == prefix@ + rest@,
            None => forall|rest: Seq<char>| text@ != prefix@ + rest,
        },
{
    let n: usize = prefix.unicode_len();
    let len: usize = text.unicode_len();
    if len < n {
        assert forall|rest: Seq<char>| text@ != prefix@ + rest by {
            assert((prefix@ + rest).len() >= n);
        }
        return None;
    }
    let mut i: usize = 0;
    while i < n
        invariant
            i <= n <= len,
            n == prefix@.len(),
            len == text@.len(),
            forall|j: int| 0 <= j < i ==> text@[j] == prefix@[j],
        decreases n - i,
    {
        if text.get_char(i) != prefix.get_char(i) {
            assert forall|rest: Seq<char>| text@ != prefix@ + rest by {
                assert((prefix@ + rest)[i as int] == prefix@[i as int]);
            }
            return None;
        }
        i = i + 1;
    }
    let rest = text.substring_char(n, len);
    assert(text@ =~= prefix@ + rest@);
    Some(rest)
}

/// Take the name of a method apart: `union`, `percentile:<P>`,
/// `density-filter:<N>` or `erosion:<N>`.
pub fn split_method<'a>(text: &'a str) -> (r: Option<MethodText<'a>>)
    ensures
        r matches Some(MethodText::Union) <==> text@ == "union"@,
        match r {
            Some(MethodText::Union) => text@ == "union"@,
            Some(MethodText::Percentile(p)) => text@ == "percentile:"@ + p@,
            Some(MethodText::DensityFilter(n)) => text@ == "density-filter:"@ + n@,
            Some(MethodText::Erosion(n)) => text@ == "erosion:"@ + n@,
            None => forall|rest: Seq<char>|
                text@ != "percentile:"@ + rest && text@ != "density-filter:"@ + rest && text@
                    != "erosion:"@ + rest,
        },
{
    proof {
        reveal_strlit("union");
        reveal_strlit("percentile:");
        reveal_strlit("density-filter:");
        reveal_strlit("erosion:");
    }
    if let Some(rest) = after_prefix(text, "union") {
        if rest.unicode_len() == 0 {
            assert(text@ =~= "union"@);
            return Some(MethodText::Union);
        }
    }
    assert(text@ != "union"@) by {
        if text@ == "union"@ {
            assert(text@ =~= "union"@ + Seq::<char>::empty());
        }
    }
    if let Some(p) = after_prefix(text, "percentile:") {
        return Some(MethodText::Percentile(p));
    }
    if let Some(n) = after_prefix(text, "density-filter:") {
        return Some(MethodText::DensityFilter(n));
    }
    if let Some(n) = after_prefix(text, "erosion:") {
        return Some(MethodText::Erosion(n));
    }
    None
}

/// The text is one or more decimal digits.
pub open spec fn is_digits(s: Seq<char>) -> bool {
    s.len() > 0 && forall|i: int| 0 <= i < s.len() ==> '0' <= #[trigger] s[i] && s[i] <= '9'
}

/// The text without a plus sign before it.
pub open spec fn unsigned_part(s: Seq<char>) -> Seq<char> {
    if s.len() > 0 && s[0] == '+' {
        s.subrange(1, s.len() as int)
    } else {
        s
    }
}

/// Read a whole number: an optional plus sign and one or more decimal digits, of
/// a value that can be counted.
pub fn parse_count(text: &str) -> (r: Option<usize>)
    ensures
        match r {
            Some(n) => is_digits(unsigned_part(text@)) && n == value_of(unsigned_part(text@)),
            None => !is_digits(unsigned_part(text@)) || value_of(unsigned_part(text@))
                > usize::MAX,
        },
{
    let len: usize = text.unicode_len();
    let start: usize = if len > 0 && text.get_char(0) == '+' {
        1
    } else {
        0
    };
    let ghost digits = unsigned_part(text@);
    assert(digits =~= text@.subrange(start as int, len as int));
    if start == len {
        return None;
    }
    let mut n: usize = 0;
    let mut i: usize = start;
    assert(digits.subrange(0, 0) =~= Seq::empty());
    while i < len
        invariant
            start <= i <= len,
            len == text@.len(),
            digits == unsigned_part(text@),
            digits == text@.subrange(start as int, len as int),
            forall|j: int| 0 <= j < i - start ==> '0' <= #[trigger] digits[j] && digits[j] <= '9',
            n == value_of(digits.subrange(0, i - start)),
        decreases len - i,
    {
        let c: char = text.get_char(i);
        assert(c == digits[i - start]);
        if c < '0' || c > '9' {
            return None;
        }
        let d: usize = (c as u32 - '0' as u32) as usize;
        proof {
            let upto = digits.subrange(0, i - start + 1);
            assert(upto.drop_last() =~= digits.subrange(0, i - start));
            assert(value_of(upto) == 10 * n + d);
            lemma_value_grows(digits, i - start + 1);
        }
        if n > (usize::MAX - d) / 10 {
            assert(10 * n + d > usize::MAX);
            return None;
        }
        n = 10 * n + d;
        i = i + 1;
    }
    assert(digits.subrange(0, len - start) =~= digits);
    Some(n)
}

/// More digits do not make a number smaller.
proof fn lemma_value_grows(s: Seq<char>, k: int)
    requires
        0 <= k <= s.len(),
    ensures
        value_of(s.subrange(0, k)) <= value_of(s),
    decreases s.len() - k,
{
    if k < s.len() {
        lemma_value_grows(s, k + 1);
        assert(s.subrange(0, k + 1).drop_last() =~= s.subrange(0, k));
    } else {
        assert(s.subrange(0, k) =~= s);
    }
}

} // verus!
