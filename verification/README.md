# trim-dead-area

Finds the part of a video that moves, and crops the video to it. Static borders
and letterboxing are left out.

The library under `src/` is verified with Verus. It holds the analysis, the
rules and the courses of decoding, cropping and of a session:

| Module | What it holds |
|---|---|
| `bbox`, `bbox_laws` | the bounding box of the active blocks by four methods, and what holds of it |
| `analysis`, `motion_laws`, `luma_laws` | motion scores per block: the moving average during playback, and the mean over the whole video |
| `decoder` | packed frames, timestamps, sampling, and the course of a decoding run |
| `writer` | how a crop is carried out, and the course of re-encoding |
| `app` | the course of a session |
| `export`, `options`, `text` | file names, option values, decimal text |
| `rounding`, `number`, `single`, `double` | IEEE 754 arithmetic on integers, proved to round to nearest with ties to even |

Floating-point numbers are bit patterns in the library; a caller converts with
`to_bits` and `from_bits`.

The program under `app/` is the rest: the window, the threads and channels, the
media library, the `ffmpeg` program and the files. It asks the library what to
do next and reports what came of it. Reading, writing and drawing
floating-point numbers is its own.
