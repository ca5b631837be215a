# automosaic

The core of a video anonymiser: it finds people and faces in a video, follows them from frame to frame, and hides them under a
mosaic, a blur or a plain colour. Everything that can be said without floating point and without the outside world is written in
Verus and proved.

- `src/` is the verified library. Masks (`compose`, `morph`, `mosaic`, `remap`), their files (`rle`, `bytes`, `maskstore`),
  following people (`assign`, `track`, `link`), choosing between detections (`nms`, `wbf`, `archive`, `decode`, `detect`,
  `rank`), colours and pictures (`color`, `jpeg`), numbers (`fraction`), what the tools for videos are told and what they say (`media`, `probe`,
  `pipe`), presets and models (`preset`, `models`, `options`, `api`), jobs and retries (`job`, `attempt`, `stages`).
- `app/` is the program around it: processes, files, downloads, the runtime for models, and everything in floating point.
- `tests/` runs the library.

Numbers that the program computes in floating point reach the library as whole numbers: scores and overlaps as the bits of
non-negative single-precision numbers, which are ordered as the numbers are; boxes in whole pixels; times in nanoseconds.
