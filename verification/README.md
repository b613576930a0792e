# proyecto_opencv

Counts coloured objects in a video file or a YouTube stream. OpenCV does the
image work (HSV conversion, colour masks, morphology, contour tracing,
drawing); the library in `src/` decides, with Verus proofs, what is counted,
shown and reported.

- `src/colors.rs`: the HSV colour table.
- `src/args.rs`: the command line.
- `src/text.rs`: decimal numbers (formatting and `usize` parsing) and
  fixed-width text.
- `src/geometry.rs`: contour area (shoelace formula) and bounding boxes.
- `src/detect.rs`: which contours count as objects, with their boxes and
  labels.
- `src/tally.rs`: the frame loop's decisions and the running count per colour.
- `src/dashboard.rs`: the layout of the statistics panel.
- `src/report.rs`: the final text report.
- `src/stream.rs`: the stream address in what `yt-dlp` prints.
- `app/main.rs`: the program: video input, OpenCV calls, window and files.
- `tests/`: tests of the library.
