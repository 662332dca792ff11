# one-dimension-up

Renders a short silent film about homogeneous coordinates, as an MP4 video or
a single PNG frame.

- `src/` is the verified library (Verus):
  - `cli` parses the command line from raw argument bytes into a render
    request, with the errors it can refuse it with; the caller supplies the
    readers of a `--time` value and of an output path's extension (the
    platform's `Path::extension`);
  - `cli_laws` proves laws of the command line: conflicting options are
    refused, `--option=VALUE` and `--option VALUE` agree, option order does
    not matter, and options not given keep their defaults;
  - `decimal` reads decimal integers the way `str::parse::<u32>` does;
  - `film` holds the chapter lengths, frame counts and titles, and locates a
    frame of the film within its chapter;
  - `export` schedules when a rendered frame is captured and which frame is
    shown next.
- `app/` is the program around it: argument and file I/O, the FFmpeg
  encoder, and the Bevy/egui drawing, whose single-precision geometry is not
  part of the library.
- `tests/` runs the library on concrete inputs.
