# stripchart

A strip chart recorder for the terminal: it reads numbers line by line and
plots them against time, either full screen in braille dots or as "paper" that
scrolls down the terminal one row per sample.

The library (`src/`) holds the logic, verified with Verus:

- `text`, `number`, `parse`: reading input lines into values, names and headers,
  and reading durations such as `250ms` or `1.5m`;
- `data`: the recorder, its channels and its bounded history;
- `source`: splitting a byte stream into lines, and the demo's noise generator;
- `paper`: laying out the rows, rulers, legends and scale labels of paper mode;
- `screen`, `canvas`, `chart`: the full-screen chart's frame, braille canvas,
  lanes, axes, status line and key handling;
- `timefmt`, `tint`: clock readings, spans and colors.

`app/` is the program around it: command-line options, terminal and file I/O,
threads, and the floating-point scaling of values to rows and columns.
