# mandelbrot_renderer

A renderer of Mandelbrot set images whose computing core is verified with Verus.

A view is given either by the bounds of a region, and is then iterated directly in binary64, or by
a centre and a zoom as decimal text, and is then rendered by perturbation: one reference orbit is
computed at high precision, and every pixel is iterated as a small departure from it. Pixels whose
departure loses its accuracy (glitches) are computed again about new reference points, and those
that are left are iterated at high precision one by one, so that a finished picture has none.

- `src/` is the library. All of its arithmetic is done on the bit patterns of binary64 numbers, with
  correctly rounded operations that are proved against their definition; the iterations, the
  colouring and the decisions about reference points are proved against specifications over those
  operations.
- `app/` is the program around it: it reads the configuration file, does the high-precision
  arithmetic with `rug`, takes cosines and logarithms, hands rows out to threads, and writes the
  PNG file.
- `tests/` runs the library, against the machine's own arithmetic among other things.

## Use

    mandelbrot_renderer [FILE | -c FILE | --config FILE | --config=FILE | --NAME.json | -- FILE]

The configuration is a JSON file, `config.json` by default:

| key | meaning |
|-----|---------|
| `width`, `height` | the image's size in pixels |
| `x_min`, `x_max`, `y_min`, `y_max` | the region of a shallow view |
| `center_re`, `center_im`, `zoom` | the centre and the zoom of a deep view, as text |
| `max_iter` | the iteration limit |
| `output_filename` | the image file |
| `png_compression_level` | 0 (fastest) to 9 (smallest) |
| `png_filter_type` | `nofilter` or `none`, `sub`, `up`, `avg`, `paeth` |
| `color_density` | palette steps for each iteration, 1 by default |
| `series_approx` | whether the series approximation is used, true by default |
| `max_reference_points` | the largest number of reference points, 12 by default |
