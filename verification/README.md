# mandalas

Generates 3-dimensional mandalas with the Tonči Juričev-Grgin method: a
point starts at the centre of the canvas and repeatedly moves halfway
towards a corner picked at random; each point is coloured by how far the
last few points were from each other, and every layer of the canvas is
saved as a PNG image.

The library under `src/` is written in Verus and verified:

* `text`: decimal numerals, reading numbers as `u64::from_str` does, and
  string building.
* `util`: digit grouping (`separated_number`), squared distances, and the
  bit packing of PRGB1555 colours.
* `ops`: the number of points to generate, file names, canvas allocation,
  CPU affinity masks, and `gen_ctx`, the point generator.
* `options`: the command-line options: the size syntax, the validators,
  the default job counts.
* `bindings`: the contracts of the outside code the library calls
  (itertools, arraydeque, rand, image, num_cpus, std).

`app/` is the program around it: command-line parsing with clap, the
threads, the floating-point colour computations, the progress bar and
saving the images.
