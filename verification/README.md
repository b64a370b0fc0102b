# scratchgen

Composes a square N x N grid image from a pool of smaller images.

The library under `src/` holds the rules, each with a Verus contract:

- `allocation`: constrained mode. Base counts, leftover slots in remainder
  order, minimum and maximum counts enforced in rounds, then the tiles
  expanded and shuffled. Proved: accepted counts sum to the total and lie
  within every image's minimum and maximum (counts that would break a bound,
  as a minimum above its maximum forces, are refused); with non-negative
  minimums each at most its maximum, the counts are refused exactly when the
  minimums sum to more than the total or the maximums to less, and then with
  the error that names which.
- `sampling`: independent draws and draws without replacement (with optional
  refills), as a state machine the caller drives with its weighted choices.
- `extension`, `path_order`: which directory entries are images; sorting and
  de-duplicating the pool by path components.
- `grid`: tiles per side (rounded square root), canvas extent, tile origins,
  background colour parsing.
- `render`: fitting an image into a tile and placing tiles, through the
  `image` crate. Stated: tile sizes per fit, the scale of a contained image
  (longer side equal to the tile), its centring on the background, and that
  one-colour and opaque 8-bit images stay so under moderate scaling.
- `settings`: command line over configuration file, mode and fit names.
- `shuffle`: the random number generator type and the shuffle it performs.

`app/main.rs` is the command-line program: argument and configuration
parsing, file system and image I/O, and the floating-point weighting
(weighted choice and the weighted shares of the constrained mode).
