# photo_cull

The decisions behind a photo culling and editing program, written in Verus:
executable Rust with contracts that the verifier proves.

- `src/` is the library: perceptual hashes and single-linkage clusters (`dedup`,
  `union_find`, `links`), capture times and bursts (`capture`, `bursts`, `order`),
  sharpness (`vision`), faces and eyes (`face`), folder reports (`library`,
  `numbering`), exports (`export`), edit settings, geometry and retouching (`edit`,
  `editing`, `stages`, `heal`), and the images, numbers and texts these are made of
  (`raster`, `float_bits`, `rounding`, `singles`, `sizes`, `doubles`, `precision`,
  `text`, `formats`, `base64_text`).
- `tests/` runs the library with the real image, hash, EXIF and time crates.
- `app/` is the program around it: files, models, arithmetic in floating point and
  the desktop shell.

Numbers in floating point pass through the library as bit patterns. It compares
them, and where a rule turns on how a sum, a product, a root or a quotient is rounded,
it rounds whole numbers in the same way.
