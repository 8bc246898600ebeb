# imgap

Compares two pictures on a terminal: side by side, swiped, laid on each other, or
as a heatmap of their differences. Pictures are shown by the protocols of Kitty and
iTerm2, as sixels, or as coloured half-block characters.

- `src/` is the library, verified with Verus. Every function states what it returns;
  the proof functions whose names begin with `law_` state what holds of the library
  as a whole.
- `tests/` runs the library on concrete values, with the real `image` and `base64`
  crates.
- `app/` is the program around the library: the command line, files, the terminal
  and its events.

Floating-point results (sizes, blending, heat levels, the slider) are computed on
integers, with the rounding that single and double precision prescribe, so that the
contracts give them exactly.

The calls into outside crates and into parts of the standard library without a
contract stand behind small functions marked `external_body`, most of them in
`src/picture.rs` and `src/graphics.rs`. The comment above each says what is taken on
trust.
