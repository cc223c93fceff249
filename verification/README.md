# thaimeleon_lib

An opinionated color scheme generator that picks representative background,
foreground and accent colors from a wallpaper.

- `src/` is the verified library (Verus): the merge order of the agglomerative
  clustering of image colors (`cluster`), the phases in which accent hues are
  picked (`accent_hues`), the named hue slots of a scheme and their mapping
  (`thaimeleon_scheme`), linear range mapping (`utils`), reading raw RGBA pixel
  data (`rgba`), the errors of each stage and the color traits.
- `app/` holds the floating-point color arithmetic (OKLrAB, contrast, gamut
  mapping, hue scoring), image quantization with `quantette`, serde configuration
  and the WASM entry point. It answers the library's questions through the
  `Linkage` and `AccentHuePicker` traits.
- `tests/` exercises the library, including the clustering on real colors.
