# budoux_mod2

Line wrapping for styled text in AviUtl2 scripts, with phrase boundaries from
BudouX models.

- `src/` is the library, verified with Verus: BudouX phrase segmentation
  (`budoux`), splitting a line into pieces at whitespace, manual breaks and
  phrase boundaries (`segment`), wrapping pieces into lines of a given width
  (`layout`), the text units and their markup (`evaluate_chars`), the reply
  stack, layout cache and callback handle of the script side (`lua_handle`),
  the registry of buffers lent to the script (`lending`) and binary search
  helpers (`bisect`).
- `app/` is the script module around it: the plugin entry points, the markup
  parser, the calls into the script side, the bundled model files, and the
  floating-point placement of the lines.
- `tests/` runs the library on concrete inputs.
