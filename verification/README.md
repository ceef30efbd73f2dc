# vmp

Building blocks of a code protector for 64-bit Windows images, written in Verus.

* `src/msvc` demangles symbols in the Microsoft Visual C++ encoding. `grammar.rs`
  says what every byte sequence denotes; the parser in `parser.rs` and below it is
  proved to compute that, within a budget for the text that it produces and for
  any course of allocations. `laws.rs` holds what follows for all symbols.
* `src/emit` decides how rewritten code is placed into an image: what may be moved,
  where it goes, which bytes of the original are written over, and what the
  unwinder is told. Whole functions are in `protect.rs` and `functions.rs`, marked
  regions in `markers.rs`, `references.rs`, `region.rs`, `slice.rs`, `calls.rs`,
  `sdk.rs`, `sdk_run.rs` and `sdk_protect.rs`, and instances of the virtual machine
  in `vm.rs` and `vm_embed.rs`. Work that needs an image, a decoder of whole
  functions or a rewriter is asked for: a state says what has to be done next, and
  a verified function makes the next state of the result.
* `src/probe.rs` holds the computations of the probe program.
* `app` drives the library: it asks the image reader, the decoder and the rewriter
  for what each state of the library names, and hands back the result.

What is trusted rather than proved: the decoder and the encoder of `iced-x86`
(`src/emit/decoder.rs`), and three functions of the standard library on strings
(`src/text.rs`, `src/msvc/state.rs`).
