# casa1

The parts of a runtime for Windows programs that decide and compute, with
contracts that Verus proves.

- `src/pe` reads executable images: headers, directories, imports, exports,
  relocations, resources, version information, manifests and icons. It maps
  images into memory, resolves imports through forwarders and API sets, and
  plans the order in which modules are loaded and notified.
- `src/fs` leads Windows paths to paths below a root directory, keeps open
  files from excluding each other unnoticed, and names the alternate streams of
  files.
- `src/audio` decodes sound as far as whole numbers go, says how channels and
  rates are mapped, and keeps account of devices, streams, clients and effects.
- `src/perf` keeps account of translated code, caches, draw calls, uploads,
  shader jobs, background reads and frame times.
- `src/print` keeps account of printers and print jobs, and writes the PDF
  documents that jobs become.
- `src/bytes.rs`, `src/text.rs`, `src/utf16.rs`, `src/order.rs`, `src/names.rs`
  and `src/ids.rs` hold what the others share: words in byte strings, text as
  sequences of characters, order, and maps by name and by number.

Contracts speak of mathematical models: text is a sequence of characters, a
type with text or lists in it has a model of its own, and an outcome agrees
with a specification that says both when there is a result and which. Where the
machine has a say (room for an image, the clock, chance), the contract says what
holds of every answer, and a function that takes the answer says the rest. What
the library says of the standard library, `roxmltree` and `uuid` without proof
stands in a few functions marked `#[verifier::external_body]`, in two
`assume_specification` items and in the names beside them, each with what it
claims.

Results that are fractions are given as two whole numbers (`perf::ratio`), and
times in nanoseconds.

`app` is what surrounds the library: files, threads, streams of sound and
floating-point signal processing. It is not verified. `tests` run the library
on concrete values.
