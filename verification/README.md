# rgit

A small git client: loose objects (blob, tree, commit), the pkt-line wire
format, ref discovery, the upload-pack request and packfiles with ref-deltas.

- `src/` is the library, written and proved with Verus. Each parser is stated
  as a spec function over bytes and the executable code is proved to compute
  it; the laws (a pkt-line reads back as written, an encoded object parses
  back to itself, git's tree order, the id of each packed object) stand as
  public proof functions beside the code they speak of. SHA-1, zlib and hex
  come from the `sha1`, `flate2` and `hex` crates behind small trusted
  wrappers in `src/codec.rs` and `src/text.rs`.
- `app/` is the command-line program (`init`, `cat-file`, `hash-object`,
  `ls-tree`, `write-tree`, `commit-tree`, `clone`): files, HTTP and argument
  handling around the library.
- `tests/` runs the library on concrete inputs, including ids that git itself
  gives.
