# par2rust

A PAR2 creator whose core is verified with Verus.

Given a set of files, it makes a PAR 2.0 recovery set: an index file, and volume
files with Reed-Solomon recovery blocks from which lost or damaged parts of the
files can be computed again.

## Layout

- `src/` is the library. It does no input or output; all of it is verified.
  - `galois`, `galois_order`, `coprime`: arithmetic in GF(2^16), the order of its
    generator, discrete logarithms.
  - `symbols`, `reedsolomon`, `galois_simd`: multiply-and-XOR on slices, the
    encoding matrix, and the fast paths, all with the same result.
  - `md5_impl`, `md5_mb_neon`, `crc`: digests and checksums.
  - `format`, `packet`: framing and the packets.
  - `source`: scanning input files.
  - `volumes`, `creator`, `encoder`, `memory`: planning and running a create job.
  - `file_order`, `suggestion`: the order in which input slices are numbered, and
    the slice size to suggest where there are too many of them.
  - `cli`, `paths`, `bars`, `text`: the decisions behind the command line.
  - `create_laws`, `recovery_laws`, and functions named `law_..` throughout: what holds of the
    library as a whole.
- `app/` is the command: arguments, files, progress bars.
- `tests/` runs the library.

## What is proved

- The multiplication is that of the field with generator `0x1100B`; 2 generates
  it; exactly 32768 exponents below 65535 are coprime to it, which is how many
  input blocks a set can have.
- Any number of lost input blocks is determined by as many consecutive recovery
  blocks: a volume file leaves only one way to fill that many gaps in the files.
- Input slices are numbered in the order in which the main packet lists the
  files, so that the order in which files are given changes no recovery packet.
- The slice size that is suggested is the smallest that suffices.
- The bytes depend on the request and the files alone, not on where they are
  written or on who watches the progress.
- Every volume layout holds exactly the recovery blocks asked for.
- Files are sequences of aligned packets, which a reader finds by their length
  fields; every volume holds the index twice.
- What a scan or a job reports are events due in it, with its own totals.
- A create job ends, writes the index first, and writes what it should.

What the library takes from other crates without proof stands in functions
marked `external_body` and in `assume_specification` items, each with a comment
that says what is claimed.
