# lbzip2

A bzip2 decompressor in Rust, verified with Verus.

The library under `src/` decodes blocks, streams, and chunks of streams. Its
contracts say what every function returns for every input: the text that the bits
of a block stand for, or the reason why they cannot be decoded and the position
that was reached. `src/grammar.rs` states the format itself.

Beside the contracts stand laws:

- a block that was written from a text gives the text back, however the text was
  cut into runs: from the bits that a compressor puts down, head and body, to the
  text (`encoding`, `writing`, `rotations`, and the stages in `codes`, `mtf`, `rle`);
- finding all blocks and decoding them apart, decoding in segments, and decoding
  in chunks with a carry give what decoding in order gives (`parts`, `carry`);
- streams one behind the other give their texts one behind the other, where none
  has larger blocks than the first allows, and what follows a stream does not matter
  to the decoder of one stream (`joined`);
- a block depends on its bits from behind the checksum to the end of its last word
  alone, and is never decoded when it is cut short, where its codes have room for
  all their words (`locality`);
- results that come back in any order leave in order (`collector`).

Bit offsets are held in `usize`, so that an input can have at most `usize::MAX / 8`
bytes. Checksums are read past, not compared. Randomised blocks are refused.

`app/` is the command line program: a pipeline of threads around the library.

    lbunzip2 <input.bz2> [output]

`LBZIP2_THREADS` sets the number of workers.
