# egfx_codecs

Codecs of the EGFX remote-desktop channel, verified with Verus.

- `src/bits.rs`: bit streams over bytes, most significant bit first.
- `src/srl.rs`: the SRL entropy codec for progressive upgrade passes.
- `src/srl_laws.rs`: decoding an SRL stream undoes encoding it.
- `src/rle.rs`: run-length coding of NSCodec planes.
- `src/nscodec.rs`: NSCodec bitmap streams to BGRA pixels.
- `src/error.rs`: why an NSCodec stream is rejected.
- `src/dump.rs`: which payloads are captured, under which names, with which metadata.
- `src/text.rs`: decimal numbers and JSON string escapes.
- `app/`: the environment, the file system and the error type of `ironrdp-core`.
- `tests/`: the library run on concrete values.

One item is trusted: the specification of `String::push` in `src/text.rs`.
