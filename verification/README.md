# c2pa-vtt

C2PA manifest embedding and hard binding for WebVTT subtitle and caption
files, written in Verus.

A C2PA Manifest Store reference is carried in a single-line `NOTE` comment,
between the ASCII armour delimiters, placed immediately after the `WEBVTT`
signature. The `c2pa.hash.data` hard binding is a byte-exact digest of the
file with that one line excluded.

## Layout

- `src/text.rs`: the byte-level model of UTF-8 text that the contracts are
  stated over, with its lemmas.
- `src/extract.rs`: locating the manifest block (`extract_manifest`).
- `src/embed.rs`: embedding and removing the block (`embed_manifest`,
  `remove_manifest`).
- `src/layout.rs`: lemmas on where the pieces of an embedded file lie.
- `src/binding.rs`: the data hash, its exclusion range and its verification.
- `src/bridge.rs`: resolving the reference to a URL or an inline store, and
  handing a store to the C2PA SDK.
- `src/base64.rs`: a standard Base64 codec with its round-trip proof.
- `src/error.rs`: the error type, its messages and status codes.
- `src/laws.rs`: the properties that relate the operations (extraction gives
  back what was embedded, removal undoes embedding, the data hash does not
  depend on the reference, ...), proved.
- `src/structured.rs`, `src/digest.rs`: the calls into
  `c2pa-structured-text` and `sha2`, each with the contract it is trusted to
  meet.
- `app/`: the Python and WebAssembly bindings.
