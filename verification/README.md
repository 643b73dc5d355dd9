# crypto_practices

Interactive cryptography practices: AES-128 modes of operation with a
per-block trace, passphrase key derivation, and LSB steganography in 24-bit
BMP images. The library in `src/` is written in Verus. Its own functions
carry contracts that Verus proves; the few functions that call the outside
crates (AES, hex encoding, PBKDF2, the random generator) have contracts that
are trusted, each documented at its definition.

- `text` — hex rendering (through `hex`) and verified decimal rendering.
- `block` — one AES block: XOR, copying, and the AES-128 block cipher.
- `padding` — PKCS#7 padding; removing it gives the message back.
- `counter` — the CTR counter as a 128-bit big-endian number.
- `trace` — per-block trace records and their truncation for display.
- `modes` — ECB, CBC, CFB-128, OFB and CTR, with their round-trip laws.
- `process` — one request from the front end, checks in order, and the
  round trip of a whole request.
- `keys` — random bytes and PBKDF2-HMAC-SHA256.
- `stego` — BMP header parsing, hiding and extracting a message, capacity,
  bounds checks, and the laws that extraction undoes hiding and that hiding
  changes only least significant bits.

`app/` holds the WebAssembly bindings: the exported functions, serialisation
of a cipher run, and the bounds checks that stand in front of the library's
preconditions.
