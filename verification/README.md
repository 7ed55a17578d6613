# osm_core

A passphrase-encrypted memo format, verified with Verus.

- `src/payload.rs`: the binary payload (41-byte header + AES-GCM ciphertext) and its byte layout.
- `src/params.rs`: Argon2 cost parameters and their validation.
- `src/crypto.rs`: passphrase normalization (NFKC, trim), Argon2id key derivation, AES-256-GCM.
- `src/rng.rs`: the salt/nonce source trait, the OS source and a fixed, cycling source.
- `src/encoding/`: the standard text form (`OSM1.` + base64url), the base-2048 word form
  (`bits.rs`, `words.rs`) and detection of the form of a text (`detect.rs`).
- `src/text.rs`: character-level helpers (trim, split, join) with their specifications.
- `src/hex.rs`, `src/vectors.rs`: what checking test vectors needs.
- `src/web.rs`: the browser interface's decisions (text form by name, decrypt outcome with
  its five stable error kinds).
- `app/`: the `osm` command line and the browser-facing entry points.

The word forms need the two frozen wordlists, one word per line:
`data/bip39-japanese.txt` (the BIP-39 Japanese list) and `data/bip39-japanese-kanji.txt`
(its index-aligned kanji skin). The library takes them as `Wordlists`, built with
`Wordlist::new`, which accepts exactly 2048 distinct words, and `Wordlists::new`, which
accepts a kanji list only if it is index-aligned with the hiragana list and differs from it,
and no word of either list starts with `O` (so that no word form starts like the standard form).
A text in which no token is a word of either list is in no form and reads as `Malformed`.
