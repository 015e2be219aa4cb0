# rust_orbitdb_core

OrbitDB-compatible oplog entries, verified with Verus: the canonical dag-cbor
encoding of an entry and of its signed projection, the entry hash (a CIDv1
over that encoding), secp256k1 signature checks, the clock order that settles
conflicts, and an in-memory content-addressed entry store.

Layout:

- `src/` is the verified library. Each public function states what it returns
  over spec functions (`entry_encoding`, `signed_encoding`, `cid_text`,
  `signature_check`, `clock_order`, ...), and the laws the library keeps are
  public proof functions (`lemma_clock_*`, `lemma_signed_ignores_key_sig_identity`,
  `lemma_entry_is_canonical_map`, `lemma_map_encoding_ignores_entry_order`,
  `lemma_full_encoding_covers_key_sig_identity`, `lemma_get_after_put`,
  `lemma_puts_from_empty`, `lemma_entry_encoding_injective`,
  `lemma_signed_encoding_injective`, ...). `Ipld` equality follows the IPLD data model
  (`ipld_eq`): floats by IEEE equality with NaNs equal, maps as maps.
- Hashing, multihash/CID text, hex decoding and ECDSA go through the `sha2`,
  `multihash`, `cid`, `hex` and `k256` crates behind small trusted wrappers,
  each documented with what its contract claims of the outside function.
- `tests/` runs the library against the outside crates, with
  `serde_ipld_dagcbor` as the reference dag-cbor encoder.
- `app/` holds what Verus does not take: `serde`/`thiserror` copies of the
  library types and the conversions to and from `ipld_core::Ipld`.
