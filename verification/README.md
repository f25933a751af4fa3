# authority_ingest

Verified core of the authority-bound Ethos ingestion path.

A parsed Ethos unit is a list of stringless declarations plus the name table they were
parsed against. From it the library computes:

- the bind-or-mint declaration set: per declaration, its key (the bytes of its resolved
  name) and its structural fingerprint input (the ordered updates an identity hasher folds:
  role, visibility, body kind, counts, resolved names and reference tags);
- from the identity authority's reply, the canonical universe assignment: one member per
  declaration at its assigned local, sorted by local, every name re-interned in a fresh
  table in canonical order, plus the four scalar priors seated in the highest free locals.

Digesting the fingerprint input, decoding source text into declarations, and turning an
assignment into an encoded universe are done by other components; they are not part of
this crate.

`src/laws.rs` states and proves what holds of the path as a whole, among them that the
built assignment does not depend on how the unit's name table numbers its names: two units
whose declarations pair up with the same content build the same assignment, provided the
pairing keeps the relative order of declarations that receive one local (parse order
decides among those, as the stable sort by local keeps it). `src/fingerprint.rs` proves
that the fingerprint input is prefix-free, so equal fingerprints come only from
declarations of the same role, visibility and structure.

`app/` holds the error type with display messages for callers outside the library.
