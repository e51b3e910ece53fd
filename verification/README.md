# scenesync_parity

The verified core of SceneSync's deterministic Rapier 3D profile.

`src/` is checked by Verus:

- `fnv` – FNV-1a (64-bit) over bytes and little-endian integers.
- `canonical` – canonical encodings of strings, stable identities and
  binary32 values (through their bit patterns: both zeros and all NaNs
  collapse to one form).
- `order` – the canonical body order (stable id hash, then id bytes) and the
  proof that a set of distinct identifiers has exactly one such order.
- `snapshot` – what the hash reads of a body and its collider, and the byte
  layout of their contributions.
- `world` – body bookkeeping under stable identifiers, tick counting, the
  canonical state hash and its hexadecimal form, with the laws that relate
  these operations.
- `wire` – how the scripting API's values (dictionary fields, signed ticks,
  configuration) map onto a world's inputs.

`app/` holds what Verus does not check: the Rapier engine (building bodies,
stepping, reading their floating-point state into snapshots), the Godot
class `SceneSyncRapierWorld3D` and the extension entry point.
