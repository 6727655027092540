# wicara

A terminal messenger where you add a contact by pasting a public key, not a
phone number. Chat and files travel directly between peers; a small hub holds
sealed messages for recipients who are offline, and cannot read them.

What the messenger decides stands in `src/`, verified with Verus. What it does
to the outside world (sockets, disks, the terminal) stands in `app/`.

| module | what it holds |
|---|---|
| `e2e`, `e2e::mailbox_auth` | signed prekeys, sealed envelopes, proof of who reads a mailbox |
| `vault`, `identity` | the passphrase-derived key, the identity file |
| `room` | the signed, hash-chained membership log and its replay |
| `wire`, `codec` | message ids, frames, framing, and their bytes |
| `store`, `table` | the sealed message store and the fold into conversations |
| `hub_server`, `hub` | the hub's requests and tables, and the client's side of them |
| `files` | attachments: names that are safe to keep, hashes, limits |
| `session` | one live conversation: what is accepted, recorded, shown |
| `ui` | what the UI knows, what keys, clicks and events make of it, what it draws |
| `crypto`, `keys`, `bytes`, `text` | primitives of other crates behind plain bytes, hexadecimal, strings |

Contracts speak of mathematical views of these types. Where a primitive of
another crate decides (a cipher, a hash, the width of a glyph), its result has a
name, and contracts are exact over that name.

Laws that span several functions are public proof functions whose names begin
with `law_`.
