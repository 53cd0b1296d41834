# tgfs

Telegram as a file store for backups: a folder is hashed into chunks, the chunks
are optionally sealed and packed, uploaded to a private channel as documents,
and found again through an index whose snapshots are pinned in that channel.

`src/` is a library, written and proved with Verus. It holds what the program
computes and decides, and touches neither the network nor the disk:

| module | what it decides |
| --- | --- |
| `crypto`, `hashing`, `key` | sealing in segments, content hashes, keys and their verifiers |
| `source`, `file` | chunks, packs, what an upload or a restoration of a file does |
| `telegram_transfer`, `uploader` | parts, resumption, ranged reads, retries and pacing |
| `index`, `table`, `numbers` | the files and chunks that are known, and how they are kept |
| `diff`, `sync`, `snapshot`, `restore` | scans, pushes, pulls, snapshots, what to restore |
| `session`, `tg`, `config`, `cli`, `text` | login state, channels, settings, commands, text |

`app/` is the program around it: it walks the tree, talks to SQLite and to
Telegram, hands what it reads to the library, and does the steps that the
library asks for. `tests/` runs the library with
the real crates behind it.
