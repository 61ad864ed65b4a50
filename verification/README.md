# inventory-core

The rules behind a searchable inventory of conversations with coding tools, as a
Verus library: every function in `src/` carries a contract that Verus proves.

- **The index** (`db`, `durability`, `cipher`, `schema`, `steps`): one file, sealed
  with AES-256-GCM. Sealing and opening are inverse to each other, a file that is
  there is never taken for a fresh index, a lost key is never papered over with a
  new one, and an interruption at any point leaves the previous file whole.
- **Repositories and files** (`repo`, `remote`, `infer`, `mentions`, `token`,
  `path`, `unix`, `windows`, `disk`): a working directory, or failing that the paths in a transcript,
  resolved to a repository that keeps its identity when a checkout moves; and the
  files that a transcript talks about.
- **Search** (`search`, `fusion`, `score`, `rank`, `model`): the statements that
  keyword retrieval runs, in which user text is only ever quoted or bound, and
  reciprocal rank fusion over exact fractions.

The library does no input or output. Routines that depend on the disk take the
answers gathered so far and return either their result or the next question
(`disk`); work on files is handed out as a list of steps (`steps`); database work
as statements with bound values. `app/` performs all of this with the file
system, SQLite and a keychain.

What is taken on trust: the three calls into `aes-gcm` in `src/cipher.rs`, and in
`src/text.rs` what two functions of the standard library do. Each says in its
documentation what it claims.

Paths are text, read by the rules of the platform that they belong to: `unix` and
`windows` hold the two sets of rules, `path` chooses between them.
