# githttp-fs

A content store over git repositories, served over HTTP. Every tenant has a
repository of its own; every change is a commit. Changes are announced to a
webhook receiver in commit order, directories can have a stored order, and a
node can be followed by read-only replicas.

The library decides, the application acts. What a request means, which edits a
commit consists of, what a hook carries, when a replica syncs, locks or refuses:
all of that is computed in `src/` from plain values, with contracts that Verus
proves. Reading repositories, sockets, timers and files is the business of
`app/`.

| Directory | What is there |
|-----------|---------------|
| `src/` | the verified library |
| `src/git/` | trees, listings, commit plans, history, upkeep |
| `src/replication/` | identity, index, registry, issues, the follower |
| `src/routes/` | what requests ask for |
| `tests/` | tests of the library |
| `app/` | the server |

Within `src/`, functions whose names begin with `law_` state what holds of
several functions together. The calls into outside crates are the functions
marked `external_body`; the comment above each says what is taken on trust.
