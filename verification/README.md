# txn-db

A multi-version concurrency control (MVCC) transaction engine, verified with
[Verus](https://github.com/verus-lang/verus): snapshot isolation, serializable
transactions, watermark-driven garbage collection, and recovery from a log of
commit records.

## Layout

- `src/` is the library. Everything in it is verified.
  - `history.rs` is the model: the versions of every key, what a reader at a
    timestamp sees of them, and what commits and collection do to them.
  - `store.rs` holds the `VersionStore` trait and the sharded `MemoryStore`, on
    top of `keymap.rs`, a map keyed by byte strings.
  - `oracle.rs` hands out timestamps and keeps the read watermark and the
    registry of live readers.
  - `db.rs` and `txn.rs` are the database, its transactions and its snapshots.
  - `durable.rs` is the commit-record format, `recovery.rs` the replay of a log.
  - `laws.rs` states and proves what holds across operations: atomic commits,
    stable snapshots, first-committer-wins, serial equivalence, invisible
    collection, and recovery of everything committed.
  - `sessions.rs` shows that a program gets the same answers whatever store that
    never fails is behind the database, and `shards.rs` that the number of shards
    of a `MemoryStore` cannot be observed.
  - `timestamp.rs`, `error.rs`, `bytes.rs` and `text.rs` are what the rest is
    made of.
- `app/` puts a database behind a lock and hands out clonable handles to it. It
  also opens the write-ahead log, through `wal-db`, and gives the error type the
  traits of `error-forge`.
- `tests/` runs the library, with `wal-db` keeping the logs.

## Using it

A database is a plain value, and a transaction names the database it reads and
commits to:

```rust
let mut db = Db::new();

let mut tx = db.begin();
tx.put(b"greeting".to_vec(), b"hei".to_vec());
tx.commit(&mut db)?;

assert_eq!(db.get(b"greeting")?.as_deref(), Some(&b"hei"[..]));
```

A transaction or snapshot is a live reader until it is committed, rolled back or
released; collection keeps every version a live reader can see.

A durable commit takes two steps. `Transaction::prepare` applies the writes and
hands back the record to log; `Db::finish` makes them visible once the record is
safe. `recovery::decode_log` and `Db::recover` read a log back.

## What is trusted

One function of the standard library, `Arc::<[u8]>::from(Vec<u8>)`, is called
through `bytes::share`, whose contract says that the bytes stay the same.
