# eventfs

An event-sourced filesystem. Every change to a file or directory is an event on a branch; contents
and directory trees are stored by hash, so every earlier state can be restored, and what a write
replaced is kept with its event. The filesystem is mounted through FUSE and kept in RocksDB.

`src/` is the library. It holds every rule of the filesystem and is verified with Verus: each
function says in its contract what it returns or changes, and proof functions say what holds of the
functions together. `operations` says what makes a filesystem consistent and proves that a new one
is, that every operation and every change of branches keeps it so, and that opening it again does;
`runs` draws from that what holds after any number of steps: what was written can be opened again,
no state, event or snapshot of the past is lost or changed, every point of it can be restored, and
a branch that is left alone is found as it was left. `readings`, `effects`, `chronicle` and `depth`
say what is read from files and snapshots, what a write and a rename do as a whole, what walks over
events hand out, and how deep files get. The proofs suppose that no two contents that meet share a
hash. The parts are in `contents`, `files`, `payloads`, `snapshots`, `recorded`, `maps`, `states`,
`numbering`, `behaviour`, `soundness`, `counters`, `roots`, `durability`, `reopening`, `success`,
`timeline`, `switching`, `naming`, `listing`, `tree`, `links`, `indexes`, `matching`, `pages`,
`walks` and `locks`. Deleting a file leaves its extended attributes in the stored tree until that
part is stored anew; what is loaded differs from what was in memory in nothing that can be asked
for. The library does no input or output. It works on the tables of the database in memory, and a
change is made in two steps: an operation prepares a batch of rows, the caller writes the batch,
and a `finish` function then takes the change over.

`app/` is the input and output around the library: the RocksDB database, the FUSE callbacks, the
clock, the mount, backup repositories and the paths of the host.

`tests/` runs the library with the hash, chunking and encoding crates that it uses.
