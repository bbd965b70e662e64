# delocal engine

The engine of a file synchroniser that keeps a folder identical across machines. It takes events
(scan results, messages of peers, timer ticks, a person's decisions) and returns actions (fetch a
file, write it, send a batch, ask for a wake-up). It does no I/O, reads no clock and draws no
randomness: time and fresh identifiers come in with the events.

It is written in Verus. Every function has a contract over the value that its type stands for, and
Verus proves that the code meets it.

## Layout

| Module | What it holds |
|---|---|
| `order`, `ordmap` | total orders; maps and sets that are walked in order |
| `text`, `id`, `path`, `time`, `version`, `entry`, `rules` | the values: identifiers, paths, times, version vectors, entries |
| `conflict` | which of two concurrent versions wins, and where the loser goes |
| `index` | what a machine holds at each path, and what peers last saw there |
| `batch`, `brake` | batches of changes; holding those that are large enough to be a mistake |
| `quarantine`, `want`, `parts` | held batches; what is still to be fetched and put in place; what changed since it was stored |
| `folder_view`, `folder` | one folder: how each operation changes it, and the code |
| `engine_view`, `engine` | all folders of a machine: how each event changes them, and the code |
| `laws` | what relates several operations |

The laws state, among other things, that machines which know of the same changes hold the same
record (`laws/convergence.rs`), that a paused folder announces nothing until its batch is approved
or reverted (`laws/engine.rs`), that a denied version loses everywhere (`laws/folder.rs`), that no
quarantined version is ever orphaned (`laws/filing.rs`, `laws/arrival.rs`, `laws/upkeep.rs`), that
every want ends in exactly one place (`laws/dispatch.rs`), and that a copy of the index and of the
want-list can be kept from what the engine reports (`laws/reports.rs`, `laws/noting.rs`).

`app/` is the binary, with forms that can be serialised of the events, the actions, the messages
between peers and the state that is stored.
