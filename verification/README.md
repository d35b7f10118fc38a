# fstx

Atomic, crash-safe file transactions: stage any number of writes, renames and removals inside
a directory tree, then commit them together. After any crash, recovery leaves the tree as it
was before or as committed.

The library in `src/` is verified with Verus. It works on any implementation of the `Vfs`
trait, whose contracts are stated over a model of a filesystem that distinguishes what is
there from what would survive a power loss (`disk.rs`, `crash.rs`). Any call may fail; where an
implementation says that it `serves`, calls are carried out wherever the disk allows it, and
what is built on them succeeds on the disks that its contract names.

* `path`, `overlay`, `compile`, `plan`: what a transaction sees, and the plan of renames that
  its changes call for.
* `journal`, `progress`, `json`, `hex`, `text`, `checksum`: the formats on disk.
* `apply`, `classify`, `positions`, `recover`, `state`: carrying a plan out, and undoing it.
* `transaction`, `inspect`, `caps`: the interface. `probing` says what probing a filesystem leaves.
* `moves`, `durability`, `readiness`, `turns`, `atomicity`, `restoration`, `retreat`, `contents`,
  `outcome`, `sight`, `result`, `verdict`, `marking`, `order`, `grounding`, `storage`, `upkeep`,
  `logbook`, `guarantee`: what holds of the whole.

What is proved of the guarantee, and under which hypotheses:

* A transaction is in good order when it has been started, and every operation keeps it so
  (`upkeep`). That takes a filesystem that tells names apart by case and whose objects keep their
  identity, and that nobody else changes what the transaction saw.
* A plan compiled from a transaction in good order, if it passes the check that every plan is put
  through, can be carried out on its disk and undone (`grounding`, `storage`). Left out are plans
  that move one file under two of its names, and plans in which something comes back to the very
  place it left.
* Before the commit is marked, whatever cuts the transaction off while it is applied, the next
  recovery rolls it back without fail, and every path of the tree leads where it did
  (`guarantee`). Where the crash fell into the writing of a log record, what is left of it must
  not read as a record that nobody wrote. Once the commit is marked, recovery cleans up without
  fail, and every path leads to what the transaction saw. Both suppose that what was in the tree
  before was durable.
* Rolling back may itself be cut off, as often as it pleases: what is left can be brought back, and
  a rollback that is carried through leads back to the names and the content of before
  (`retreat`, `contents`). That recovery does not refuse such a state is not proved.

* `sim`: a filesystem in memory that can crash at any call and come out of a power loss in
  every way the model allows.
* `changes`, `edits`, `node`, `messages`: change sets, and plain values for scripts.

`app/` is the command-line tool, the Linux backend and the Node.js bindings around it.
