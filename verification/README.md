# chain_worker

The message handling of a node in a proof-of-work chain with account balances,
verified with Verus.

- `src/` is the library. Every function in it has a contract that Verus proves.
  - `hash`: hashes, addresses, and the SHA-256 digest from which addresses are made
  - `table`: the map that everything else is kept in
  - `transaction`, `block`, `message`, `note`: what nodes exchange and report
  - `ledger`: accounts, and how transfers are checked and settled
  - `blockchain`, `mempool`, `orphan`: known blocks, waiting transfers, waiting blocks
  - `connect`: how a block joins the chain
  - `peers`, `inventory`, `intake`, `worker`: what a node does with each message
  - `laws`: what holds of the node as a whole
- `tests/` runs the library on concrete values.
- `app/` holds the worker threads around the library.

One thing is taken on trust: that `ring` computes SHA-256 as a function of its
input, with a digest of 32 bytes.

Whoever decodes a transfer or a block sets its hash, and for a transfer whether
its signature is valid. The library derives the paying account from the public
key.

A message that a node cannot handle makes `handle` give `None`. Only transfers
and blocks can be such a message:

- a transfer, alone or in a block, from an account that is not known;
- transfers, where the block in which the longest branch ends left no ledger;
- a block whose parent left no ledger, or after which the longest branch ends in
  a block that left none;
- a block whose transfers may each be paid, with a recipient that is not known
  or a balance that would overflow, or, where its parent was known when it came
  in, with more spent from an account than its running balance.

For transfers the contract says exactly when that happens. For blocks it can
depend on the order in which the waiting blocks are gone through: `None` comes
only where some order leads to it, and a result only where some order leads to
that. Whatever the outcome, the chain and the buffer of waiting blocks stay
well-formed.
