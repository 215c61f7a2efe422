# kernel_node

A silent payment (BIP-352) wallet and the decisions of the node around it, as verified
Verus code.

- `src/silentpayments/`: keys, scanning of transactions and blocks, and the wallet of found
  outputs with its history and its saved form.
- `src/wallet/`: the wallet built on the `silentpayments` crate: receivers and addresses
  (`bip352`), scanning, coins and the store that keeps them (`store`, `persistence`,
  `reopening`), the wallet itself (`account`), and payments (`funding`, `sending`).
- `src/state.rs`, `src/blocks.rs`, `src/node.rs`, `src/peers.rs`, `src/requests.rs`,
  `src/client.rs`: what the node decides: which store to attach, which blocks to scan, which
  peer to choose and when to give it up, what to answer and what to show.
- `src/secp.rs`, `src/chain.rs`, `src/bytes.rs`, `src/text.rs`, `src/outpoints.rs`,
  `src/sorting.rs`: keys on the curve, transactions, and the small things all of it rests on.
- `app/`: files, sockets and threads around the library.
- `tests/`: the library run on concrete values.

Functions marked `Trusted` are the places where another crate is called; what is claimed of
the call stands in the comment and the contract above it. Everything else is proved.

A function whose name begins with `checked_` makes the test that the function without the
prefix asks of its callers: that a hash is below the order of the curve, and that the amounts
of a payment stay in the range of the arithmetic.
