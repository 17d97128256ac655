# zksaas

Verified core of a multi-party proving service, in Verus.

Parties hold packed shares of secrets and talk over multiplexed channels; party 0 is the
king, which helps the others. What the parties compute and decide is in `src/`, with its
contracts and proofs:

- `connect`, `connection`, `peer`, `testnet`: who dials whom, what a party knows of the
  others, and a network of parties in one process;
- `mux`, `stream_id`, `framing`, `error`: channels, the frames on them, and errors;
- `field`, `bls12_377`, `bn254`: prime fields, whose arithmetic is that of `ark_ff`;
- `pack`, `deg_red`, `sharing`: the degree reduction, and what it does to a sharing;
- `ext_wit`: the extended witness of a proof;
- `dpp`: a trial of the distributed partial products.

A protocol is written as a value for each of its stages. A stage says what the network is
to do next, and takes the outcome to the following stage.

`app/` is the ordinary Rust around this: sockets, tasks, randomness and serialisation.
`tests/` runs the library on concrete values.

The proofs rest on the contracts of the few functions that call `ark_ff` and `tokio_util`,
in `bls12_377`, `bn254` and `framing`.
