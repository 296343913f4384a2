# panetiere

Anonymous broadcast through threshold servers, with machine-checked contracts.

Clients encrypt their messages under additively homomorphic keys, share the keys
among the servers and commit to the shares. Anyone can check the servers' sums
against the summed commitments and read the sum of the messages, and nothing
else. A multiset encoding lets several messages travel in one sum.

- `src/` is the library. Every item is verified by Verus.
  - `negacyclic`, `ntt`, `field`, `rings`: arithmetic modulo `X^2048 + 1`
  - `fp`, `fpoly`, `newton`, `roots`, `primes`: polynomials over prime fields
  - `kahe`: encryption; `sss`: secret sharing; `cs`, `commit`, `aggregate`,
    `hvc`, `digits`: commitments; `rs`, `share_commitment`, `digest`: coded lanes
  - `mse`, `iblt`, `peel`, `prony`, `codec`, `channel`: encodings of messages
  - `pke`, `sig`, `hash`, `random`: calls into cryptographic crates
  - `wire`, `bits`, `bytes`, `bulletin`: what parties send
  - `protocol`: the rounds of clients, servers, aggregators and recipients
  - `consensus`: which clients a round counts
  - `delivery`: what a round of honest parties delivers
  - `sweep`: the plan of a measurement sweep
- `app/` samples keys, times the parties and writes tables.
- `tests/` runs the library.
