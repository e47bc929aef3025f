# zkpd, zkp delegate

`zkpd` distributes a computation over a prime field to several workers
without showing any of them the inputs: the delegator splits each input into
Shamir shares, the workers compute on their shares and multiply with Beaver
triples, and the delegator recovers the result from their answers.

## Layout

- `src/` is the library, verified with Verus.
  - `lib.rs`: the `FiniteField`, `SecretSharing` and `BeaverTripleGeneratoor`
    traits, with contracts over each element's canonical value.
  - `ff/`: the BLS12-381 scalar field on four 64-bit limbs.
  - `util.rs`: polynomial evaluation, multiplication, addition and Lagrange
    interpolation.
  - `secret_sharing.rs`, `beaver_triple_generatoor.rs`: Shamir sharing and
    Beaver triples.
  - `mode/`: the worker and delegator roles, for scalars and polynomials.
  - `p2p/`: the messages the networked roles exchange, peer addresses, and
    the per-stage store of broadcast shares.
  - `algebra.rs`, `lagrange.rs`: the mathematical model and the theorems that
    tie it together (interpolation, sharing then recovering, Beaver
    multiplication, interpolating point-wise products). These theorems are
    proved for every prime modulus; that the BLS12-381 scalar modulus is
    prime is not proved in this crate, so for that field they hold under
    that hypothesis.
- `tests/`: tests of the library on concrete values.
- `app/`: the programs around it: the in-process examples, and websocket
  workers with a delegator that drives them.

```bash
zkpd scalar                # x^3 + 5x^2 + 3x + 2 at x = 100, in one process
zkpd poly                  # product of two random polynomials, in one process
zkpd p2p-scalar-worker --index 1 --port 1080
zkpd p2p-scalar-worker --index 2 --port 1081
zkpd p2p-scalar-worker --index 3 --port 1082
zkpd p2p-scalar-delegator --workers "1@ws://127.0.0.1:1080" "2@ws://127.0.0.1:1081" "3@ws://127.0.0.1:1082"
```
