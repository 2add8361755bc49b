# openajo

Rotating savings circles (ajo / esusu / adashe) enforced by contract, as
verified state machines. A group escrows a security deposit, contributes a
fixed amount each cycle, and the whole pot pays out to each member in join
order. A missed contribution is slashed from the member's deposit; a deposit
that cannot cover a miss marks the member defaulted, skipped in rotation and
reported to a permanent reputation registry.

## Layout

- `src/types.rs` — addresses, errors, the stored records, events and the
  effects an operation asks the ledger to carry out (token movements, events,
  reputation reports).
- `src/record.rs` — one circle and its Open-phase operations (`open`, `join`,
  `leave`, `cancel`), `contribute`, the views, and the invariant
  `well_formed`.
- `src/settle.rs` — settlement of a cycle: collect the pot, pay the first
  eligible member in join order, advance or complete.
- `src/circle.rs` — the whole circle contract: configuration, counter and all
  circles by id.
- `src/reputation.rs` — the reputation registry and its reporter allow-list.
- `src/laws.rs` — escrow accounting, the forward-only lifecycle, payout order,
  rotation order and the permanence of standings and histories.
- `app/` — the two Soroban contracts: storage, authorization, token transfers,
  events and cross-contract reports around the verified state machines.

Every operation states exactly what it returns and how the state changes,
over the spec functions of the modules above.
