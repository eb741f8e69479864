# ndn_face_wireless

The decisions of a named-data face over broadcast radios, as verified code: which
frames are worth decoding, whose turn a slot is, at what rate and on which radio a
frame goes out, and what the control plane applies, learns and reports.

## Layout

- `src/` is the library. Every function in it is checked by Verus against its
  contract. It does no I/O, reads no clock and starts no task: what the outside
  world shows comes in as plain values, and what is to be done comes out as plain
  values.
  - names and filters: `tier0` (the in-frame prefix filter), `tier1` (the counting
    tables), `gcs` (the compact set form), `name_gate`, `addressing`, `tlv`
  - taking turns: `sched`, `sched_config`, `groups`, `clock`
  - radios: `medium`, `tx`, `rate`, `actuator`, `control`, `keyed`, `dbm_power`,
    `factory`, `wireless`
  - helpers: `hash`, `bits`, `octets`, `text`
- `tests/` run the library on concrete values.
- `app/` is the running side: tasks, drivers, the environment and the traits of the
  engine. It needs the other crates of the stack, which `app/outside.rs` names.

The laws of the library are the public proof functions whose names start with
`law_`.

## What is trusted

Three functions of other crates are believed rather than proved: the SipHash-2-4 of
`siphasher` (`hash::siphash24`), and the two that fill and read the `SmallVec` of a
bearer selection (`wireless::Selection`). Their doc comments say what is claimed of
them.
