# corekeys-protocol

Shared wire logic for a split-key hardware authenticator, written in Verus.

- `src/ckvp.rs`: framing of messages over 64-byte HID reports (`encode`, which
  hands each report to a callback with no allocation; `encode_to_vec`; and
  `report_count`/`report_at` to build them one at a time) and
  their reassembly (`Reassembler::push`), specified as a state machine
  (`step`) over an abstract state, with the proof that reassembly undoes
  framing (`lemma_frames_reassemble`) and laws over any history of calls
  (`lemma_cont_outcome`, `lemma_active_channel_history`).
- `src/pairing.rs`: the pairing commitment and short authentication string,
  over SHA-256 from the `sha2` crate; `src/pairing/wire.rs` parses the
  plaintext pairing messages.
- `src/records.rs`: the co-authorization records and their shape checks.
- `app/`: the CBOR encoding of the records, derived with `minicbor` on copies
  of the record types.
