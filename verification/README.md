# keystone_state_machine

The decision core of a replicated, encrypted key-value state machine that
stores its records in Fjall, verified with Verus.

- `src/` is the verified library:
  - `codec`: decimal and big-endian encodings, byte-string helpers;
  - `text`: UTF-8 checks;
  - `keys`: meta-key layouts, quarantine marker parsing, DEK records, the
    snapshot file header;
  - `quarantine`: the per-partition failure tracker and its startup load;
  - `types`: metadata, mutations, batch writes, violations, errors;
  - `ephemeral`: the registry of in-memory keyspaces (a `DashMap`);
  - `dek`: the DEK epoch ring and rotations;
  - `machine`: the state machine, the per-mutation apply step and its laws;
  - `snapshot`: snapshot payloads, ids, install batches;
  - `reencrypt`: the background re-encryption decisions.
- `tests/` exercises the library on concrete values.
- `app/` is the Fjall-backed store around it: database I/O, MessagePack
  records, snapshot files, and the hook for the node's cryptography.
