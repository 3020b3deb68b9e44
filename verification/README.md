# hk_core

The Brain Steward of HarnessKit: it shows what the Codex, Hermes and
OpenClaw agents are configured with, keeps their memory private, shares
only Skills and MCP definitions between them, and turns requested changes
into proposals that a person approves before anything is written.

- `src/` is the library, verified with Verus. Every decision lives here:
  which config keys, persona files and memory paths each agent may change,
  how proposals are validated, rendered, gated and settled, how the
  secret-free MCP registry is checked, planned, toggled and merged with
  the agents' own configs, how shared Skills are planned for migration,
  how config previews hide secrets, and what the model is allowed to see.
- `app/` is the `hk-steward` program around it: file and network I/O,
  the localhost proposal service, the model backend calls, atomic writes,
  backups, rollback and the audit log.
- `tests/` runs the library on concrete inputs.
