# bw-wez

The helper of a WezTerm plugin for Bitwarden: it asks the running desktop app for a
biometric unlock, keeps the user key in a small agent process, and reads login items
from the desktop app's own vault store.

- `src/` is the library: the rules of the helper, deadlines and retries among them,
  each with a contract that Verus proves: the EncString format and its keys (`crypto`, `codec`), the frames and
  the encrypted command protocol (`transport`, `protocol`, `json`), one-time passwords
  (`totp`, `clock`), the vault and the unlock (`vault`), the agent's decisions
  (`agent`), the command line (`cli`), and where things are looked for (`locations`).
  Ciphers, hashes, RSA, base64 and JSON come from crates; each call into one stands
  behind a declaration that says what is relied on.
- `tests/` runs the library with those crates linked, among other things against a
  desktop app that lives in memory.
- `app/` is the program: sockets, processes, files, the environment and locked memory.

Laws that span several functions are public proof functions beside them, named
`lemma_...`.
