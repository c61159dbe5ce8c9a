# mc_server_manager

The verified core of a desktop tool that installs and configures a Minecraft
Java Edition server on a remote Linux machine over SSH.

- `src/` is the library, verified with Verus:
  - `text`: whitespace, trimming, line splitting, search and replace on strings;
  - `properties`: reading and writing `server.properties`, with the proof that
    writing and reading back gives the same properties. The properties are
    held in `ServerProperties`, a vector of key/value pairs whose keys are kept
    distinct by a type invariant, seen as a `Map`: with `String` keys, a
    `HashMap` offers no specification from which such facts can be proved;
  - `versions`: the version list, log lines, Base64 and the chunked upload;
  - `ssh`: login decisions and the gathering of a remote command's output;
  - `install`: the installation of a server version as a state machine, with
    the proof that success is only reported after the jar's SHA-1 matched;
  - `profiles`: connection profiles.
- `app/` holds the SQLite storage, the SSH sessions, the HTTP requests and the
  commands that the user interface calls; it performs the actions that the
  library decides on.
- `tests/` runs the library on concrete values.
