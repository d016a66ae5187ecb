# Biskit

Biskit answers an agent's questions about a Roblox Luau project: where a file lands in the game,
which module requires which, what the Roblox API offers, and which Wally packages are declared,
resolved and installed.

## Layout

- `src/` is the library: everything Biskit decides and computes, written in Verus. Functions state in
  their contracts what they return, and every contract is proved from those of the few calls that leave
  the library.
- `tests/` runs the library on concrete values.
- `app/` is the program around it: the command line, the files, the network, the server.

| Module | What it holds |
|---|---|
| `roblox::sourcemap` | The instance tree of a project, and the way between instances and files |
| `roblox::require_graph` | Reading requires, resolving them, and the graph between modules |
| `roblox::shared_require` | Finding the module a `shared("Name")` call means |
| `roblox::api_definitions`, `roblox::metadata`, `roblox::api` | The type definitions of the Roblox API, and questions about them |
| `roblox::context` | Everything there is to know about one module |
| `wally` | wally.toml and wally.lock, the registry, and running Wally |
| `setup` | Registering Biskit with the agents of a project |
| `upgrade` | Replacing the executable by a release |
| `status`, `server`, `session_start` | The status report, the answers of tools, and the session marker |
| `json`, `text`, `text_map`, `paths`, `lines`, `system`, `errors` | What the others are made of |

## What is not proved

What an outside crate or the standard library computes is taken on trust, and each such call stands in
a small function of its own marked `external_body`, whose comment says what is claimed of it and what is
left unsaid: documents (`serde_json`, `toml_edit`), versions (`semver`), patterns (`regex`, `memchr`),
archives (`zip`, `tar`, `flate2`), and from the standard library UTF-8 decoding, Unicode's letters and
small letters, how a text is quoted, and whether backslashes part paths. Where an archive names its
entries in a way that each system reads differently, what is taken out of it is stated only as far as
all systems agree.
