# mihomosh

The command line of Mihomo: it installs Mihomo as a systemd service and keeps the subscription in
its configuration up to date.

- `src/` is the library, verified with Verus. It decides what a configuration text becomes, what
  is fetched from where, what is checked, and which stage of an installation follows which.
- `app/` is the program around it: the command line, files, processes and the network.
- `tests/` runs the library on given values.

What the library takes from other crates stands behind small functions whose contracts say what
is relied on: `serde_yml` in `src/yaml.rs`, `url` in `src/meta_url.rs`, `sha2`, `hex` and `flate2`
in `src/digest.rs`, and `std::path` in `src/paths.rs`.
