# sugar_wifi_conf

A verified library for a BLE service that configures Wi-Fi on a Raspberry
Pi, and for its SSH-over-BLE client. The library is written in Verus: every
function in `src/` carries a contract that Verus proves, except five small
trusted wrappers (three around std string functions, two around the `uuid`
crate) whose contracts are stated from those libraries' documentation and source.

- `src/` — the library: UUIDs (`uuid`), the chunked BLE text protocol
  (`protocol`), custom commands (`custom_command`), the `wpa_supplicant.conf`
  rewrite and NetworkManager readings (`wifi`), device facts (`device_info`),
  controller advertising (`advertising`), the SSH tunnel control protocol
  (`tunnel`), the tray client's state and menu (`tray`), its port book
  (`connections`, with runs of calls in `port_runs`), the background
  worker's decisions (`worker`), byte counters (`speed`), the configuration edits
  (`config`), device aliases (`aliases`) and benchmark reports (`bench`),
  on top of text helpers (`text`, `chars`, `scan`, `lines`).
- `tests/` — tests of the library on concrete values.
- `app/` — the programs around it: the BLE service (BlueZ), the config
  editor, the menu-bar client and its benchmark and end-to-end test.
