# livi

The logic of a CarPlay and Android Auto bridge as a Verus library: wire formats, decision
machines and provisioning rules, each with a contract that Verus proves.

- `src/` is the library. `text`, `bytes`, `names`, `crc` and `tries` are what the rest is built on.
  - On the dongle: `dhcp`, `mdns`, `hci`, `mgmt`, `sdp`, `phones`, `bonds`, `iapd`, `mfi`, `led`,
    `config`, `tools`.
  - On the host: `host` and `host_messages` (video planes, feeds and audio), `dongle`, `wired`,
    `ncm`, `aa`, `aa_usb`, `carplay`.
  - Provisioning: `detect`, `bootstrap`, `ballast`, `payload`, `provision`, `menu`, `stock`,
    `firmware`, `bootimg`.
- `tests/` runs the library on concrete values.
- `app/` holds the programs: sockets, devices, files and USB around the library's decisions.

Outside crates are called in three places, each behind a small function whose contract is stated
beside it: `flate2` in `bootimg`, `md-5` in `payload`, and a handful of text functions of the
standard library in `text` and `ncm`.
