# metric-gauge

Two round displays on an ESP32-C3, each showing the CPU and memory load of one host, scraped from
a Prometheus URL (node-exporter or mon64).

## Layout

- `src/` is the library. Its functions are verified with Verus against the contracts in their
  headers, but for the few that call an outside crate, whose contracts are taken as given; laws
  that span functions are public proof functions beside them.
- `app/` is the firmware around it: pins, radio, sockets, TLS, and the floating-point arithmetic.
- `tests/` run the library, with the crates it calls.

The library calls two outside crates, `heapless` for buffers of a fixed capacity and
`embedded-graphics` for the pixels of a text. What it relies on is stated at the functions that
call them, in `bounded.rs` and `label.rs`; `text.rs` relies on `core::str::from_utf8` in the same
way. Numbers are carried as their single-precision encoding: comparing and clamping them is
verified in `binary32.rs`, and arithmetic on them is left to the firmware.

## Hardware

| Signal | GPIO | Notes |
|--------|------|--------|
| SCK (SCL) | 6 | Shared SPI clock |
| MOSI (SDA) | 7 | Shared SPI data |
| RST | 0 | Shared reset |
| BL | 5 | Shared backlight (driven high) |
| CS1, DC1 | 10, 1 | Gauge 1 |
| CS2, DC2 | 3, 4 | Gauge 2 |

The displays are GC9A01 modules on 4-wire SPI, fed from 3V3.

## Settings

Set in the environment when the firmware is built:

| Name | Alias | Purpose |
|------|-------|---------|
| `SSID` | | Wi-Fi SSID |
| `PASS` | `PASSWORD` | Wi-Fi password |
| `GUAGE1_PROM_METRIC` | `GAUGE1_PROM_METRIC` | Prometheus URL for display 1 |
| `GUAGE2_PROM_METRIC` | `GAUGE2_PROM_METRIC` | Prometheus URL for display 2 |
| `GUAGE1_ROTATION` | `GAUGE1_ROTATION` | `0`, `90`, `180`, `270`, `RotateX`, or a register value like `0x68` |
| `GUAGE2_ROTATION` | `GAUGE2_ROTATION` | The same for display 2 |

Hosts are scraped every ten seconds. The CPU load of a node-exporter host takes two scrapes: until
then it shows `n/a`. The label between the dials is the first label of the host in the URL.
