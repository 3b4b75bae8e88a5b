# kagari (篝)

A small, Wayland-native live graph of system metrics, with its logic verified in
[Verus](https://github.com/verus-lang/verus).

- **Temperature (°C)**: every `tempN_input` of `lm-sensors`, and the NVIDIA GPU.
- **Usage (%)**: total and per-core CPU usage, memory usage, and the fan speed of
  the NVIDIA GPU.
- **Fan (RPM)**: every `fanN_input` of `lm-sensors`.
- **Network (bytes/s)**: throughput received and sent, summed over all interfaces
  but the loopback.
- **Disk I/O (bytes/s)**: throughput read and written, summed over the physical
  disks.

Each unit has a band of its own, with its own auto-scaled vertical axis. Series are
switched on and off in a side panel; that, and the size of the window, is remembered
across runs under `$XDG_CONFIG_HOME/kagari/` (by default `~/.config/kagari/`). With
`KAGARI_DEBUG=1` each poll is reported on standard error.

Every input of a sensor has a series of its own. It goes by the name of its chip and its
feature. Where another input or another source goes by the same, it goes by the chip's
adapter or the input's key as well.

## Layout

`src/` is the library. Everything in it is verified, but for the calls into
`serde_json` and the standard library whose contracts are stated beside them.

| Module       | What it holds                                                       |
| ------------ | ------------------------------------------------------------------- |
| `text`       | lines, words, fields and numbers in text                            |
| `labels`     | maps keyed by label, listed in the order of the labels              |
| `unit`       | units, the order of their bands, and the palette                    |
| `json`       | JSON documents, read and written with `serde_json`                  |
| `config`     | where state is kept across runs, how it is written, what it says    |
| `sample`     | samples as their sources give them                                  |
| `names`      | the labels that each source may use                                 |
| `sensors`    | `lm-sensors` and the NVIDIA GPU                                     |
| `procfs`     | CPU and memory usage                                                |
| `throughput` | network and disk throughput                                         |
| `collect`    | one poll over all sources                                           |
| `state`      | the series: histories, colors, on/off states                        |
| `graph`      | the bands of the graph, and the text around them                    |

`app/` is the application: it runs programs, reads and writes files, does the
floating point arithmetic, and draws with GTK 4.

## Requirements

Linux with GTK 4 and Cairo; `lm-sensors` for temperatures and fans; `nvidia-smi`
for the GPU, if there is one.
