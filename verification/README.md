# anomaly_detector

A streaming anomaly detector for twenty sensor channels. It reads a
semicolon-separated file (a header line with twenty column names, then one
line per time step), scores every sample with per-channel experts built on
random cut trees and adaptive thresholds, and writes one result file per
channel into `output/`, flagging every sample as good (`1`) or anomalous (`0`).

Layout:

- `src/` is the verified library (Verus): reading the input format
  (`parse`, `cp1251`), the text of the result files (`output`), the random
  generators (`rng`), the node pool of the trees (`rcf`), and the sliding
  windows and anomaly histories behind the thresholds (`window`, `learning`).
  Contracts and laws are stated over `Seq`, `nat` and spec functions.
- `app/` is the program around it: file and console I/O through `libc`, and
  every part that computes in floating point (tree statistics and splits,
  expert scores, thresholds, ensembles, demonstrations and the self-test).
- `tests/` exercises the library on concrete inputs.
