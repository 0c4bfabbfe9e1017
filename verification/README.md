# raytop

An htop-like terminal monitor for Ray clusters: it polls a Ray dashboard
(`--master http://127.0.0.1:8265` by default) and shows the cluster's nodes,
running jobs, per-node CPU/GPU/memory figures and actors.

## Layout

- `src/` — the verified library (Verus). It holds the monitor's logic with
  contracts: the screen state and its key handling (`app`), the job and node
  records and their formatting (`ray`), session-name parsing and uptimes
  (`session`), the Prometheus text reader (`metrics`), the dashboard routes and
  service-discovery reading (`dashboard`), themes (`theme`), screen text and
  geometry (`ui`), and character-level text helpers (`text`).
- `app/` — the program around it: command line, HTTP requests, the fetch loop,
  floating-point gauges, terminal drawing with ratatui and key input with
  crossterm.
- `tests/` — tests of the library on concrete values.
