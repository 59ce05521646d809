# sensor_pipeline

A pipeline for simulated sensors: readings are queued per sensor, moved into a bounded shared
buffer, aggregated over fixed time windows, written to disk as JSON frames and shown on an HTTP
dashboard. A benchmark runner measures the whole.

`src/` is the library. It is written in Verus: every function states what it does and is proved
to do it. One thing is taken on trust: what the standard library's `rotate_left` does to the slots
of a queue that is dropped. `tests/` runs the library on concrete values. `app/` is the program
around it: threads, files, HTTP, the clock, random numbers, and all floating-point arithmetic.

| Module | Holds |
|--------|-------|
| `text`, `lex`, `order`, `id_map` | numbers and tokens in texts, lexicographic order, sorting by position, ordered maps |
| `models` | readings, frames, telemetry |
| `ring`, `sensor` | the ring queue of a sensor, and the sensor itself |
| `sensor_buffer` | the shared buffer and its bookkeeping |
| `aggregation`, `rounds` | windows of readings and the frames they become, and what holds of them over a whole run |
| `storage` | the names of frame files, and the order in which they are read |
| `frames`, `cache` | selecting, merging and caching frames |
| `telemetry`, `dashboard`, `pages` | what the dashboard answers and shows, and its shutdown |
| `rates`, `gateway` | configuration and console output of the gateway |
| `benchmark` | scenarios, sampling and reports |

Measured values are single-precision numbers and ratios are double-precision numbers. The library
carries them as bit patterns and never computes with them: a function whose outcome depends on
such arithmetic takes its result as an argument. The length from which a queue counts as near
full, for example, is found by a search in `telemetry` that asks the caller to compare ratios.

The program runs the gateway; with the argument `bench`, and optionally the path of a scenario
file, it runs the benchmark.
