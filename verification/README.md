# starry_cgroup

The cgroup v2 logic of a small kernel, and the register-level core of an
RK3588 I2S/TDM capture driver, written in Verus with their behaviour stated
as contracts and proved.

- `src/text.rs` — byte and character helpers: trimming, words, decimal
  parsing and rendering, string order.
- `src/i2s_tdm.rs` — capture formats, the register programme for a capture,
  interrupt decoding and the PCM sample ring.
- `src/cgroup/` — the kernel's cgroup hierarchy (`cgroup_core`,
  `systree_node`), the per-cgroup controllers (`controller/`: `pids`, `cpu`,
  `cpuset`) and the bandwidth and fork accounting (`cpu`, `pids`).
- `src/ax_cgroup/` — the controller registry and the `cpu`, `memory` and
  `io` controllers of the stand-alone cgroup component.
- `src/cgroupfs.rs` — the files of a cgroup2 directory and what reading and
  writing them does.
- `app/` — the kernel glue: global state and locks, MMIO access, the
  scheduler tick hook and the VFS adapter.
- `tests/` — the test suite.
