//! The kernel-independent cgroup v2 controllers of `ax-cgroup`: the
//! attribute conventions shared by all controllers, and the `cpu`, `io` and
//! `memory` controllers with their per-cgroup state.

use vstd::prelude::*;

pub mod controller;
pub mod cpu;
pub mod io;
pub mod memory;
