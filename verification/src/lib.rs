//! Verified core of the StarryOS cgroup v2 controllers and of the RK3588
//! I2S/TDM capture driver.

use vstd::prelude::*;

pub mod text;
pub mod i2s_tdm;
pub mod cgroup;
pub mod ax_cgroup;
pub mod cgroupfs;
