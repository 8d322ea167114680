[package]
name = "starry_cgroup"
version = "0.1.0"
edition = "2021"
publish = false

[dependencies]
thiserror = { version = "*", default-features = false }
spin = "*"
ax-errno = "*"
ax-kspin = "*"
ax-lazyinit = "*"
axfs-ng-vfs = "*"
starry-process = "*"
