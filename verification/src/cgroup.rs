//! cgroup v2 subsystem of the StarryOS kernel: the controller framework,
//! the per-cgroup state of the `cpu` and `pids` controllers, the cgroup type
//! and event records, and the cgroup hierarchy.

use vstd::prelude::*;

pub mod cgroup_core;
pub mod controller;
pub mod cpu;
pub mod pids;
pub mod systree_node;

verus! {

/// Why a cgroup operation was refused; each variant stands for the kernel
/// error the operation reports.
#[derive(Debug, Clone, Copy, PartialEq, Eq, Structural)]
pub enum CgroupError {
    /// `ENOENT`: no such attribute, cgroup or process.
    NotFound,
    /// `EINVAL`: the written text does not parse or is out of range.
    InvalidInput,
    /// `EACCES`: the attribute is read-only.
    PermissionDenied,
    /// `EAGAIN`: a limit would be exceeded.
    WouldBlock,
    /// `EEXIST`: a cgroup of that name exists.
    AlreadyExists,
    /// `EBUSY`: the cgroup's state forbids the change.
    ResourceBusy,
    /// `EOPNOTSUPP`: the operation is not supported.
    Unsupported,
}

/// What a read of an attribute at `offset` leaves and returns: `NotFound`
/// with the buffer untouched when there is no such attribute, else the
/// bytes of the attribute's text from `offset` on, as many as fit.
pub open spec fn read_outcome(
    text: Option<Seq<char>>,
    offset: nat,
    before: Seq<u8>,
    after: Seq<u8>,
    r: Result<usize, CgroupError>,
) -> bool {
    match text {
        None => r == Err::<usize, CgroupError>(CgroupError::NotFound) && after == before,
        Some(t) => r matches Ok(n) && crate::text::window_read(
            vstd::utf8::encode_utf8(t),
            offset,
            before,
            after,
            n as nat,
        ),
    }
}

/// The text a write hands over: its bytes without surrounding whitespace,
/// or nothing when they are not UTF-8.
pub open spec fn written_text(data: Seq<u8>) -> Option<Seq<u8>> {
    if vstd::utf8::valid_utf8(data) {
        Some(crate::text::trim(data))
    } else {
        None
    }
}

} // verus!
