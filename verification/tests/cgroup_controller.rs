use starry_cgroup::cgroup::controller::cpu::CpuController;
use starry_cgroup::cgroup::controller::cpuset::{mask_to_range_str, CpuSetController};
use starry_cgroup::cgroup::controller::pids::PidsController;
use starry_cgroup::cgroup::controller::{
    attr_descriptor, controller_by_name, AtomicSubCtrlSet, Controller, SubController, SubCtrlSet, SubCtrlType,
};
use starry_cgroup::cgroup::CgroupError;

fn read(ctrl: &Controller, name: &str) -> String {
    let mut buf = [0u8; 32];
    let n = ctrl.read_attr_at(name, 0, &mut buf).unwrap();
    core::str::from_utf8(&buf[..n]).unwrap().to_string()
}

#[test]
fn test_sub_ctrl_type_values() {
    assert_eq!(SubCtrlType::CpuSet.as_u8(), 1);
    assert_eq!(SubCtrlType::Cpu.as_u8(), 2);
    assert_eq!(SubCtrlType::Pids.as_u8(), 8);
}

#[test]
fn test_sub_ctrl_type_to_set() {
    assert_eq!(SubCtrlType::CpuSet.to_set(), SubCtrlSet::cpuset());
    assert_eq!(SubCtrlType::Cpu.to_set(), SubCtrlSet::cpu());
    assert_eq!(SubCtrlType::Pids.to_set(), SubCtrlSet::pids());
}

#[test]
fn test_sub_ctrl_set_bits() {
    assert_eq!(SubCtrlSet::cpuset().bits(), 1);
    assert_eq!(SubCtrlSet::cpu().bits(), 2);
    assert_eq!(SubCtrlSet::pids().bits(), 8);
}

#[test]
fn test_sub_ctrl_set_contains() {
    let set = SubCtrlSet::cpuset() | SubCtrlSet::pids();
    assert!(set.contains(SubCtrlSet::cpuset()));
    assert!(!set.contains(SubCtrlSet::cpu()));
    assert!(set.contains(SubCtrlSet::pids()));
}

#[test]
fn test_sub_ctrl_set_all() {
    let all = SubCtrlSet::all_controllers();
    assert_eq!(all, SubCtrlSet::cpuset() | SubCtrlSet::cpu() | SubCtrlSet::pids());
    assert_eq!(all.names_text(), "cpuset cpu pids");
    assert!(controller_by_name("memory").is_none());
}

#[test]
fn test_atomic_sub_ctrl_set_empty() {
    let set = AtomicSubCtrlSet::empty();
    assert_eq!(set.load(), SubCtrlSet::empty());
}

#[test]
fn test_atomic_sub_ctrl_set_store_load() {
    let mut set = AtomicSubCtrlSet::empty();
    let val = SubCtrlSet::cpuset() | SubCtrlSet::pids();
    set.store(val);
    assert_eq!(set.load(), val);
}

#[test]
fn test_atomic_sub_ctrl_set_fetch_or() {
    let mut set = AtomicSubCtrlSet::empty();
    set.fetch_or(SubCtrlSet::cpuset());
    assert!(set.load().contains(SubCtrlSet::cpuset()));

    set.fetch_or(SubCtrlSet::pids());
    assert!(set.load().contains(SubCtrlSet::cpuset()));
    assert!(set.load().contains(SubCtrlSet::pids()));
}

#[test]
fn test_atomic_sub_ctrl_set_fetch_and() {
    let mut set = AtomicSubCtrlSet::empty();
    let val = SubCtrlSet::cpuset() | SubCtrlSet::pids();
    set.store(val);

    set.fetch_and(SubCtrlSet::cpuset());
    assert!(set.load().contains(SubCtrlSet::cpuset()));
    assert!(!set.load().contains(SubCtrlSet::pids()));
}

#[test]
fn test_pids_controller_new_root() {
    let ctrl = PidsController::new(true, true);
    assert_eq!(ctrl.current(), 0);
    assert_eq!(ctrl.peak(), 0);
    assert_eq!(ctrl.max(), None);
}

#[test]
fn test_pids_controller_new_child() {
    let ctrl = PidsController::new(false, true);
    assert_eq!(ctrl.current(), 0);
    assert_eq!(ctrl.max(), None);
}

#[test]
fn test_pids_controller_set_max() {
    let mut ctrl = PidsController::new(true, true);
    ctrl.set_max(Some(100));
    assert_eq!(ctrl.max(), Some(100));

    ctrl.set_max(None);
    assert_eq!(ctrl.max(), None);
}

#[test]
fn test_pids_controller_charge_uncharge() {
    let mut ctrl = PidsController::new(true, true);
    ctrl.charge_local();
    assert_eq!(ctrl.current(), 1);
    assert_eq!(ctrl.peak(), 1);

    ctrl.charge_local();
    assert_eq!(ctrl.current(), 2);
    assert_eq!(ctrl.peak(), 2);

    ctrl.uncharge_local();
    assert_eq!(ctrl.current(), 1);
    assert_eq!(ctrl.peak(), 2);
}

#[test]
fn test_pids_controller_try_charge_at_limit() {
    let mut ctrl = PidsController::new(false, true);
    ctrl.set_max(Some(1));

    assert!(ctrl.try_charge_local().is_ok());
    assert_eq!(ctrl.current(), 1);

    assert!(ctrl.try_charge_local().is_err());
    assert_eq!(ctrl.current(), 1);
}

#[test]
fn test_pids_controller_uncharge_underflow() {
    let ctrl = PidsController::new(true, true);
    let mut sub = SubController::new(Some(ctrl), None);
    PidsController::uncharge(&mut sub);
    assert_eq!(sub.inner().unwrap().current(), 0);
}

#[test]
fn test_pids_controller_subcontrol_absent() {
    assert_eq!(Controller::attr_owner("pids.max"), Some(SubCtrlType::Pids));
    assert_eq!(Controller::attr_owner("pids.current"), Some(SubCtrlType::Pids));
    assert_eq!(Controller::attr_owner("pids.peak"), Some(SubCtrlType::Pids));
    assert_ne!(Controller::attr_owner("cpu.weight"), Some(SubCtrlType::Pids));
}

#[test]
fn test_pids_controller_read_attr() {
    let mut ctrl = PidsController::new(true, true);
    let mut buf = [0u8; 32];

    let n = ctrl.read_attr_at("pids.max", 0, &mut buf).unwrap();
    let s = core::str::from_utf8(&buf[..n]).unwrap();
    assert_eq!(s, "max\n");

    ctrl.set_max(Some(100));
    let n = ctrl.read_attr_at("pids.max", 0, &mut buf).unwrap();
    let s = core::str::from_utf8(&buf[..n]).unwrap();
    assert_eq!(s, "100\n");
}

#[test]
fn test_pids_controller_write_attr() {
    let mut ctrl = PidsController::new(true, true);

    ctrl.write_attr("pids.max", b"100").unwrap();
    assert_eq!(ctrl.max(), Some(100));

    ctrl.write_attr("pids.max", b"max").unwrap();
    assert_eq!(ctrl.max(), None);
}

#[test]
fn test_cpuset_controller_new() {
    let _ctrl = CpuSetController::new(true, true);
    assert_eq!(Controller::attr_owner("cpuset.cpus"), Some(SubCtrlType::CpuSet));
    assert_eq!(Controller::attr_owner("cpuset.cpus.effective"), Some(SubCtrlType::CpuSet));
    assert_eq!(Controller::attr_owner("cpuset.mems"), Some(SubCtrlType::CpuSet));
    assert_eq!(Controller::attr_owner("cpuset.mems.effective"), Some(SubCtrlType::CpuSet));
    assert_ne!(Controller::attr_owner("pids.max"), Some(SubCtrlType::CpuSet));
}

#[test]
fn test_cpuset_controller_read_attr() {
    let ctrl = CpuSetController::new(true, true);
    let mut buf = [0u8; 32];

    let n = ctrl.read_attr_at("cpuset.cpus.effective", 0, &mut buf).unwrap();
    let s = core::str::from_utf8(&buf[..n]).unwrap();
    assert_eq!(s, "0\n");

    let n = ctrl.read_attr_at("cpuset.mems.effective", 0, &mut buf).unwrap();
    let s = core::str::from_utf8(&buf[..n]).unwrap();
    assert_eq!(s, "0\n");
}

#[test]
fn test_cpu_controller_new() {
    let _ctrl = CpuController::new(true, true);
    assert_eq!(Controller::attr_owner("cpu.stat"), Some(SubCtrlType::Cpu));
    assert_eq!(Controller::attr_owner("cpu.weight"), Some(SubCtrlType::Cpu));
    assert_eq!(Controller::attr_owner("cpu.max"), Some(SubCtrlType::Cpu));
    assert_ne!(Controller::attr_owner("pids.max"), Some(SubCtrlType::Cpu));
}

#[test]
fn test_cpu_controller_weight() {
    let mut ctrl = CpuController::new(true, true);
    let mut buf = [0u8; 32];

    let n = ctrl.read_attr_at("cpu.weight", 0, &mut buf).unwrap();
    let s = core::str::from_utf8(&buf[..n]).unwrap();
    assert_eq!(s, "100\n");

    ctrl.write_attr("cpu.weight", b"200").unwrap();
    let n = ctrl.read_attr_at("cpu.weight", 0, &mut buf).unwrap();
    let s = core::str::from_utf8(&buf[..n]).unwrap();
    assert_eq!(s, "200\n");
}

#[test]
fn test_cpu_controller_max() {
    let mut ctrl = CpuController::new(true, true);
    let mut buf = [0u8; 32];

    let n = ctrl.read_attr_at("cpu.max", 0, &mut buf).unwrap();
    let s = core::str::from_utf8(&buf[..n]).unwrap();
    assert_eq!(s, "max 100000\n");

    ctrl.write_attr("cpu.max", b"50000 100000").unwrap();
    let n = ctrl.read_attr_at("cpu.max", 0, &mut buf).unwrap();
    let s = core::str::from_utf8(&buf[..n]).unwrap();
    assert_eq!(s, "50000 100000\n");

    assert!(ctrl.write_attr("cpu.max", b"-5 100000").is_err());
    assert!(ctrl.write_attr("cpu.max", b"0 100000").is_err());
    assert!(ctrl.write_attr("cpu.max", b"100 1").is_err());
    assert!(ctrl.write_attr("cpu.max", b"100 1000001").is_err());
}

#[test]
fn test_controller_new() {
    let ctrl = Controller::new(None);
    let active = ctrl.active_set();
    assert_eq!(active, SubCtrlSet::empty());
}

#[test]
fn test_controller_activate_deactivate() {
    let mut ctrl = Controller::new(None);

    ctrl.activate(SubCtrlType::Pids);
    assert!(ctrl.active_set().contains(SubCtrlSet::pids()));

    ctrl.activate(SubCtrlType::Cpu);
    assert!(ctrl.active_set().contains(SubCtrlSet::cpu()));

    ctrl.deactivate(SubCtrlType::Pids);
    assert!(!ctrl.active_set().contains(SubCtrlSet::pids()));
    assert!(ctrl.active_set().contains(SubCtrlSet::cpu()));
}

#[test]
fn test_controller_read_attr() {
    let ctrl = Controller::new(None);
    let mut buf = [0u8; 32];

    let n = ctrl.read_attr_at("pids.max", 0, &mut buf).unwrap();
    let s = core::str::from_utf8(&buf[..n]).unwrap();
    assert_eq!(s, "max\n");

    let n = ctrl.read_attr_at("cpu.weight", 0, &mut buf).unwrap();
    let s = core::str::from_utf8(&buf[..n]).unwrap();
    assert_eq!(s, "100\n");
}

#[test]
fn test_controller_write_attr() {
    let mut ctrl = Controller::new(None);

    ctrl.write_attr("pids.max", b"100").unwrap();
    let pids = ctrl.pids();
    assert_eq!(pids.inner().unwrap().max(), Some(100));

    ctrl.write_attr("cpu.weight", b"200").unwrap();
    let cpu = ctrl.cpu();
    assert_eq!(cpu.inner().unwrap().weight, 200);
}

#[test]
fn test_controller_is_attr_absent() {
    let ctrl = Controller::new(None);
    assert!(!ctrl.is_attr_absent("pids.max"));
    assert!(!ctrl.is_attr_absent("cpu.weight"));
    assert!(ctrl.is_attr_absent("memory.max"));
    assert!(ctrl.is_attr_absent("nonexistent.attr"));
}

// Further cases.

#[test]
fn pids_max_reads_back_what_was_written() {
    let mut ctrl = PidsController::new(false, true);
    ctrl.write_attr("pids.max", b" 42\n").unwrap();
    let mut buf = [0u8; 8];
    let n = ctrl.read_attr_at("pids.max", 0, &mut buf).unwrap();
    assert_eq!(&buf[..n], b"42\n");
    assert_eq!(ctrl.write_attr("pids.max", b"-1"), Err(CgroupError::InvalidInput));
    assert_eq!(ctrl.write_attr("pids.current", b"1"), Err(CgroupError::PermissionDenied));
    assert_eq!(ctrl.write_attr("pids.bogus", b"1"), Err(CgroupError::NotFound));
    assert_eq!(ctrl.write_attr("pids.max", &[0xff, 0x31]), Err(CgroupError::InvalidInput));
    assert_eq!(ctrl.max(), Some(42));
}

#[test]
fn hierarchical_charge_rolls_back_when_an_ancestor_is_full() {
    let mut parent = PidsController::new(true, true);
    parent.set_max(Some(1));
    let parent_sub = SubController::new(Some(parent), None);
    let mut child = SubController::new(Some(PidsController::new(false, true)), Some(Box::new(parent_sub)));
    assert!(PidsController::try_charge(&mut child).is_ok());
    assert_eq!(child.inner().unwrap().current(), 1);
    assert_eq!(child.parent().unwrap().inner().unwrap().current(), 1);
    assert_eq!(PidsController::try_charge(&mut child), Err(CgroupError::WouldBlock));
    assert_eq!(child.inner().unwrap().current(), 1);
    assert_eq!(child.parent().unwrap().inner().unwrap().current(), 1);
    PidsController::uncharge(&mut child);
    assert_eq!(child.inner().unwrap().current(), 0);
    assert_eq!(child.parent().unwrap().inner().unwrap().current(), 0);
    PidsController::charge(&mut child);
    assert_eq!(child.parent().unwrap().inner().unwrap().current(), 1);
}

#[test]
fn read_at_offset_returns_the_tail() {
    let ctrl = Controller::new(None);
    let mut buf = [0u8; 32];
    let n = ctrl.read_attr_at("cpu.max", 4, &mut buf).unwrap();
    assert_eq!(&buf[..n], b"100000\n");
    let n = ctrl.read_attr_at("cpu.max", 100, &mut buf).unwrap();
    assert_eq!(n, 0);
    let mut small = [0u8; 3];
    let n = ctrl.read_attr_at("cpu.max", 0, &mut small).unwrap();
    assert_eq!(&small[..n], b"max");
    assert_eq!(ctrl.read_attr_at("memory.max", 0, &mut buf), Err(CgroupError::NotFound));
}

#[test]
fn cpuset_files_are_read_only() {
    let mut ctrl = Controller::new(None);
    assert_eq!(ctrl.write_attr("cpuset.cpus", b"0-1"), Err(CgroupError::PermissionDenied));
    assert_eq!(read(&ctrl, "cpuset.cpus"), "0\n");
    assert_eq!(Controller::attr_is_read_only("cpu.stat"), Some(true));
    assert_eq!(Controller::attr_is_read_only("pids.max"), Some(false));
    assert_eq!(Controller::attr_is_read_only("x"), None);
}

#[test]
fn cpu_stat_starts_at_zero() {
    let ctrl = Controller::new(None);
    let mut buf = [0u8; 128];
    let n = ctrl.read_attr_at("cpu.stat", 0, &mut buf).unwrap();
    assert_eq!(
        &buf[..n],
        b"usage_usec 0\nuser_usec 0\nsystem_usec 0\nnr_periods 0\nnr_throttled 0\nthrottled_usec 0\n"
    );
}

#[test]
fn cpu_max_accepts_max_and_keeps_period() {
    let mut ctrl = CpuController::new(true, true);
    ctrl.write_attr("cpu.max", b"20000 50000").unwrap();
    ctrl.write_attr("cpu.max", b"max").unwrap();
    let mut buf = [0u8; 32];
    let n = ctrl.read_attr_at("cpu.max", 0, &mut buf).unwrap();
    assert_eq!(&buf[..n], b"max 50000\n");
    assert_eq!(ctrl.write_attr("cpu.weight", b"0"), Err(CgroupError::InvalidInput));
    assert_eq!(ctrl.write_attr("cpu.weight", b"10001"), Err(CgroupError::InvalidInput));
    assert_eq!(ctrl.write_attr("cpu.stat", b"1"), Err(CgroupError::PermissionDenied));
}

#[test]
fn ranges_are_compacted() {
    assert_eq!(mask_to_range_str(0b1), "0");
    assert_eq!(mask_to_range_str(0b1111), "0-3");
    assert_eq!(mask_to_range_str(0b1010_0111), "0-2,5,7");
    assert_eq!(mask_to_range_str(0), "");
}

#[test]
fn attribute_registry_lookups() {
    let (c, a) = attr_descriptor("pids.peak").unwrap();
    assert_eq!(c.ty, SubCtrlType::Pids);
    assert_eq!(c.name, "pids");
    assert!(a.read_only);
    assert!(attr_descriptor("pids").is_none());
    assert_eq!(controller_by_name("cpuset").unwrap().ty, SubCtrlType::CpuSet);
    assert_eq!(SubCtrlSet::domain_controllers(), SubCtrlSet::cpuset() | SubCtrlSet::cpu());
    assert!(SubCtrlType::Cpu.is_domain());
    assert!(!SubCtrlType::Pids.is_domain());
}

#[test]
fn child_controller_inherits_active_set() {
    let mut root = Controller::new(None);
    root.activate(SubCtrlType::Cpu);
    let child = Controller::new(Some(&root));
    assert_eq!(child.active_set(), SubCtrlSet::cpu());
    assert!(child.pids().parent().is_some());
    let names = root.attr_names();
    assert_eq!(names.len(), 10);
    assert_eq!(names[0], "cpuset.cpus");
    assert_eq!(names[9], "pids.peak");
}
