use starry_cgroup::ax_cgroup::controller::{
    all_factory_names, get_factory, init_registry, parse_attr_name, register_factory, write_to_buf, AttrError,
};
use starry_cgroup::ax_cgroup::cpu::{BandwidthState, CpuControllerFactory, CpuState};
use starry_cgroup::ax_cgroup::io::{IoController, IoControllerFactory, IoState};
use starry_cgroup::ax_cgroup::memory::{MemoryController, MemoryControllerFactory, MemoryState};

fn read_mem(c: &MemoryController, name: &str) -> String {
    let mut buf = [0u8; 64];
    let n = c.read_attr(name, 0, &mut buf).unwrap();
    core::str::from_utf8(&buf[..n]).unwrap().to_string()
}

#[test]
fn attr_names_split_at_the_first_dot() {
    assert_eq!(parse_attr_name("pids.max"), Some(("pids", "max")));
    assert_eq!(parse_attr_name("cpu.stat.periods"), Some(("cpu", "stat.periods")));
    assert_eq!(parse_attr_name("nodot"), None);
    assert_eq!(parse_attr_name(".x"), Some(("", "x")));
}

#[test]
fn buffer_writes_honour_offset_and_capacity() {
    let mut buf = [0u8; 4];
    assert_eq!(write_to_buf("hello", 0, &mut buf), Ok(4));
    assert_eq!(&buf, b"hell");
    assert_eq!(write_to_buf("hello", 3, &mut buf), Ok(2));
    assert_eq!(&buf[..2], b"lo");
    assert_eq!(write_to_buf("hello", 9, &mut buf), Ok(0));
}

#[test]
fn registry_keeps_one_factory_per_name_in_order() {
    let mut reg = init_registry::<u32>();
    register_factory(&mut reg, "pids", 1);
    register_factory(&mut reg, "cpu", 2);
    register_factory(&mut reg, "io", 3);
    register_factory(&mut reg, "cpu", 4);
    assert_eq!(all_factory_names(&reg), vec!["cpu", "io", "pids"]);
    assert_eq!(get_factory(&reg, "cpu"), Some(&4));
    assert_eq!(get_factory(&reg, "memory"), None);
}

#[test]
fn cpu_controller_files() {
    let f = CpuControllerFactory;
    assert_eq!(f.name(), "cpu");
    assert!(f.is_domain());
    let mut c = f.new_instance();
    assert_eq!(c.attr_names().len(), 3);
    let mut buf = [0u8; 64];
    let n = c.read_attr("weight", 0, &mut buf).unwrap();
    assert_eq!(&buf[..n], b"100\n");
    assert_eq!(c.write_attr("weight", b"300"), Ok(3));
    assert_eq!(c.state().weight, 300);
    assert_eq!(c.write_attr("weight", b"0"), Err(AttrError::InvalidInput));
    assert_eq!(c.write_attr("max", b"max 50000"), Ok(9));
    let n = c.read_attr("max", 0, &mut buf).unwrap();
    assert_eq!(&buf[..n], b"max 50000\n");
    assert_eq!(c.write_attr("max", b"1000"), Err(AttrError::InvalidInput));
    assert_eq!(c.write_attr("stat", b"1"), Err(AttrError::OperationNotPermitted));
    assert_eq!(c.write_attr("bogus", b"1"), Err(AttrError::NotFound));
    let n = c.read_attr("stat", 0, &mut buf).unwrap();
    assert_eq!(&buf[..n], b"nr_periods 0\nnr_throttled 0\nthrottled_usec 0\n");
    assert_eq!(c.read_attr("nope", 0, &mut buf), Err(AttrError::NotFound));
    assert_eq!(CpuState::new().weight, 100);
}

#[test]
fn bandwidth_is_consumed_and_throttled() {
    let mut b = BandwidthState::new();
    assert!(!b.has_quota());
    assert!(!b.consume(5000));
    b.quota = 2000;
    assert!(!b.consume(1000));
    assert!(b.consume(1000));
    assert!(b.is_throttled());
    assert_eq!(b.nr_throttled, 1);
    b.reset_period();
    assert_eq!(b.consumed, 0);
    assert_eq!(b.nr_periods, 1);
    assert!(!b.is_throttled());
}

#[test]
fn memory_values_take_suffixes() {
    let f = MemoryControllerFactory;
    assert_eq!(f.name(), "memory");
    let mut c = f.new_instance();
    assert_eq!(read_mem(&c, "max"), "max\n");
    assert_eq!(c.write_attr("max", b"1G"), Ok(2));
    assert_eq!(read_mem(&c, "max"), "1073741824\n");
    assert_eq!(c.write_attr("high", b"512m\n"), Ok(5));
    assert_eq!(read_mem(&c, "high"), "536870912\n");
    assert_eq!(c.write_attr("max", b"max"), Ok(3));
    assert_eq!(read_mem(&c, "max"), "max\n");
    assert_eq!(c.write_attr("low", b"max"), Err(AttrError::InvalidInput));
    assert_eq!(c.write_attr("min", b"4K"), Ok(2));
    assert_eq!(read_mem(&c, "min"), "4096\n");
    assert_eq!(c.write_attr("max", b"-5"), Err(AttrError::InvalidInput));
    assert_eq!(c.write_attr("max", b"9999999999T"), Err(AttrError::InvalidInput));
    assert_eq!(c.write_attr("current", b"1"), Err(AttrError::OperationNotPermitted));
    assert_eq!(read_mem(&c, "events"), "max 0\nhigh 0\noom 0\n");
    assert_eq!(read_mem(&c, "current"), "0\n");
}

#[test]
fn memory_charging() {
    let mut m = MemoryState::new();
    m.max = 100;
    assert!(m.can_charge(100));
    assert!(!m.can_charge(101));
    m.charge(60);
    assert!(!m.can_charge(41));
    m.uncharge(80);
    assert_eq!(m.current, 0);
}

#[test]
fn io_controller_files() {
    let f = IoControllerFactory;
    assert_eq!(f.name(), "io");
    let mut c = f.new_instance();
    let mut buf = [0u8; 64];
    let n = c.read_attr("weight", 0, &mut buf).unwrap();
    assert_eq!(&buf[..n], b"100\n");
    assert_eq!(c.write_attr("weight", b"500"), Ok(3));
    assert_eq!(c.state().weight, 500);
    assert_eq!(c.write_attr("weight", b"10001"), Err(AttrError::InvalidInput));
    let n = c.read_attr("max", 0, &mut buf).unwrap();
    assert_eq!(&buf[..n], b"default\n");
    assert_eq!(c.write_attr("max", b"8:0 rbps=1048576 wbps=max\ndefault\n"), Ok(34));
    assert_eq!(c.write_attr("max", b"8:0 rbps=fast"), Err(AttrError::InvalidInput));
    assert_eq!(c.write_attr("max", b"80 rbps=1"), Err(AttrError::InvalidInput));
    assert_eq!(c.write_attr("max", b"8:0:1 rbps=1"), Err(AttrError::InvalidInput));
    assert_eq!(c.write_attr("stat", b""), Err(AttrError::OperationNotPermitted));
    let n = c.read_attr("stat", 0, &mut buf).unwrap();
    assert_eq!(&buf[..n], b"\n");
    assert_eq!(IoState::new().weight, 100);
}

#[test]
fn io_max_writes_read_back() {
    let mut c = IoController::new(IoState::new());
    let mut buf = [0u8; 128];
    assert_eq!(c.write_attr("max", b"8:0 rbps=1048576"), Ok(16));
    let n = c.read_attr("max", 0, &mut buf).unwrap();
    assert_eq!(n, 17);
    assert_eq!(&buf[..n], b"8:0 rbps=1048576\n");
    assert_eq!(c.write_attr("max", b"8:16 wiops=10\n8:0 wbps=5 riops=max\n"), Ok(35));
    let n = c.read_attr("max", 0, &mut buf).unwrap();
    assert_eq!(&buf[..n], b"8:0 wbps=5\n8:16 wiops=10\n");
    assert_eq!(c.write_attr("max", b"9:0 rbps=1\n8:0 rbps=bad"), Err(AttrError::InvalidInput));
    let n = c.read_attr("max", 0, &mut buf).unwrap();
    assert_eq!(&buf[..n], b"8:0 wbps=5\n8:16 wiops=10\n");
    assert_eq!(c.write_attr("max", b"8:0 rbps=max\ndefault"), Ok(20));
    let n = c.read_attr("max", 0, &mut buf).unwrap();
    assert_eq!(&buf[..n], b"8:0 max\n8:16 wiops=10\n");
}

#[test]
fn controller_state_can_be_charged() {
    let mut m = MemoryController::new(MemoryState::new());
    m.state_mut().charge(4096);
    assert_eq!(m.state().current, 4096);
    m.state_mut().uncharge(10_000);
    assert_eq!(m.state().current, 0);
    let mut c = CpuControllerFactory.new_instance();
    c.state_mut().weight = 300;
    assert_eq!(c.state().weight, 300);
    let mut io = IoController::new(IoState::new());
    io.state_mut().weight = 7;
    let mut buf = [0u8; 16];
    let n = io.read_attr("weight", 0, &mut buf).unwrap();
    assert_eq!(&buf[..n], b"7\n");
}
