use starry_cgroup::cgroup::cpu::{BandwidthState, CpuState, TickActions};
use starry_cgroup::cgroup::pids::PidsState;
use starry_cgroup::cgroup::cgroup_core::CgroupTree;
use starry_cgroup::cgroupfs::{
    cgroup_type_text, cpu_max_text, cpu_stat_text, cpu_weight_text, dir_entry_names, pids_current_text,
    pids_max_text, list_entries, lookup_entry, read_core_file, space_joined, write_cpu_max, write_pids_max, CgroupEntry,
    CgroupFile,
};

#[test]
fn directory_lists_files_then_children() {
    let names = dir_entry_names(&vec!["a".to_string(), "b".to_string()]);
    assert_eq!(names.len(), 11);
    assert_eq!(names[0], "cgroup.controllers");
    assert_eq!(names[8], "cpu.stat");
    assert_eq!(names[9], "a");
    assert_eq!(CgroupFile::from_name("pids.max"), Some(CgroupFile::PidsMax));
    assert_eq!(CgroupFile::from_name("child"), None);
    assert_eq!(CgroupFile::CpuStat.name(), "cpu.stat");
    assert!(CgroupFile::CpuMax.is_writable());
    assert!(!CgroupFile::Type.is_writable());
    assert_eq!(cgroup_type_text(), "domain\n");
    assert_eq!(cpu_weight_text(), "100\n");
}

#[test]
fn pids_files() {
    let mut p = PidsState::new();
    assert_eq!(pids_max_text(Some(&p)), "max\n");
    assert_eq!(pids_max_text(None), "max\n");
    write_pids_max(&mut p, b" 12 ");
    assert_eq!(p.max, 12);
    assert_eq!(pids_max_text(Some(&p)), "12\n");
    write_pids_max(&mut p, b"bogus");
    assert_eq!(p.max, 12);
    write_pids_max(&mut p, &[0xff]);
    assert_eq!(p.max, 12);
    write_pids_max(&mut p, b"max");
    assert_eq!(p.max, -1);
    assert!(p.try_fork());
    assert_eq!(pids_current_text(Some(&p)), "1\n");
    assert_eq!(pids_current_text(None), "0\n");
}

#[test]
fn cpu_files() {
    let mut b = BandwidthState::new();
    assert_eq!(cpu_max_text(Some(&b)), "max 100000\n");
    assert_eq!(cpu_max_text(None), "max 100000\n");
    b.consumed = 77;
    b.period_start = 5;
    write_cpu_max(&mut b, b"5000 20000");
    assert_eq!((b.quota, b.period, b.consumed, b.period_start), (5000, 20000, 0, 0));
    assert_eq!(cpu_max_text(Some(&b)), "5000 20000\n");
    write_cpu_max(&mut b, b"max");
    assert_eq!((b.quota, b.period), (-1, 20000));
    write_cpu_max(&mut b, b"x 30000");
    assert_eq!((b.quota, b.period), (-1, 30000));
    assert_eq!(cpu_stat_text(None), "nr_periods 0\nnr_throttled 0\nthrottled_usec 0\n");
    b.nr_periods = 3;
    assert_eq!(cpu_stat_text(Some(&b)), "nr_periods 3\nnr_throttled 0\nthrottled_usec 0\n");
}

#[test]
fn pids_fork_limit() {
    let mut p = PidsState::new();
    p.max = 1;
    assert!(p.try_fork());
    assert!(!p.try_fork());
    assert_eq!(p.current, 1);
    p.exit();
    assert_eq!(p.current, 0);
}

#[test]
fn bandwidth_tick_throttles_and_unthrottles() {
    let mut b = BandwidthState::new();
    assert_eq!(b.tick(10), TickActions { unthrottle: false, throttle: false });
    b.quota = 1500;
    b.period = 10_000;
    assert_eq!(b.tick(1000), TickActions { unthrottle: false, throttle: false });
    assert_eq!(b.consumed, 1000);
    assert_eq!(b.tick(2000), TickActions { unthrottle: false, throttle: true });
    assert_eq!(b.nr_throttled, 1);
    assert_eq!(b.tick(10_000), TickActions { unthrottle: true, throttle: false });
    assert_eq!(b.period_start, 10_000);
    assert_eq!(b.nr_periods, 1);
    assert_eq!(b.consumed, 1000);
    let c = CpuState::new();
    assert_eq!((c.cfs_quota, c.cfs_period, c.weight), (-1, 100_000, 100));
}

#[test]
fn core_files_read_the_cgroup_state() {
    let mut tree = CgroupTree::new();
    let root = tree.root();
    assert_eq!(tree.set_subtree_control(root, &["pids", "cpu"], &[]), Ok(()));
    let c = tree.create_child(root, "web").unwrap();
    tree.replace_procs(c, vec![7, 8, 9]);
    tree.write_pids_max(c, b"12");
    tree.write_cpu_max(c, b"5000 20000");
    let n = tree.node(c);
    let shown = [true, false, true];
    let text = |f: CgroupFile| read_core_file(n, f, &shown);
    assert_eq!(text(CgroupFile::Controllers), "pids cpu pids cpu\n");
    assert_eq!(text(CgroupFile::SubtreeControl), "\n");
    assert_eq!(text(CgroupFile::Type), "domain\n");
    assert_eq!(text(CgroupFile::Procs), "7\n9\n");
    assert_eq!(text(CgroupFile::PidsMax), "12\n");
    assert_eq!(text(CgroupFile::PidsCurrent), "0\n");
    assert_eq!(text(CgroupFile::CpuWeight), "100\n");
    assert_eq!(text(CgroupFile::CpuMax), "5000 20000\n");
    assert_eq!(text(CgroupFile::CpuStat), "nr_periods 0\nnr_throttled 0\nthrottled_usec 0\n");
    let r = tree.node(root);
    assert_eq!(read_core_file(r, CgroupFile::SubtreeControl, &[]), "pids cpu\n");
    assert_eq!(read_core_file(r, CgroupFile::PidsMax, &[]), "max\n");
}

#[test]
fn names_are_joined_by_spaces() {
    assert_eq!(space_joined(&vec![]), "");
    assert_eq!(space_joined(&vec!["pids".to_string()]), "pids");
    assert_eq!(space_joined(&vec!["pids".to_string(), "cpu".to_string()]), "pids cpu");
}

#[test]
fn zero_quota_throttles_every_tick() {
    let mut b = BandwidthState::new();
    b.quota = 0;
    b.period = 100_000;
    assert_eq!(b.tick(5), TickActions { unthrottle: false, throttle: true });
    assert_eq!(b.nr_throttled, 1);
    assert_eq!(b.tick(200_000), TickActions { unthrottle: true, throttle: true });
    assert_eq!(b.period_start, 200_000);
    assert_eq!(b.consumed, 1000);
    assert_eq!(b.nr_periods, 1);
}

#[test]
fn unlimited_quota_leaves_state_alone() {
    let mut b = BandwidthState::new();
    b.consumed = 7;
    assert_eq!(b.tick(500_000), TickActions { unthrottle: false, throttle: false });
    assert_eq!(b.consumed, 7);
    assert_eq!(b.period_start, 0);
}

#[test]
fn every_listed_name_resolves() {
    let mut tree = CgroupTree::new();
    let root = tree.root();
    let web = tree.create_child(root, "web").unwrap();
    let db = tree.create_child(root, "db").unwrap();
    let names = list_entries(&tree, root);
    assert_eq!(names.len(), 11);
    assert_eq!(names[9], "db");
    assert_eq!(names[10], "web");
    for n in &names {
        assert!(lookup_entry(&tree, root, n).is_some());
    }
    assert_eq!(lookup_entry(&tree, root, "cpu.max"), Some(CgroupEntry::File(CgroupFile::CpuMax)));
    assert_eq!(lookup_entry(&tree, root, "web"), Some(CgroupEntry::Dir(web)));
    assert_eq!(lookup_entry(&tree, root, "db"), Some(CgroupEntry::Dir(db)));
    assert_eq!(lookup_entry(&tree, root, "nope"), None);
    assert_eq!(lookup_entry(&tree, web, "db"), None);
}
