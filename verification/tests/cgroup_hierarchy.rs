use starry_cgroup::cgroup::cgroup_core::{init, CgroupEvents, CgroupTree, CgroupType, FreezerState};
use starry_cgroup::cgroup::controller::SubCtrlSet;
use starry_cgroup::cgroup::systree_node::{AttrWrite, CgroupMembership, CgroupNode, CgroupSystem, ROOT_ID};
use starry_cgroup::cgroup::CgroupError;

fn read(sys: &mut CgroupSystem, id: usize, name: &str) -> String {
    let n = sys.node(id).process_count();
    let shown = vec![true; n];
    let mut buf = [0u8; 128];
    let len = sys.read_attr_at(id, name, 0, &mut buf, &shown).unwrap();
    core::str::from_utf8(&buf[..len]).unwrap().to_string()
}

#[test]
fn test_cgroup_create_child() {
    let mut sys = CgroupSystem::new();
    let root = sys.root();
    let child = sys.add_child(root, "test-cgroup").unwrap();

    assert_eq!(sys.node(child).name(), "test-cgroup");
    assert_eq!(sys.node(child).depth(), 1);
    assert_eq!(sys.node(child).path(), "/test-cgroup");
}

#[test]
fn test_cgroup_create_duplicate() {
    let mut sys = CgroupSystem::new();
    let root = sys.root();
    let _child = sys.add_child(root, "test-cgroup").unwrap();
    let result = sys.add_child(root, "test-cgroup");

    assert!(result.is_err());
}

#[test]
fn test_cgroup_remove_child() {
    let mut sys = CgroupSystem::new();
    let root = sys.root();
    let _child = sys.add_child(root, "test-cgroup").unwrap();

    assert!(sys.remove_child(root, "test-cgroup"));
    assert!(sys.get_child(root, "test-cgroup").is_none());
}

#[test]
fn test_cgroup_remove_nonexistent() {
    let mut sys = CgroupSystem::new();
    let root = sys.root();
    assert!(!sys.remove_child(root, "nonexistent"));
}

#[test]
fn test_cgroup_nested_creation() {
    let mut sys = CgroupSystem::new();
    let root = sys.root();
    let child = sys.add_child(root, "level1").unwrap();
    let grandchild = sys.add_child(child, "level2").unwrap();

    assert_eq!(sys.node(grandchild).depth(), 2);
    assert_eq!(sys.node(grandchild).path(), "/level1/level2");
}

#[test]
fn test_cgroup_add_remove_process() {
    let mut sys = CgroupSystem::new();
    let root = sys.root();

    sys.add_process(root, 1).unwrap();
    assert_eq!(sys.node(root).process_count(), 1);
    assert_eq!(sys.node(root).process_list(), vec![1]);

    sys.add_process(root, 2).unwrap();
    assert_eq!(sys.node(root).process_count(), 2);

    let removed = sys.remove_process(root, 1);
    assert!(removed);
    assert_eq!(sys.node(root).process_count(), 1);
    assert_eq!(sys.node(root).process_list(), vec![2]);
}

#[test]
fn test_cgroup_remove_nonexistent_process() {
    let mut sys = CgroupSystem::new();
    let root = sys.root();
    let removed = sys.remove_process(root, 999);
    assert!(!removed);
}

#[test]
fn test_populated_count_propagation() {
    let mut sys = CgroupSystem::new();
    let root = sys.root();
    let child = sys.add_child(root, "test").unwrap();

    assert_eq!(sys.node(root).populated_count(), 0);
    assert_eq!(sys.node(child).populated_count(), 0);

    sys.add_process(child, 1).unwrap();
    sys.propagate_add_populated(child);

    assert_eq!(sys.node(child).populated_count(), 1);
    assert_eq!(sys.node(root).populated_count(), 1);

    sys.add_process(child, 2).unwrap();
    sys.propagate_add_populated(child);

    assert_eq!(sys.node(child).populated_count(), 2);
    assert_eq!(sys.node(root).populated_count(), 2);

    sys.propagate_sub_populated(child);

    assert_eq!(sys.node(child).populated_count(), 1);
    assert_eq!(sys.node(root).populated_count(), 1);

    sys.propagate_sub_populated(child);

    assert_eq!(sys.node(child).populated_count(), 0);
    assert_eq!(sys.node(root).populated_count(), 0);
}

#[test]
fn test_dead_node_rejects_process() {
    let mut sys = CgroupSystem::new();
    let root = sys.root();
    sys.mark_as_dead(root);

    assert!(sys.node(root).is_dead());
    assert!(sys.add_process(root, 1).is_err());
}

#[test]
fn test_read_cgroup_procs() {
    let mut sys = CgroupSystem::new();
    let root = sys.root();
    sys.add_process(root, 1).unwrap();
    sys.add_process(root, 2).unwrap();

    let mut buf = [0u8; 32];
    let n = sys.read_attr_at(root, "cgroup.procs", 0, &mut buf, &[true, true]).unwrap();
    let s = core::str::from_utf8(&buf[..n]).unwrap();
    assert!(s.contains("1"));
    assert!(s.contains("2"));
}

#[test]
fn test_read_cgroup_controllers() {
    let mut sys = CgroupSystem::new();
    let root = sys.root();
    let mut buf = [0u8; 64];
    let n = sys.read_attr_at(root, "cgroup.controllers", 0, &mut buf, &[]).unwrap();
    let s = core::str::from_utf8(&buf[..n]).unwrap();
    assert_eq!(s, "cpuset cpu pids");
    assert!(!s.split_whitespace().any(|name| name == "memory"));
}

#[test]
fn test_write_subtree_control() {
    let mut sys = CgroupSystem::new();
    let root = sys.root();

    sys.write_attr(root, "cgroup.subtree_control", b"+pids").unwrap();
    assert_eq!(sys.node(root).subtree_control_text(), "pids");

    sys.write_attr(root, "cgroup.subtree_control", b"+cpu -pids").unwrap();
    assert_eq!(sys.node(root).subtree_control_text(), "cpu");

    assert!(sys.write_attr(root, "cgroup.subtree_control", b"+memory").is_err());
    assert_eq!(sys.node(root).subtree_control_text(), "cpu");
}

#[test]
fn test_cgroup_system_root() {
    let system = CgroupSystem::new();
    let root = system.root();

    assert_eq!(system.node(root).depth(), 0);
    assert_eq!(system.node(root).path(), "/");
}

#[test]
fn test_cgroup_system_find_by_path() {
    let mut system = CgroupSystem::new();
    let root = system.root();
    let _child = system.add_child(root, "test").unwrap();

    let found = system.find_by_path("/test").unwrap();
    assert_eq!(system.node(found).name(), "test");

    let root_found = system.find_by_path("/").unwrap();
    assert_eq!(system.node(root_found).depth(), 0);
}

#[test]
fn test_cgroup_system_find_nonexistent() {
    let system = CgroupSystem::new();
    let result = system.find_by_path("/nonexistent");
    assert!(result.is_err());
}

// Further cases.

#[test]
fn children_are_listed_in_name_order() {
    let mut sys = CgroupSystem::new();
    let root = sys.root();
    for name in ["beta", "alpha", "gamma", "Zeta"] {
        sys.add_child(root, name).unwrap();
    }
    assert_eq!(sys.child_names(root), vec!["Zeta", "alpha", "beta", "gamma"]);
    assert_eq!(sys.get_child(root, "alpha"), Some(2));
    assert!(sys.remove_child(root, "beta"));
    assert_eq!(sys.child_names(root), vec!["Zeta", "alpha", "gamma"]);
    assert_eq!(sys.parent(2), Some(root));
    assert_eq!(sys.parent(root), None);
}

#[test]
fn paths_are_followed_component_by_component() {
    let mut sys = CgroupSystem::new();
    let a = sys.add_child(0, "a").unwrap();
    let b = sys.add_child(a, "b").unwrap();
    assert_eq!(sys.find_by_path("/a/b"), Ok(b));
    assert_eq!(sys.find_by_path("a//b/"), Ok(b));
    assert_eq!(sys.find_by_path("/a"), Ok(a));
    assert_eq!(sys.find_by_path("/a/c"), Err(CgroupError::NotFound));
    assert_eq!(sys.find_by_path(""), Ok(0));
}

#[test]
fn child_sees_only_handed_down_controllers() {
    let mut sys = CgroupSystem::new();
    let root = sys.root();
    sys.write_attr(root, "cgroup.subtree_control", b"+pids").unwrap();
    let child = sys.add_child(root, "c").unwrap();
    assert_eq!(read(&mut sys, child, "cgroup.controllers"), "pids");
    assert_eq!(read(&mut sys, child, "pids.max"), "max\n");
    let mut buf = [0u8; 16];
    assert_eq!(sys.read_attr_at(child, "cpu.weight", 0, &mut buf, &[]), Err(CgroupError::NotFound));
    assert_eq!(sys.write_attr(child, "cpu.weight", b"200"), Err(CgroupError::NotFound));
    assert_eq!(sys.write_attr(child, "pids.max", b"7"), Ok(AttrWrite::Written(1)));
    assert_eq!(read(&mut sys, child, "pids.max"), "7\n");
    assert!(sys.node(child).is_controller_attr("pids.max"));
    assert!(!sys.node(child).is_controller_attr("cpu.max"));
    assert_eq!(sys.node(child).all_attr_names().len(), 8);
    assert_eq!(sys.node(root).all_attr_names().len(), 15);
    assert!(sys.write_attr(child, "cgroup.subtree_control", b"+cpu").is_err());
    assert_eq!(sys.write_attr(child, "cgroup.subtree_control", b"+pids"), Ok(AttrWrite::Written(5)));
}

#[test]
fn domain_controller_needs_an_empty_cgroup() {
    let mut sys = CgroupSystem::new();
    sys.write_attr(0, "cgroup.subtree_control", b"+cpu +pids").unwrap();
    let child = sys.add_child(0, "c").unwrap();
    sys.add_process(child, 5).unwrap();
    assert!(sys.node(child).can_host_process());
    assert_eq!(
        sys.write_attr(child, "cgroup.subtree_control", b"+cpu"),
        Err(CgroupError::ResourceBusy)
    );
    assert_eq!(sys.write_attr(child, "cgroup.subtree_control", b"+pids"), Ok(AttrWrite::Written(5)));
    assert!(!sys.node(child).domain_subtree_control_enabled());
    assert_eq!(sys.write_attr(child, "cgroup.subtree_control", b"pids"), Err(CgroupError::InvalidInput));
}

#[test]
fn depth_limits_are_enforced() {
    let mut sys = CgroupSystem::new();
    let a = sys.add_child(0, "a").unwrap();
    assert_eq!(read(&mut sys, a, "cgroup.max.depth"), "max\n");
    assert_eq!(sys.write_attr(a, "cgroup.max.depth", b"1"), Ok(AttrWrite::Written(1)));
    assert_eq!(read(&mut sys, a, "cgroup.max.depth"), "1\n");
    assert_eq!(sys.check_child_depth_allowed(a), Ok(()));
    let b = sys.add_child(a, "b").unwrap();
    assert_eq!(sys.check_child_depth_allowed(b), Err(CgroupError::WouldBlock));
    assert_eq!(sys.write_attr(a, "cgroup.max.depth", b"0"), Err(CgroupError::ResourceBusy));
    assert_eq!(sys.write_attr(a, "cgroup.max.depth", b"-3"), Err(CgroupError::InvalidInput));
    assert_eq!(sys.write_attr(a, "cgroup.max.depth", b"max"), Ok(AttrWrite::Written(3)));
    assert_eq!(sys.check_child_depth_allowed(b), Ok(()));
    assert_eq!(sys.node(a).check_descendant_depth_allowed(9), Ok(()));
}

#[test]
fn writing_procs_asks_for_a_migration() {
    let mut sys = CgroupSystem::new();
    assert_eq!(sys.write_attr(0, "cgroup.procs", b"42\n"), Ok(AttrWrite::Migrate(42)));
    assert_eq!(sys.write_attr(0, "cgroup.procs", b"x"), Err(CgroupError::InvalidInput));
    assert_eq!(sys.write_procs(b"+7"), Ok(7));
    assert_eq!(sys.write_attr(0, "nope", b"1"), Err(CgroupError::NotFound));
}

#[test]
fn events_report_population() {
    let mut sys = CgroupSystem::new();
    let c = sys.add_child(0, "c").unwrap();
    assert_eq!(read(&mut sys, c, "cgroup.events"), "populated 0\nfrozen 0\n");
    sys.add_process(c, 3).unwrap();
    sys.propagate_add_populated(c);
    assert!(sys.node(0).events);
    assert_eq!(read(&mut sys, 0, "cgroup.events"), "populated 1\nfrozen 0\n");
    assert!(!sys.node(0).events);
    sys.propagate_sub_populated(c);
    sys.propagate_sub_populated(c);
    assert_eq!(sys.node(c).populated_count(), 0);
}

#[test]
fn procs_lists_only_shown_processes() {
    let mut sys = CgroupSystem::new();
    sys.add_process(0, 10).unwrap();
    sys.add_process(0, 11).unwrap();
    sys.add_process(0, 10).unwrap();
    assert_eq!(sys.node(0).process_count(), 2);
    assert_eq!(sys.node(0).procs_text(&[false, true]), "11\n");
    assert_eq!(sys.node(0).procs_text(&[true, true]), "10\n11\n");
    assert!(sys.node(0).process_contains(11));
    assert!(!sys.node(0).process_contains(12));
}

#[test]
fn cgroup_ids_are_assigned() {
    let mut sys = CgroupSystem::new();
    assert_eq!(sys.node(0).cgroup_id(), ROOT_ID);
    let c = sys.add_child(0, "c").unwrap();
    assert_eq!(sys.node(c).cgroup_id(), 0);
    sys.set_cgroup_id(c, 7);
    assert_eq!(sys.node(c).cgroup_id(), 7);
}

#[test]
fn subtree_process_count_sums_pids_counters() {
    let mut sys = CgroupSystem::new();
    let _c = sys.add_child(0, "c").unwrap();
    assert_eq!(CgroupMembership::count_subtree_processes(&sys, 0), 0);
    let mut m = CgroupMembership::new();
    let root_node = CgroupNode::new_root();
    assert_eq!(
        m.move_process_to_node(1, root_node.controller(), root_node.controller()),
        Err(CgroupError::Unsupported)
    );
    assert_eq!(
        m.move_process_to_root(1, root_node.controller(), root_node.controller()),
        Err(CgroupError::Unsupported)
    );
    assert_eq!(root_node.available_controllers, SubCtrlSet::all_controllers());
}

#[test]
fn core_tree_creates_children_with_inherited_controllers() {
    let mut tree = CgroupTree::new();
    let root = tree.root();
    assert_eq!(tree.node(root).controller_list(), "pids cpu");
    assert_eq!(tree.set_subtree_control(root, &["pids", "cpu"], &["cpu"]), Ok(()));
    let c = tree.create_child(root, "web").unwrap();
    assert_eq!(tree.create_child(root, "web"), Err(CgroupError::AlreadyExists));
    assert_eq!(tree.node(c).path.as_str(), "/web");
    assert_eq!(tree.node(c).controller_list(), "pids cpu pids");
    let g = tree.create_child(c, "api").unwrap();
    assert_eq!(tree.node(g).path.as_str(), "/web/api");
    assert_eq!(tree.node(g).parent, Some(c));
}

#[test]
fn core_subtree_control_refusals() {
    let mut tree = CgroupTree::new();
    assert_eq!(tree.set_subtree_control(0, &["pids", "io"], &[]), Err("invalid controller name"));
    assert_eq!(tree.node(0).subtree_control, vec!["pids".to_string()]);
    assert_eq!(tree.set_subtree_control(0, &[], &["pids"]), Ok(()));
    assert!(tree.node(0).subtree_control.is_empty());
    tree.replace_procs(0, vec![1]);
    assert_eq!(
        tree.set_subtree_control(0, &["pids"], &[]),
        Err("cannot enable controllers: cgroup has processes")
    );
    tree.update_populated(0);
    assert!(tree.node(0).events.populated);
}

#[test]
fn core_type_transitions() {
    let mut tree = CgroupTree::new();
    let c = tree.create_child(0, "c").unwrap();
    assert_eq!(tree.set_cgroup_type(0, CgroupType::DomainThreaded), Err("cannot convert to threaded: has child cgroups"));
    assert_eq!(tree.set_cgroup_type(c, CgroupType::DomainThreaded), Ok(()));
    assert_eq!(tree.node(c).cgroup_type(), CgroupType::DomainThreaded);
    assert_eq!(tree.set_cgroup_type(c, CgroupType::DomainInvalid), Err("invalid type transition"));
    assert_eq!(tree.set_cgroup_type(c, CgroupType::DomainThreaded), Ok(()));
    assert_eq!(tree.set_cgroup_type(c, CgroupType::Domain), Ok(()));
    assert_eq!(tree.node(c).cgroup_type(), CgroupType::Domain);
}

#[test]
fn core_freeze_and_events() {
    let mut tree = CgroupTree::new();
    assert_eq!(tree.set_frozen(0, true), Ok(()));
    assert!(tree.node(0).freezer.frozen);
    assert_eq!(tree.node(0).events.format(), "populated 0\nfrozen 1\n");
    assert_eq!(tree.set_frozen(0, false), Ok(()));
    assert!(!tree.node(0).events.frozen);
    assert_eq!(tree.node(0).kill_all(), Ok(()));
    assert!(!FreezerState::new().frozen);
    assert_eq!(CgroupEvents::new().format(), "populated 0\nfrozen 0\n");
}

#[test]
fn cgroup_type_names() {
    assert_eq!(CgroupType::from_u8(0), CgroupType::Domain);
    assert_eq!(CgroupType::from_u8(1), CgroupType::DomainThreaded);
    assert_eq!(CgroupType::from_u8(9), CgroupType::DomainInvalid);
    assert_eq!(CgroupType::DomainThreaded.as_str(), "domain threaded");
    assert_eq!(CgroupType::from_str("  domain threaded\n"), Some(CgroupType::DomainThreaded));
    assert_eq!(CgroupType::from_str("domain"), Some(CgroupType::Domain));
    assert_eq!(CgroupType::from_str("domain invalid"), None);
    assert_eq!(CgroupType::DomainInvalid.as_u8(), 2);
}

#[test]
fn core_tree_pids_and_cpu_state() {
    let mut tree = CgroupTree::new();
    assert_eq!(tree.len(), 1);
    tree.write_pids_max(0, b"1");
    assert_eq!(tree.node(0).pids.max, 1);
    assert!(tree.try_fork(0));
    assert!(!tree.try_fork(0));
    tree.exit(0);
    assert_eq!(tree.node(0).pids.current, 0);
    tree.write_cpu_max(0, b"1000 4000");
    assert_eq!(tree.node(0).cpu.bandwidth.quota, 1000);
    let act = tree.tick_bandwidth(0, 100);
    assert!(act.throttle);
    assert!(!act.unthrottle);
    let act = tree.tick_bandwidth(0, 4100);
    assert!(act.unthrottle);
    assert_eq!(tree.node(0).cpu.bandwidth.nr_periods, 1);
}

#[test]
fn system_length_counts_removed_cgroups() {
    let mut sys = CgroupSystem::new();
    assert_eq!(sys.len(), 1);
    sys.add_child(0, "a").unwrap();
    assert!(sys.remove_child(0, "a"));
    assert_eq!(sys.len(), 2);
    assert_eq!(sys.node(1).name(), "a");
}

#[test]
fn hierarchy_charges_every_level_and_rolls_back() {
    let mut sys = CgroupSystem::new();
    let root = sys.root();
    sys.write_attr(root, "cgroup.subtree_control", b"+pids").unwrap();
    let child = sys.add_child(root, "c").unwrap();
    sys.write_attr(child, "pids.max", b"1").unwrap();
    assert_eq!(sys.try_charge_pids(child), Ok(()));
    assert_eq!(read(&mut sys, child, "pids.current"), "1\n");
    assert_eq!(read(&mut sys, root, "pids.current"), "1\n");
    assert_eq!(sys.try_charge_pids(child), Err(CgroupError::WouldBlock));
    assert_eq!(read(&mut sys, child, "pids.current"), "1\n");
    assert_eq!(read(&mut sys, root, "pids.current"), "1\n");
    assert_eq!(CgroupMembership::count_subtree_processes(&sys, root), 2);
    sys.uncharge_pids(child);
    assert_eq!(read(&mut sys, child, "pids.current"), "0\n");
    assert_eq!(read(&mut sys, root, "pids.current"), "0\n");
    assert_eq!(read(&mut sys, child, "pids.peak"), "1\n");
    sys.uncharge_pids(child);
    assert_eq!(read(&mut sys, child, "pids.current"), "0\n");
}

#[test]
fn ancestor_limit_refuses_and_keeps_counts() {
    let mut sys = CgroupSystem::new();
    let root = sys.root();
    sys.write_attr(root, "cgroup.subtree_control", b"+pids").unwrap();
    let a = sys.add_child(root, "a").unwrap();
    sys.write_attr(a, "cgroup.subtree_control", b"+pids").unwrap();
    let b = sys.add_child(a, "b").unwrap();
    sys.write_attr(a, "pids.max", b"0").unwrap();
    assert_eq!(sys.try_charge_pids(b), Err(CgroupError::WouldBlock));
    assert_eq!(read(&mut sys, b, "pids.current"), "0\n");
    assert_eq!(read(&mut sys, b, "pids.peak"), "1\n");
    assert_eq!(read(&mut sys, a, "pids.current"), "0\n");
    assert_eq!(read(&mut sys, root, "pids.current"), "0\n");
    assert_eq!(sys.try_charge_pids(root), Ok(()));
    assert_eq!(read(&mut sys, root, "pids.current"), "1\n");
    assert_eq!(read(&mut sys, a, "pids.current"), "0\n");
}

#[test]
fn init_starts_with_a_bare_root() {
    let tree = init();
    assert_eq!(tree.len(), 1);
    let root = tree.node(tree.root());
    assert_eq!(root.path.as_str(), "/");
    assert_eq!(root.name.as_str(), "");
    assert!(root.children.is_empty());
    assert!(root.procs.is_empty());
    assert_eq!(root.cgroup_type, CgroupType::Domain);
    assert_eq!(root.pids.max, -1);
    assert_eq!(root.cpu.weight, 100);
}

#[test]
fn core_tree_lists_and_finds_children() {
    let mut tree = CgroupTree::new();
    let root = tree.root();
    let b = tree.create_child(root, "b").unwrap();
    let a = tree.create_child(root, "a").unwrap();
    assert_eq!(tree.child_names(root), vec!["a".to_string(), "b".to_string()]);
    assert_eq!(tree.get_child(root, "a"), Some(a));
    assert_eq!(tree.get_child(root, "b"), Some(b));
    assert_eq!(tree.get_child(root, "c"), None);
    assert!(tree.child_names(a).is_empty());
}
