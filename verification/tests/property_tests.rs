use persistent_storage::service::DbService;

#[test]
fn destroy_then_round_trip_succeeds() {
    let mut service = DbService::new();
    let w = service.write_db("Vehicle.Speed", "88", "");
    assert!(w.0);

    let destroy = service.destroy_db();
    assert!(destroy.0);

    let old = service.read_db("Vehicle.Speed", "");
    assert!(!old.0);

    let w2 = service.write_db("Vehicle.Speed", "44", "");
    assert!(w2.0);
    let r2 = service.read_db("Vehicle.Speed", "");
    assert!(r2.0);
    assert_eq!(r2.2, "44");
}

#[test]
fn namespace_write_does_not_affect_default_namespace() {
    let mut service = DbService::new();
    let w = service.write_db("Private.Info", "test", "AppName");
    assert!(w.0);

    let r = service.read_db("Private.Info", "");
    assert!(!r.0);
    assert_eq!(r.2, "");
}

#[test]
fn overwrite_keeps_one_entry() {
    let mut service = DbService::new();
    assert!(service.write_db("A.B", "one", "").0);
    assert!(service.write_db("A.B", "two", "").0);

    let r = service.read_db("A.B", "");
    assert!(r.0);
    assert_eq!(r.2, "two");

    let s = service.search_db("", "");
    assert!(s.0);
    assert_eq!(s.2, vec!["A.B"]);
}

#[test]
fn read_failure_returns_empty_value() {
    let mut service = DbService::new();
    let r = service.read_db("No.Such.Key", "");
    assert!(!r.0);
    assert_eq!(r.2, "");
}

#[test]
fn search_is_case_sensitive() {
    let mut service = DbService::new();
    assert!(service.write_db("Vehicle.Radio", "on", "").0);

    let lower = service.search_db("radio", "");
    assert!(lower.0);
    assert_eq!(lower.2, vec![] as Vec<String>);

    let upper = service.search_db("Radio", "");
    assert!(upper.0);
    assert_eq!(upper.2, vec!["Vehicle.Radio"]);
}

#[test]
fn search_output_is_sorted_whatever_the_write_order() {
    let mut service = DbService::new();
    assert!(service.write_db("c.key", "3", "").0);
    assert!(service.write_db("a.key", "1", "").0);
    assert!(service.write_db("b.key", "2", "").0);

    let s = service.search_db("key", "");
    assert!(s.0);
    assert_eq!(s.2, vec!["a.key", "b.key", "c.key"]);
}

#[test]
fn deep_tree_truncates_to_requested_layer() {
    let mut service = DbService::new();
    assert!(service.write_db("Root.A.B.C.D", "1", "").0);
    assert!(service.write_db("Root.A.B.X", "2", "").0);
    assert!(service.write_db("Root.A", "3", "").0);

    let one = service.nodes_starting_in("Root", Some(1), "");
    assert!(one.0);
    assert_eq!(one.2, vec!["Root.A"]);

    let two = service.nodes_starting_in("Root", Some(2), "");
    assert!(two.0);
    assert_eq!(two.2, vec!["Root.A.B"]);

    let three = service.nodes_starting_in("Root", Some(3), "");
    assert!(three.0);
    assert_eq!(three.2, vec!["Root.A.B.C", "Root.A.B.X"]);
}

#[test]
fn layers_deeper_than_tree_lists_nothing() {
    let mut service = DbService::new();
    assert!(service.write_db("Root.A", "1", "").0);

    let deep = service.nodes_starting_in("Root", Some(5), "");
    assert!(deep.0);
    assert_eq!(deep.2, vec![] as Vec<String>);
}

#[test]
fn node_that_is_only_an_entry_lists_with_layers_zero() {
    let mut service = DbService::new();
    assert!(service.write_db("Vehicle.Infotainment", "exists", "").0);

    let zero = service.nodes_starting_in("Vehicle.Infotainment", Some(0), "");
    assert!(zero.0);
    assert_eq!(zero.2, vec!["Vehicle.Infotainment"]);
}

#[test]
fn recursive_delete_of_absent_node_succeeds_with_no_deletions() {
    let mut service = DbService::new();
    assert!(service.write_db("Keep.Me", "1", "").0);

    let del = service.delete_recursively_from_db("Not.There", "");
    assert!(del.0);

    let r = service.read_db("Keep.Me", "");
    assert!(r.0);
}

#[test]
fn recursive_delete_respects_segment_boundaries() {
    let mut service = DbService::new();
    assert!(service.write_db("Vehicle.Info", "1", "").0);
    assert!(service.write_db("Vehicle.Infotainment", "2", "").0);
    assert!(service.write_db("Vehicle.Infotainment.Radio", "3", "").0);

    let del = service.delete_recursively_from_db("Vehicle.Info", "");
    assert!(del.0);

    assert!(!service.read_db("Vehicle.Info", "").0);
    assert!(service.read_db("Vehicle.Infotainment", "").0);
    assert!(service.read_db("Vehicle.Infotainment.Radio", "").0);
}

#[test]
fn empty_namespace_and_named_namespace_hold_separate_trees() {
    let mut service = DbService::new();
    assert!(service.write_db("Shared.Path", "default", "").0);
    assert!(service.write_db("Shared.Path", "scoped", "Scope").0);

    let d = service.read_db("Shared.Path", "");
    let s = service.read_db("Shared.Path", "Scope");
    assert_eq!(d.2, "default");
    assert_eq!(s.2, "scoped");

    assert!(service.delete_db("Shared.Path", "Scope").0);
    assert!(service.read_db("Shared.Path", "").0);
    assert!(!service.read_db("Shared.Path", "Scope").0);
}

#[test]
fn check_if_key_exists_reports_presence() {
    let mut service = DbService::new();
    assert!(!service.check_if_key_exists("A.B", ""));
    assert!(service.write_db("A.B", "v", "").0);
    assert!(service.check_if_key_exists("A.B", ""));
    assert!(!service.check_if_key_exists("A.B", "Other"));
}
