use persistent_storage::service::DbService;

fn fill_db_for_search_tests(service: &mut DbService, key1: &str, key2: &str) {
    let r1 = service.write_db(key1, "1live", "");
    assert!(r1.0);
    let r2 = service.write_db(key2, "10", "");
    assert!(r2.0);
    let r3 = service.write_db("Vehicle.Infotainment.Display.Color", "blue", "");
    assert!(r3.0);
    let r4 = service.write_db("Private.Info", "test", "AppName");
    assert!(r4.0);
}

fn fill_db_example_tree(service: &mut DbService) {
    let r1 = service.write_db("Vehicle.Infotainment", "AGL_Infotainment", "");
    assert!(r1.0);
    let r2 = service.write_db("Vehicle.Infotainment.Radio.CurrentStation", "1live", "");
    assert!(r2.0);
    let r3 = service.write_db("Vehicle.Infotainment.Radio.Volume", "12", "");
    assert!(r3.0);
    let r4 = service.write_db("Vehicle.Infotainment.HVAC.OutdoorTemperature", "20", "");
    assert!(r4.0);
    let r5 = service.write_db("Vehicle.Communication.Radio.Volume", "10", "");
    assert!(r5.0);
    let r6 = service.write_db("test", "test", "");
    assert!(r6.0);
    let r7 = service.write_db("Private.Info", "test", "AppName");
    assert!(r7.0);
}

// TESTS FOR WRITE FUNCTION

#[test]
fn test_write_key_value() {
    let mut service = DbService::new();
    service.destroy_db();

    let key = "Vehicle.Infotainment.Radio.CurrentStation";
    let value = "1live";
    let namespace = "";

    let response = service.write_db(key, value, namespace);
    let read_value = service.read_db(key, namespace);

    assert!(response.0 && read_value.2 == value);
}

#[test]
fn test_write_empty_key() {
    let mut service = DbService::new();
    service.destroy_db();

    let key = "";
    let value = "test";
    let namespace = "";

    let response_write = service.write_db(key, value, namespace);
    let response_read = service.read_db(key, namespace);

    assert!(!response_write.0);
    assert!(!response_read.0);
}

#[test]
fn test_write_two_keys_on_root_level() {
    let mut service = DbService::new();
    service.destroy_db();

    let response1 = service.write_db("Vehicle", "car", "");
    let response2 = service.write_db("test", "test", "");

    let read_value1 = service.read_db("Vehicle", "");
    let read_value2 = service.read_db("test", "");

    assert!(
        read_value1.2 == "car" && read_value2.2 == "test" && response1.0 && response2.0
    );
}

#[test]
fn test_write_to_node() {
    let mut service = DbService::new();
    service.destroy_db();

    let response1 = service.write_db("Vehicle.Infotainment.Radio.CurrentStation", "1live", "");
    let response2 = service.write_db("Vehicle.Infotainment", "exists", "");

    let read_value1 = service.read_db("Vehicle.Infotainment.Radio.CurrentStation", "");
    let read_value2 = service.read_db("Vehicle.Infotainment", "");

    assert!(
        read_value1.2 == "1live" && read_value2.2 == "exists" && response1.0 && response2.0
    );
}

#[test]
fn test_write_to_nondefault_namespace() {
    let mut service = DbService::new();
    service.destroy_db();

    let response = service.write_db("Private.Info", "test", "AppName");
    let read_value = service.read_db("Private.Info", "AppName");

    assert!(response.0 && read_value.2 == "test");
}

// TESTS FOR DELETE FUNCTION

#[test]
fn test_delete() {
    let mut service = DbService::new();
    service.destroy_db();

    let key = "Vehicle.Infotainment.Radio.CurrentStation";
    let namespace = "";

    let response_write = service.write_db(key, "1live", namespace);
    let response_delete = service.delete_db(key, namespace);
    let response_read = service.read_db(key, namespace);

    assert!(response_write.0 && response_delete.0 && !response_read.0);
}

#[test]
fn test_delete_key_does_not_exist() {
    let mut service = DbService::new();
    service.destroy_db();

    let key = "Key.doesNotExist";
    let namespace = "";

    let response_read = service.read_db(key, namespace);
    let response_delete = service.delete_db(key, namespace);

    assert!(!response_delete.0 && !response_read.0);
}

#[test]
fn test_delete_from_nondefault_namespace() {
    let mut service = DbService::new();
    service.destroy_db();

    let response_write = service.write_db("Private.Info", "test", "AppName");
    let response_delete = service.delete_db("Private.Info", "AppName");
    let response_read = service.read_db("Private.Info", "AppName");

    assert!(response_write.0 && response_delete.0 && !response_read.0);
}

// TESTS FOR SEARCH FUNCTION

#[test]
fn test_full_search_key() {
    let mut service = DbService::new();
    service.destroy_db();

    let key1 = "Vehicle.Infotainment.Radio.CurrentStation";
    let key2 = "Vehicle.Communication.Radio.Volume";
    fill_db_for_search_tests(&mut service, key1, key2);

    let search_response = service.search_db("Radio", "");

    assert!(search_response.0);
    assert_eq!(search_response.2, vec![key2, key1]);
}

#[test]
fn test_partial_search_key() {
    let mut service = DbService::new();
    service.destroy_db();

    let key1 = "Vehicle.Infotainment.Radio.CurrentStation";
    let key2 = "Vehicle.Communication.Radio.Volume";
    fill_db_for_search_tests(&mut service, key1, key2);

    let search_response = service.search_db("Rad", "");

    assert!(search_response.0);
    assert_eq!(search_response.2, vec![key2, key1]);
}

#[test]
fn test_search_key_contains_dot() {
    let mut service = DbService::new();
    service.destroy_db();

    let key1 = "Vehicle.Infotainment.Radio.CurrentStation";
    let key2 = "Vehicle.Communication.Radio.Volume";
    fill_db_for_search_tests(&mut service, key1, key2);

    let search_response = service.search_db("nt.Rad", "");

    assert!(search_response.0);
    assert_eq!(search_response.2, vec![key1]);
}

#[test]
fn test_empty_search_key() {
    let mut service = DbService::new();
    service.destroy_db();

    let key1 = "Vehicle.Infotainment.Radio.CurrentStation";
    let key2 = "Vehicle.Communication.Radio.Volume";
    fill_db_for_search_tests(&mut service, key1, key2);

    let search_response = service.search_db("", "");

    assert!(search_response.0);
    assert_eq!(
        search_response.2,
        vec![key2, "Vehicle.Infotainment.Display.Color", key1]
    );
}

#[test]
fn test_partial_search_key_in_nondefault_namespace() {
    let mut service = DbService::new();
    service.destroy_db();

    let key1 = "Vehicle.Infotainment.Radio.CurrentStation";
    let key2 = "Vehicle.Communication.Radio.Volume";
    fill_db_for_search_tests(&mut service, key1, key2);

    let search_response = service.search_db("Info", "AppName");

    assert!(search_response.0);
    assert_eq!(search_response.2, vec!["Private.Info"]);
}

// TESTS FOR RECURSIVE DELETION

#[test]
fn test_delete_recursively() {
    let mut service = DbService::new();
    service.destroy_db();

    let r1 = service.write_db("Vehicle.Infotainment", "test", "");
    assert!(r1.0);
    let r2 = service.write_db("Vehicle.Infotainment.Radio.CurrentStation", "WDR 4", "");
    assert!(r2.0);
    let r3 = service.write_db("Vehicle.Infotainment.Radio.Volume", "99%", "");
    assert!(r3.0);
    let r4 = service.write_db("Vehicle.Infotainment.HVAC.OutdoorTemperature", "34 °C", "");
    assert!(r4.0);
    let r5 = service.write_db("Private.Info", "test", "AppName");
    assert!(r5.0);

    let delete_recursively_response = service.delete_recursively_from_db("Vehicle.Infotainment", "");

    let read1 = service.read_db("Vehicle.Infotainment", "");
    let read2 = service.read_db("Vehicle.Infotainment.Radio.CurrentStation", "");
    let read3 = service.read_db("Vehicle.Infotainment.Radio.Volume", "");
    let read4 = service.read_db("Vehicle.Infotainment.HVAC.OutdoorTemperature", "");
    let read5 = service.read_db("Private.Info", "AppName");

    assert!(
        delete_recursively_response.0
            && !read1.0
            && !read2.0
            && !read3.0
            && !read4.0
            && read5.0
    );
}

#[test]
fn test_delete_recursively_vehicle() {
    let mut service = DbService::new();
    service.destroy_db();

    let r1 = service.write_db("Vehicle.Infotainment", "test", "");
    assert!(r1.0);
    let r2 = service.write_db("Vehicle.Infotainment.Radio.CurrentStation", "WDR 4", "");
    assert!(r2.0);
    let r3 = service.write_db("Vehicle.Infotainment.Radio.Volume", "99%", "");
    assert!(r3.0);
    let r4 = service.write_db("Vehicle.Infotainment.HVAC.OutdoorTemperature", "34 °C", "");
    assert!(r4.0);
    let r5 = service.write_db("Vehicle.Communication.Radio.Volume", "80%", "");
    assert!(r5.0);
    let r6 = service.write_db("Private.Info", "test", "AppName");
    assert!(r6.0);

    let delete_recursively_response = service.delete_recursively_from_db("Vehicle", "");

    let read1 = service.read_db("Vehicle.Infotainment", "");
    let read2 = service.read_db("Vehicle.Infotainment.Radio.CurrentStation", "");
    let read3 = service.read_db("Vehicle.Infotainment.Radio.Volume", "");
    let read4 = service.read_db("Vehicle.Infotainment.HVAC.OutdoorTemperature", "");
    let read5 = service.read_db("Vehicle.Communication.Radio.Volume", "");
    let read6 = service.read_db("Private.Info", "AppName");

    assert!(
        delete_recursively_response.0
            && !read1.0
            && !read2.0
            && !read3.0
            && !read4.0
            && !read5.0
            && read6.0
    );
}

#[test]
fn test_delete_recursively_empty_key() {
    let mut service = DbService::new();
    service.destroy_db();

    let r1 = service.write_db("Vehicle.Infotainment", "test", "");
    assert!(r1.0);
    let r2 = service.write_db("Vehicle.Infotainment.Radio.CurrentStation", "WDR 4", "");
    assert!(r2.0);
    let r3 = service.write_db("Private.Info", "test", "AppName");
    assert!(r3.0);

    let delete_recursively_response = service.delete_recursively_from_db("", "");

    let read1 = service.read_db("Vehicle.Infotainment", "");
    let read2 = service.read_db("Vehicle.Infotainment.Radio.CurrentStation", "");
    let read3 = service.read_db("Private.Info", "AppName");

    assert!(!delete_recursively_response.0 && read1.0 && read2.0 && read3.0);
}

// TESTS FOR NODE LISTING

#[test]
fn test_list_nodes() {
    let mut service = DbService::new();
    service.destroy_db();
    fill_db_example_tree(&mut service);

    let response = service.nodes_starting_in("Vehicle.Infotainment", Some(1), "");

    assert!(response.0);
    assert_eq!(
        response.2,
        vec!["Vehicle.Infotainment.HVAC", "Vehicle.Infotainment.Radio"]
    );
}

#[test]
fn test_list_nodes_default_layers() {
    let mut service = DbService::new();
    service.destroy_db();
    fill_db_example_tree(&mut service);

    let response = service.nodes_starting_in("Vehicle.Infotainment", None, "");

    assert!(response.0);
    assert_eq!(
        response.2,
        vec!["Vehicle.Infotainment.HVAC", "Vehicle.Infotainment.Radio"]
    );
}

#[test]
fn test_list_nodes_two_layers() {
    let mut service = DbService::new();
    service.destroy_db();
    fill_db_example_tree(&mut service);

    let response = service.nodes_starting_in("Vehicle.Infotainment", Some(2), "");

    assert!(response.0);
    assert_eq!(
        response.2,
        vec![
            "Vehicle.Infotainment.HVAC.OutdoorTemperature",
            "Vehicle.Infotainment.Radio.CurrentStation",
            "Vehicle.Infotainment.Radio.Volume"
        ]
    );
}

#[test]
fn test_list_nodes_all_vehicle_keys() {
    let mut service = DbService::new();
    service.destroy_db();
    fill_db_example_tree(&mut service);

    let response = service.nodes_starting_in("Vehicle", Some(0), "");

    assert!(response.0);
    assert_eq!(
        response.2,
        vec![
            "Vehicle.Communication.Radio.Volume",
            "Vehicle.Infotainment",
            "Vehicle.Infotainment.HVAC.OutdoorTemperature",
            "Vehicle.Infotainment.Radio.CurrentStation",
            "Vehicle.Infotainment.Radio.Volume"
        ]
    );
}

#[test]
fn test_list_nodes_all_keys() {
    let mut service = DbService::new();
    service.destroy_db();
    fill_db_example_tree(&mut service);

    let response = service.nodes_starting_in("", Some(0), "");

    assert!(response.0);
    assert_eq!(
        response.2,
        vec![
            "Vehicle.Communication.Radio.Volume",
            "Vehicle.Infotainment",
            "Vehicle.Infotainment.HVAC.OutdoorTemperature",
            "Vehicle.Infotainment.Radio.CurrentStation",
            "Vehicle.Infotainment.Radio.Volume",
            "test"
        ]
    );
}

#[test]
fn test_list_nodes_empty_node() {
    let mut service = DbService::new();
    service.destroy_db();
    fill_db_example_tree(&mut service);

    let response = service.nodes_starting_in("", Some(1), "");

    assert!(response.0);
    assert_eq!(response.2, vec!["Vehicle", "test"]);
}

#[test]
fn test_list_nodes_no_children() {
    let mut service = DbService::new();
    service.destroy_db();
    fill_db_example_tree(&mut service);

    let response = service.nodes_starting_in("Vehicle.Infotainment.Radio.Volume", Some(1), "");

    assert!(response.0);
    assert_eq!(response.2, vec![] as Vec<String>);
}

#[test]
fn test_list_nodes_negative_layers() {
    let mut service = DbService::new();
    service.destroy_db();
    fill_db_example_tree(&mut service);

    let response = service.nodes_starting_in("Vehicle", Some(-1), "");

    assert!(!response.0);
}

#[test]
fn test_list_nodes_node_does_not_exist() {
    let mut service = DbService::new();
    service.destroy_db();
    fill_db_example_tree(&mut service);

    let response = service.nodes_starting_in("Vehicle.DoesNotExist", Some(1), "");

    assert!(!response.0);
}

#[test]
fn test_list_nodes_empty_string_always_exists() {
    let mut service = DbService::new();
    service.destroy_db();

    let response = service.nodes_starting_in("", Some(1), "");

    assert!(response.0);
    assert_eq!(response.2, vec![] as Vec<String>);
}

#[test]
fn test_list_nodes_nondefault_namespace() {
    let mut service = DbService::new();
    service.destroy_db();
    fill_db_example_tree(&mut service);

    let response = service.nodes_starting_in("Private", Some(1), "AppName");

    assert!(response.0);
    assert_eq!(response.2, vec!["Private.Info"]);
}
