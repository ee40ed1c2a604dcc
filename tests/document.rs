use interface_rs::{Interface, NetworkInterfaces, NetworkInterfacesError};

fn empty() -> NetworkInterfaces {
    NetworkInterfaces::load_from("", None, None).unwrap()
}

#[test]
fn test_next_unused_vlan_in_range() {
    let mut network_interfaces = empty();

    network_interfaces.add_interface(Interface::builder("vlan1000").build());
    network_interfaces.add_interface(Interface::builder("vlan1001").build());
    network_interfaces.add_interface(Interface::builder("vlan1003").build());

    let next_vlan_id = network_interfaces.next_unused_vlan_in_range(1000, 1999);
    assert_eq!(next_vlan_id, Some(1002));

    network_interfaces.add_interface(Interface::builder("vlan1002").build());
    let next_vlan_id = network_interfaces.next_unused_vlan_in_range(1000, 1003);
    assert_eq!(next_vlan_id, None);

    let next_vlan_id = network_interfaces.next_unused_vlan_in_range(2000, 2005);
    assert_eq!(next_vlan_id, Some(2000));
}

#[test]
fn test_get_existing_vni_vlan() {
    let mut network_interfaces = empty();

    network_interfaces.add_interface(
        Interface::builder("vni123456")
            .with_auto(true)
            .with_option("bridge-access", "1002")
            .build(),
    );

    assert_eq!(network_interfaces.get_existing_vni_vlan(123456), Some(1002));

    network_interfaces.add_interface(Interface::builder("vni987654").with_auto(true).build());
    assert_eq!(network_interfaces.get_existing_vni_vlan(987654), None);

    assert_eq!(network_interfaces.get_existing_vni_vlan(666), None);
}

#[test]
fn vlan_range_edges() {
    let mut doc = empty();
    assert_eq!(doc.next_unused_vlan_in_range(65535, 65535), Some(65535));
    doc.add_interface(Interface::builder("vlan65535").build());
    assert_eq!(doc.next_unused_vlan_in_range(65535, 65535), None);
    assert_eq!(doc.next_unused_vlan_in_range(5, 4), None);
}

#[test]
fn vni_vlan_skips_unreadable_values() {
    let mut doc = empty();
    doc.add_interface(
        Interface::builder("vni7")
            .with_option("bridge-access", "many")
            .with_option("bridge-access", "70000")
            .with_option("bridge-access", "12")
            .build(),
    );
    assert_eq!(doc.get_existing_vni_vlan(7), Some(12));
}

#[test]
fn add_replaces_and_delete_removes() {
    let mut doc = NetworkInterfaces::load_from("auto eth0\niface eth0 inet dhcp\n", None, None).unwrap();
    doc.add_interface(Interface::builder("eth0").with_method("static").build());
    assert_eq!(doc.len(), 1);
    let e = doc.get_interface("eth0").unwrap();
    assert!(!e.auto);
    assert_eq!(e.method.as_deref(), Some("static"));
    doc.delete_interface("eth0");
    assert!(doc.is_empty());
    doc.delete_interface("eth0");
    assert!(doc.is_empty());
    assert!(doc.iter().is_empty());
}

#[test]
fn save_guard_refuses_newer_file() {
    let doc = NetworkInterfaces::load_from("auto lo\niface lo inet loopback\n", Some("/x".to_string()), Some(100)).unwrap();
    match doc.prepare_save(101) {
        Err(NetworkInterfacesError::FileModified) => {},
        _ => panic!("a newer file must not be overwritten"),
    }
    assert_eq!(doc.prepare_save(100).unwrap(), "\nauto lo\niface lo inet loopback\n");
    assert_eq!(doc.prepare_save(5).unwrap(), "\nauto lo\niface lo inet loopback\n");
}

#[test]
fn save_guard_after_mark_saved() {
    let mut doc = NetworkInterfaces::load_from("", Some("/x".to_string()), Some(100)).unwrap();
    doc.mark_saved(200);
    assert!(doc.prepare_save(150).is_ok());
    assert!(matches!(doc.prepare_save(201), Err(NetworkInterfacesError::FileModified)));
}

#[test]
fn missing_path_is_reported() {
    let doc = empty();
    match doc.file_path_or_error() {
        Err(NetworkInterfacesError::Other(m)) => assert_eq!(m, "No file path specified"),
        _ => panic!("expected the missing path error"),
    }
    let doc = NetworkInterfaces::load_from("", Some("/etc/network/interfaces".to_string()), None).unwrap();
    assert_eq!(doc.file_path_or_error().unwrap(), "/etc/network/interfaces");
}

#[test]
fn reload_is_all_or_nothing() {
    let mut doc = NetworkInterfaces::load_from("auto lo\niface lo inet loopback\n", Some("/x".to_string()), Some(1)).unwrap();
    let before = doc.to_string();
    match doc.reload("iface\n", 9) {
        Err(NetworkInterfacesError::Parser(e)) => assert_eq!(e.line, Some(1)),
        _ => panic!("expected a parse error"),
    }
    assert_eq!(doc.to_string(), before);
    assert!(doc.prepare_save(1).is_ok());
    doc.reload("iface eth0 inet dhcp\n", 9).unwrap();
    assert_eq!(doc.len(), 1);
    assert!(doc.get_interface("eth0").is_some());
    assert!(doc.prepare_save(9).is_ok());
    assert!(doc.prepare_save(10).is_err());
}

#[test]
fn error_descriptions() {
    assert_eq!(
        NetworkInterfacesError::FileModified.describe(),
        "The interfaces file has been modified on disk since it was last loaded."
    );
    assert_eq!(NetworkInterfacesError::Other("x".to_string()).describe(), "Error: x");
}

#[test]
fn edit_interface_in_place() {
    let mut doc = NetworkInterfaces::load_from("auto eth0\niface eth0 inet dhcp\n", None, None).unwrap();
    {
        let e = doc.get_interface_mut("eth0").unwrap();
        e.method = Some("static".to_string());
        e.options.push(("address".to_string(), "192.168.1.100".to_string()));
    }
    assert!(doc.get_interface_mut("eth9").is_none());
    assert_eq!(
        doc.to_string(),
        "\nauto eth0\niface eth0 inet static\n    address 192.168.1.100\n"
    );
}
