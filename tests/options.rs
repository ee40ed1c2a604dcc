use interface_rs::{Family, Interface, InterfaceOption, Method};
use std::str::FromStr;

#[test]
fn test_remove_option() {
    let iface = Interface::builder("eth0")
        .with_option("address", "192.168.1.50")
        .with_option("netmask", "255.255.255.0")
        .with_option("address", "192.168.1.51")
        .remove_option("address")
        .build();

    assert_eq!(iface.options.len(), 1);
    assert_eq!(
        iface.options[0],
        ("netmask".to_string(), "255.255.255.0".to_string())
    );
}

#[test]
fn test_remove_option_value() {
    let iface = Interface::builder("eth0")
        .with_option("address", "192.168.1.50")
        .with_option("netmask", "255.255.255.0")
        .with_option("address", "192.168.1.51")
        .with_option("address", "192.168.1.52")
        .remove_option_value("address", "192.168.1.50")
        .build();

    assert_eq!(iface.options.len(), 3);
    assert!(iface
        .options
        .contains(&("netmask".to_string(), "255.255.255.0".to_string())));
    assert!(iface
        .options
        .contains(&("address".to_string(), "192.168.1.51".to_string())));
    assert!(iface
        .options
        .contains(&("address".to_string(), "192.168.1.52".to_string())));
}

#[test]
fn test_method_from_str() {
    assert_eq!(Method::from_str("static").unwrap(), Method::Static);
    assert_eq!(Method::from_str("dhcp").unwrap(), Method::Dhcp);
    assert_eq!(Method::from_str("loopback").unwrap(), Method::Loopback);
    assert_eq!(Method::from_str("manual").unwrap(), Method::Manual);
    assert_eq!(
        Method::from_str("ppp").unwrap(),
        Method::Other("ppp".to_string())
    );
}

#[test]
fn test_method_display() {
    assert_eq!(Method::Static.to_string(), "static");
    assert_eq!(Method::Dhcp.to_string(), "dhcp");
    assert_eq!(Method::Loopback.to_string(), "loopback");
    assert_eq!(Method::Manual.to_string(), "manual");
    assert_eq!(Method::Other("ppp".to_string()).to_string(), "ppp");
}

#[test]
fn test_from_key_value_address() {
    let opt = InterfaceOption::from_key_value("address", "192.168.1.100");
    assert_eq!(opt, InterfaceOption::Address("192.168.1.100".to_string()));
    assert_eq!(opt.name(), "address");
    assert_eq!(opt.value(), "192.168.1.100");
}

#[test]
fn test_from_key_value_mtu() {
    let opt = InterfaceOption::from_key_value("mtu", "9216");
    assert_eq!(opt, InterfaceOption::Mtu(9216));
    assert_eq!(opt.name(), "mtu");
    assert_eq!(opt.value(), "9216");
}

#[test]
fn test_from_key_value_bridge_ports() {
    let opt = InterfaceOption::from_key_value("bridge-ports", "swp1 swp2 swp3");
    assert_eq!(
        opt,
        InterfaceOption::BridgePorts(vec![
            "swp1".to_string(),
            "swp2".to_string(),
            "swp3".to_string()
        ])
    );
    assert_eq!(opt.value(), "swp1 swp2 swp3");
}

#[test]
fn test_from_key_value_bridge_vlan_aware() {
    let opt_yes = InterfaceOption::from_key_value("bridge-vlan-aware", "yes");
    assert_eq!(opt_yes, InterfaceOption::BridgeVlanAware(true));
    assert_eq!(opt_yes.value(), "yes");

    let opt_no = InterfaceOption::from_key_value("bridge-vlan-aware", "no");
    assert_eq!(opt_no, InterfaceOption::BridgeVlanAware(false));
    assert_eq!(opt_no.value(), "no");
}

#[test]
fn test_from_key_value_unknown() {
    let opt = InterfaceOption::from_key_value("custom-option", "custom-value");
    assert_eq!(
        opt,
        InterfaceOption::Other("custom-option".to_string(), "custom-value".to_string())
    );
    assert_eq!(opt.name(), "custom-option");
    assert_eq!(opt.value(), "custom-value");
}

#[test]
fn test_display() {
    let opt = InterfaceOption::Mtu(1500);
    assert_eq!(opt.to_string(), "mtu 1500");

    let opt = InterfaceOption::BridgeVlanAware(true);
    assert_eq!(opt.to_string(), "bridge-vlan-aware yes");
}

#[test]
fn test_to_key_value() {
    let opt = InterfaceOption::Gateway("192.168.1.1".to_string());
    let (key, value) = opt.to_key_value();
    assert_eq!(key, "gateway");
    assert_eq!(value, "192.168.1.1");
}

#[test]
fn option_number_out_of_range_stays_text() {
    let opt = InterfaceOption::from_key_value("mtu", "70000");
    assert_eq!(opt, InterfaceOption::Other("mtu".to_string(), "70000".to_string()));
    let opt = InterfaceOption::from_key_value("metric", "4294967295");
    assert_eq!(opt, InterfaceOption::Metric(4294967295));
    let opt = InterfaceOption::from_key_value("vlan-id", "+007");
    assert_eq!(opt, InterfaceOption::VlanId(7));
    assert_eq!(opt.value(), "7");
    let opt = InterfaceOption::from_key_value("bridge-pvid", "");
    assert_eq!(opt, InterfaceOption::Other("bridge-pvid".to_string(), "".to_string()));
}

#[test]
fn option_flags_ignore_case() {
    assert_eq!(
        InterfaceOption::from_key_value("mstpctl-bpduguard", "ON"),
        InterfaceOption::MstpctlBpduguard(true)
    );
    assert_eq!(
        InterfaceOption::from_key_value("mstpctl-portadminedge", "True"),
        InterfaceOption::MstpctlPortadminedge(true)
    );
    assert_eq!(
        InterfaceOption::from_key_value("bridge-vlan-aware", "maybe"),
        InterfaceOption::BridgeVlanAware(false)
    );
}

#[test]
fn family_text_round_trip() {
    assert_eq!(Family::from_str("inet6").unwrap(), Family::Inet6);
    assert_eq!(Family::from_str("can").unwrap(), Family::Can);
    assert!(Family::from_str("inet7").is_err());
    assert_eq!(Family::IpX.to_string(), "ipx");
}

#[test]
fn builder_sets_every_field() {
    let iface = Interface::builder("swp1")
        .with_auto(true)
        .with_allow("hotplug")
        .with_family(Family::Inet)
        .with_method("static")
        .with_option("address", "192.168.100.1")
        .build();
    assert_eq!(iface.name, "swp1");
    assert!(iface.auto);
    assert_eq!(iface.allow, vec!["hotplug".to_string()]);
    assert_eq!(iface.family, Some(Family::Inet));
    assert_eq!(iface.method.as_deref(), Some("static"));
    let edited = iface.edit().with_method("dhcp").remove_option("address").build();
    assert_eq!(edited.method.as_deref(), Some("dhcp"));
    assert!(edited.options.is_empty());
    assert_eq!(edited.allow, vec!["hotplug".to_string()]);
}

#[test]
fn family_from_str_refuses_with_token() {
    assert_eq!(Family::from_str("inet").unwrap(), Family::Inet);
    assert_eq!(Family::from_str("ipx").unwrap(), Family::IpX);
    match Family::from_str("bogus") {
        Err(e) => assert_eq!(e.0, "bogus"),
        Ok(_) => panic!("expected an error"),
    }
}
