use interface_rs::{Family, NetworkInterfaces, NetworkInterfacesError, Parser};

#[test]
fn test_parse_iface_without_family_and_method() {
    let content = r#"
auto eth0
iface eth0
    address 10.130.17.36/255.255.255.128
    vrf mgmt
"#;
    let parser = Parser::new();
    let parsed = parser.parse(content).unwrap();
    let interfaces = &parsed.interfaces;
    assert!(interfaces.contains_key("eth0"));
    let iface = interfaces.get("eth0").unwrap();
    assert_eq!(iface.name, "eth0");
    assert_eq!(iface.family, None);
    assert_eq!(iface.method, None);
    assert!(iface.options.contains(&("address".to_string(), "10.130.17.36/255.255.255.128".to_string())));
    assert!(iface.options.contains(&("vrf".to_string(), "mgmt".to_string())));
}

#[test]
fn test_parse_iface_with_family_and_method() {
    let content = r#"
iface eth1 inet static
    address 192.168.1.10
    netmask 255.255.255.0
"#;
    let parser = Parser::new();
    let parsed = parser.parse(content).unwrap();
    let interfaces = &parsed.interfaces;
    assert!(interfaces.contains_key("eth1"));
    let iface = interfaces.get("eth1").unwrap();
    assert_eq!(iface.name, "eth1");
    assert_eq!(iface.family, Some(Family::Inet));
    assert_eq!(iface.method.as_deref(), Some("static"));
    assert!(iface.options.contains(&("address".to_string(), "192.168.1.10".to_string())));
    assert!(iface.options.contains(&("netmask".to_string(), "255.255.255.0".to_string())));
}

fn check_three(content: &str) {
    let parser = Parser::new();
    let parsed = parser.parse(content).unwrap();
    let interfaces = &parsed.interfaces;

    assert_eq!(interfaces.len(), 3);

    let lo_iface = interfaces.get("lo").unwrap();
    assert_eq!(lo_iface.name, "lo");
    assert_eq!(lo_iface.auto, true);
    assert_eq!(lo_iface.family, Some(Family::Inet));
    assert_eq!(lo_iface.method.as_deref(), Some("loopback"));

    let eth0_iface = interfaces.get("eth0").unwrap();
    assert_eq!(eth0_iface.name, "eth0");
    assert_eq!(eth0_iface.auto, true);
    assert_eq!(eth0_iface.family, Some(Family::Inet));
    assert_eq!(eth0_iface.method.as_deref(), Some("dhcp"));

    let wlan0_iface = interfaces.get("wlan0").unwrap();
    assert_eq!(wlan0_iface.name, "wlan0");
    assert_eq!(wlan0_iface.auto, true);
    assert_eq!(wlan0_iface.family, Some(Family::Inet));
    assert_eq!(wlan0_iface.method.as_deref(), Some("static"));
    assert!(wlan0_iface.options.contains(&("address".to_string(), "192.168.0.100".to_string())));
    assert!(wlan0_iface.options.contains(&("netmask".to_string(), "255.255.255.0".to_string())));
}

#[test]
fn test_parse_multiple_interfaces() {
    check_three(
        r#"
auto lo
iface lo inet loopback

auto eth0
iface eth0 inet dhcp

auto wlan0
iface wlan0 inet static
    address 192.168.0.100
    netmask 255.255.255.0
"#,
    );
}

#[test]
fn test_parse_multiple_interfaces_strange_order() {
    check_three(
        r#"
iface lo inet loopback
iface eth0 inet dhcp
auto eth0

auto wlan0
auto lo
iface wlan0 inet static
    address 192.168.0.100
    netmask 255.255.255.0
"#,
    );
}

#[test]
fn loopback_scenario_parses_and_renders() {
    let content = "auto lo\niface lo inet loopback\n";
    let doc = NetworkInterfaces::load_from(content, None, None).unwrap();
    assert_eq!(doc.len(), 1);
    let lo = doc.get_interface("lo").unwrap();
    assert_eq!(lo.name, "lo");
    assert!(lo.auto);
    assert_eq!(lo.family, Some(Family::Inet));
    assert_eq!(lo.method.as_deref(), Some("loopback"));
    assert!(lo.options.is_empty());
    assert_eq!(doc.to_string(), "\nauto lo\niface lo inet loopback\n");
}

#[test]
fn iface_before_auto_gives_one_entry() {
    let content = "iface eth0 inet dhcp\nauto eth0\n";
    let doc = NetworkInterfaces::load_from(content, None, None).unwrap();
    assert_eq!(doc.len(), 1);
    let eth0 = doc.get_interface("eth0").unwrap();
    assert!(eth0.auto);
    assert_eq!(eth0.method.as_deref(), Some("dhcp"));
}

#[test]
fn every_directive_order_gives_the_same_entry() {
    let a = "auto X\n";
    let b = "allow-hotplug X\n";
    let c = "iface X inet static\n    address 10.0.0.1\n    mtu 9000\n";
    let orders = [
        format!("{}{}{}", a, b, c),
        format!("{}{}{}", b, a, c),
        format!("{}{}{}", a, c, b),
        format!("{}{}{}", b, c, a),
        format!("{}{}{}", c, a, b),
        format!("{}{}{}", c, b, a),
    ];
    for text in orders.iter() {
        let parsed = Parser::new().parse(text).unwrap();
        assert_eq!(parsed.interfaces.len(), 1);
        let x = parsed.interfaces.get("X").unwrap();
        assert!(x.auto);
        assert_eq!(x.allow, vec!["hotplug".to_string()]);
        assert_eq!(x.family, Some(Family::Inet));
        assert_eq!(x.method.as_deref(), Some("static"));
        assert_eq!(
            x.options,
            vec![
                ("address".to_string(), "10.0.0.1".to_string()),
                ("mtu".to_string(), "9000".to_string())
            ]
        );
    }
}

#[test]
fn repeated_names_stay_unique() {
    let content = "auto eth0 eth0\nallow-hotplug eth0\nallow-hotplug eth0\niface eth0 inet dhcp\niface eth0\n    mtu 1500\n";
    let parsed = Parser::new().parse(content).unwrap();
    assert_eq!(parsed.interfaces.len(), 1);
    let e = parsed.interfaces.get("eth0").unwrap();
    assert_eq!(e.allow, vec!["hotplug".to_string(), "hotplug".to_string()]);
    assert_eq!(e.method.as_deref(), Some("dhcp"));
    assert_eq!(e.options, vec![("mtu".to_string(), "1500".to_string())]);
}

#[test]
fn unknown_family_becomes_method() {
    let parsed = Parser::new().parse("iface ppp0 provider extra\n").unwrap();
    let e = parsed.interfaces.get("ppp0").unwrap();
    assert_eq!(e.family, None);
    assert_eq!(e.method.as_deref(), Some("provider"));
}

#[test]
fn missing_iface_name_reports_line() {
    let err = Parser::new().parse("auto lo\n\niface\n").err().unwrap();
    assert_eq!(err.line, Some(3));
    assert_eq!(
        err.describe(),
        "Parser error on line 3: Missing interface name in 'iface' stanza"
    );
    match NetworkInterfaces::load_from("iface\n", None, None) {
        Err(NetworkInterfacesError::Parser(e)) => assert_eq!(e.line, Some(1)),
        _ => panic!("expected a parse error"),
    }
}

#[test]
fn leading_comments_and_sources_are_kept() {
    let content = "# managed\n# by hand\nsource /etc/network/interfaces.d/*\nauto lo\n# dropped\niface lo inet loopback\n";
    let parsed = Parser::new().parse(content).unwrap();
    assert_eq!(parsed.comments, vec!["# managed".to_string(), "# by hand".to_string()]);
    assert_eq!(parsed.sources, vec!["source /etc/network/interfaces.d/*".to_string()]);
}

#[test]
fn mapping_stanza_is_attached() {
    let content = "mapping eth0\n    script /usr/local/bin/map-scripts\n    map home eth0-home\n    map work eth0-work\n";
    let doc = NetworkInterfaces::load_from(content, None, None).unwrap();
    let e = doc.get_interface("eth0").unwrap();
    let m = e.mapping.as_ref().unwrap();
    assert_eq!(m.script, "/usr/local/bin/map-scripts");
    assert_eq!(m.maps, vec!["home eth0-home".to_string(), "work eth0-work".to_string()]);
    assert_eq!(
        doc.to_string(),
        "\nmapping eth0\n    script /usr/local/bin/map-scripts\n    map home eth0-home\n    map work eth0-work\niface eth0\n"
    );
}

#[test]
fn canonical_text_round_trips() {
    let text = "# header\nsource /etc/network/interfaces.d/*\n\nauto eth0\niface eth0 inet static\n    address 10.0.0.1\n    netmask 255.0.0.0\n\nauto lo\niface lo inet loopback\n\nauto swp2\nallow-hotplug swp2\niface swp2 inet dhcp\n\niface swp10 inet manual\n    mtu 9216\n";
    let doc = NetworkInterfaces::load_from(text, None, None).unwrap();
    assert_eq!(doc.to_string(), text);
}

#[test]
fn rendering_sorts_names_and_options() {
    let text = "iface swp10\n    mtu 9000\n    address 1.1.1.1\niface swp2\n";
    let doc = NetworkInterfaces::load_from(text, None, None).unwrap();
    assert_eq!(
        doc.to_string(),
        "\niface swp2\n\niface swp10\n    address 1.1.1.1\n    mtu 9000\n"
    );
}

#[test]
fn empty_input_is_an_empty_document() {
    let doc = NetworkInterfaces::load_from("", None, None).unwrap();
    assert!(doc.is_empty());
    assert_eq!(doc.to_string(), "");
}

#[test]
fn natural_ties_render_the_same_in_any_order() {
    let mut a = NetworkInterfaces::load_from("", None, None).unwrap();
    a.add_interface(interface_rs::Interface::builder("swp1").build());
    a.add_interface(interface_rs::Interface::builder("swp01").build());
    let mut b = NetworkInterfaces::load_from("", None, None).unwrap();
    b.add_interface(interface_rs::Interface::builder("swp01").build());
    b.add_interface(interface_rs::Interface::builder("swp1").build());
    assert_eq!(a.to_string(), b.to_string());
    assert_eq!(a.to_string(), "\niface swp01\n\niface swp1\n");
}

#[test]
fn indented_directive_is_an_option() {
    let content = "iface eth0 inet static\n    auto x\n    iface y\nmapping m0\n    script /bin/s\n  map a b\n";
    let parsed = Parser::new().parse(content).unwrap();
    assert_eq!(parsed.interfaces.len(), 2);
    let e = parsed.interfaces.get("eth0").unwrap();
    assert!(!e.auto);
    assert_eq!(
        e.options,
        vec![
            ("auto".to_string(), "x".to_string()),
            ("iface".to_string(), "y".to_string())
        ]
    );
    assert!(parsed.interfaces.get("x").is_none());
    let m = parsed.interfaces.get("m0").unwrap().mapping.as_ref().unwrap();
    assert_eq!(m.script, "/bin/s");
    assert_eq!(m.maps, vec!["a b".to_string()]);
}

#[test]
fn parse_error_keeps_message() {
    match NetworkInterfaces::load_from("auto lo\niface\n", None, None) {
        Err(NetworkInterfacesError::Parser(e)) => {
            assert_eq!(e.line, Some(2));
            assert_eq!(e.message, "Missing interface name in 'iface' stanza");
        }
        _ => panic!("expected a parse error"),
    }
}
