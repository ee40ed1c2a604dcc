//! A typed view of option lines: a known key's value read into the type it
//! stands for, and back. The parser and serializer keep options as plain
//! key/value pairs; this view is layered on top.

use vstd::prelude::*;
use crate::interface::texts;
use crate::text::{
    append_str, chars_of, decimal, decimal_text, is_text, join_spaced, parse_bounded, parse_uint,
    string_from, string_of, tokens, tokens_of, views,
};

verus! {

/// An option of an interface stanza, typed by its key.
#[derive(Debug, Clone, PartialEq)]
pub enum InterfaceOption {
    /// IP address, optionally with a prefix length (`address`).
    Address(String),
    /// Network mask (`netmask`).
    Netmask(String),
    /// Default gateway address (`gateway`).
    Gateway(String),
    /// Broadcast address (`broadcast`).
    Broadcast(String),
    /// Network address (`network`).
    Network(String),
    /// Maximum transmission unit (`mtu`).
    Mtu(u16),
    /// VLAN id of a bridge access port (`bridge-access`).
    BridgeAccess(u16),
    /// Member ports of a bridge (`bridge-ports`).
    BridgePorts(Vec<String>),
    /// Bridge port VLAN id (`bridge-pvid`).
    BridgePvid(u16),
    /// Bridge VLAN ids, possibly ranges such as `100-154 199` (`bridge-vids`).
    BridgeVids(String),
    /// Whether the bridge is VLAN-aware (`bridge-vlan-aware`).
    BridgeVlanAware(bool),
    /// MSTP BPDU guard (`mstpctl-bpduguard`).
    MstpctlBpduguard(bool),
    /// MSTP port admin edge (`mstpctl-portadminedge`).
    MstpctlPortadminedge(bool),
    /// Command run after the interface comes up (`post-up`).
    PostUp(String),
    /// Command run before the interface goes down (`pre-down`).
    PreDown(String),
    /// Command run after the interface goes down (`post-down`).
    PostDown(String),
    /// Command run before the interface comes up (`pre-up`).
    PreUp(String),
    /// VRF name (`vrf`).
    Vrf(String),
    /// VRF table: `auto` or a number (`vrf-table`).
    VrfTable(String),
    /// VLAN id (`vlan-id`).
    VlanId(u16),
    /// Raw device of a VLAN (`vlan-raw-device`).
    VlanRawDevice(String),
    /// Hardware (MAC) address (`hwaddress`).
    HwAddress(String),
    /// DNS name servers (`dns-nameservers`).
    DnsNameservers(String),
    /// DNS search domains (`dns-search`).
    DnsSearch(String),
    /// Route metric (`metric`).
    Metric(u32),
    /// Point-to-point address (`pointopoint`).
    Pointopoint(String),
    /// Media type (`media`).
    Media(String),
    /// Any other option, or a known numeric one whose value does not read as
    /// its number: key and value as written.
    Other(String, String),
}

/// The key that each typed option stands under.
pub open spec fn option_key(o: InterfaceOption) -> Seq<char> {
    match o {
        InterfaceOption::Address(_) => "address"@,
        InterfaceOption::Netmask(_) => "netmask"@,
        InterfaceOption::Gateway(_) => "gateway"@,
        InterfaceOption::Broadcast(_) => "broadcast"@,
        InterfaceOption::Network(_) => "network"@,
        InterfaceOption::Mtu(_) => "mtu"@,
        InterfaceOption::BridgeAccess(_) => "bridge-access"@,
        InterfaceOption::BridgePorts(_) => "bridge-ports"@,
        InterfaceOption::BridgePvid(_) => "bridge-pvid"@,
        InterfaceOption::BridgeVids(_) => "bridge-vids"@,
        InterfaceOption::BridgeVlanAware(_) => "bridge-vlan-aware"@,
        InterfaceOption::MstpctlBpduguard(_) => "mstpctl-bpduguard"@,
        InterfaceOption::MstpctlPortadminedge(_) => "mstpctl-portadminedge"@,
        InterfaceOption::PostUp(_) => "post-up"@,
        InterfaceOption::PreDown(_) => "pre-down"@,
        InterfaceOption::PostDown(_) => "post-down"@,
        InterfaceOption::PreUp(_) => "pre-up"@,
        InterfaceOption::Vrf(_) => "vrf"@,
        InterfaceOption::VrfTable(_) => "vrf-table"@,
        InterfaceOption::VlanId(_) => "vlan-id"@,
        InterfaceOption::VlanRawDevice(_) => "vlan-raw-device"@,
        InterfaceOption::HwAddress(_) => "hwaddress"@,
        InterfaceOption::DnsNameservers(_) => "dns-nameservers"@,
        InterfaceOption::DnsSearch(_) => "dns-search"@,
        InterfaceOption::Metric(_) => "metric"@,
        InterfaceOption::Pointopoint(_) => "pointopoint"@,
        InterfaceOption::Media(_) => "media"@,
        InterfaceOption::Other(k, _) => k@,
    }
}

/// `yes` or `no`.
pub open spec fn yes_no(b: bool) -> Seq<char> {
    if b {
        "yes"@
    } else {
        "no"@
    }
}

/// The value text of a typed option.
pub open spec fn option_value(o: InterfaceOption) -> Seq<char> {
    match o {
        InterfaceOption::Address(v) => v@,
        InterfaceOption::Netmask(v) => v@,
        InterfaceOption::Gateway(v) => v@,
        InterfaceOption::Broadcast(v) => v@,
        InterfaceOption::Network(v) => v@,
        InterfaceOption::Mtu(v) => decimal_text(v as nat),
        InterfaceOption::BridgeAccess(v) => decimal_text(v as nat),
        InterfaceOption::BridgePorts(v) => join_spaced(texts(v@)),
        InterfaceOption::BridgePvid(v) => decimal_text(v as nat),
        InterfaceOption::BridgeVids(v) => v@,
        InterfaceOption::BridgeVlanAware(v) => yes_no(v),
        InterfaceOption::MstpctlBpduguard(v) => yes_no(v),
        InterfaceOption::MstpctlPortadminedge(v) => yes_no(v),
        InterfaceOption::PostUp(v) => v@,
        InterfaceOption::PreDown(v) => v@,
        InterfaceOption::PostDown(v) => v@,
        InterfaceOption::PreUp(v) => v@,
        InterfaceOption::Vrf(v) => v@,
        InterfaceOption::VrfTable(v) => v@,
        InterfaceOption::VlanId(v) => decimal_text(v as nat),
        InterfaceOption::VlanRawDevice(v) => v@,
        InterfaceOption::HwAddress(v) => v@,
        InterfaceOption::DnsNameservers(v) => v@,
        InterfaceOption::DnsSearch(v) => v@,
        InterfaceOption::Metric(v) => decimal_text(v as nat),
        InterfaceOption::Pointopoint(v) => v@,
        InterfaceOption::Media(v) => v@,
        InterfaceOption::Other(_, v) => v@,
    }
}

/// Keys whose value is kept as text.
pub open spec fn is_text_key(k: Seq<char>) -> bool {
    k == "address"@
        || k == "netmask"@
        || k == "gateway"@
        || k == "broadcast"@
        || k == "network"@
        || k == "bridge-vids"@
        || k == "post-up"@
        || k == "pre-down"@
        || k == "post-down"@
        || k == "pre-up"@
        || k == "vrf"@
        || k == "vrf-table"@
        || k == "vlan-raw-device"@
        || k == "hwaddress"@
        || k == "dns-nameservers"@
        || k == "dns-search"@
        || k == "pointopoint"@
        || k == "media"@
}

/// The largest value of a key whose value is a number.
pub open spec fn numeric_bound(k: Seq<char>) -> Option<nat> {

    if k == "mtu"@ {
        Some(65535)
    } else if k == "bridge-access"@ {
        Some(65535)
    } else if k == "bridge-pvid"@ {
        Some(65535)
    } else if k == "vlan-id"@ {
        Some(65535)
    } else if k == "metric"@ {
        Some(4294967295)
    } else {
        None
    }
}

/// Keys whose value is a yes/no flag.
pub open spec fn is_bool_key(k: Seq<char>) -> bool {
    k == "bridge-vlan-aware"@ || k == "mstpctl-bpduguard"@ || k == "mstpctl-portadminedge"@
}

/// ASCII letters lowered.
pub open spec fn ascii_lower(s: Seq<char>) -> Seq<char> {
    s.map_values(|c: char| if 'A' <= c && c <= 'Z' { ((c as u8) + 32) as u8 as char } else { c })
}

/// Whether a flag's value is true: `yes`, `on`, `true` or `1`, in any case.
pub open spec fn truthy(v: Seq<char>) -> bool {
    let l = ascii_lower(v);
    l == "yes"@ || l == "on"@ || l == "true"@ || l == "1"@
}

/// Distinct keys are distinct texts.
proof fn lemma_key_literals()
    ensures
        "address"@[0] == 'a',
        "bridge-pvid"@[0] == 'b',
        "bridge-pvid"@[7] == 'p',
        "bridge-vids"@[0] == 'b',
        "bridge-vids"@[7] == 'v',
        "bridge-vlan-aware"@[0] == 'b',
        "broadcast"@[0] == 'b',
        "dns-nameservers"@[0] == 'd',
        "gateway"@[0] == 'g',
        "hwaddress"@[0] == 'h',
        "metric"@[0] == 'm',
        "mstpctl-bpduguard"@[0] == 'm',
        "mtu"@[0] == 'm',
        "netmask"@[0] == 'n',
        "netmask"@[3] == 'm',
        "network"@[0] == 'n',
        "network"@[3] == 'w',
        "pointopoint"@[0] == 'p',
        "post-down"@[0] == 'p',
        "post-up"@[0] == 'p',
        "pre-up"@[0] == 'p',
        "vlan-id"@[0] == 'v',
        "vlan-raw-device"@[0] == 'v',
        "vrf"@[0] == 'v',
        "vrf-table"@[0] == 'v',
        "address"@.len() == 7,
        "netmask"@.len() == 7,
        "gateway"@.len() == 7,
        "broadcast"@.len() == 9,
        "network"@.len() == 7,
        "mtu"@.len() == 3,
        "bridge-access"@.len() == 13,
        "bridge-ports"@.len() == 12,
        "bridge-pvid"@.len() == 11,
        "bridge-vids"@.len() == 11,
        "bridge-vlan-aware"@.len() == 17,
        "mstpctl-bpduguard"@.len() == 17,
        "mstpctl-portadminedge"@.len() == 21,
        "post-up"@.len() == 7,
        "pre-down"@.len() == 8,
        "post-down"@.len() == 9,
        "pre-up"@.len() == 6,
        "vrf"@.len() == 3,
        "vrf-table"@.len() == 9,
        "vlan-id"@.len() == 7,
        "vlan-raw-device"@.len() == 15,
        "hwaddress"@.len() == 9,
        "dns-nameservers"@.len() == 15,
        "dns-search"@.len() == 10,
        "metric"@.len() == 6,
        "pointopoint"@.len() == 11,
        "media"@.len() == 5,
{
    reveal_strlit("address");
    reveal_strlit("netmask");
    reveal_strlit("gateway");
    reveal_strlit("broadcast");
    reveal_strlit("network");
    reveal_strlit("mtu");
    reveal_strlit("bridge-access");
    reveal_strlit("bridge-ports");
    reveal_strlit("bridge-pvid");
    reveal_strlit("bridge-vids");
    reveal_strlit("bridge-vlan-aware");
    reveal_strlit("mstpctl-bpduguard");
    reveal_strlit("mstpctl-portadminedge");
    reveal_strlit("post-up");
    reveal_strlit("pre-down");
    reveal_strlit("post-down");
    reveal_strlit("pre-up");
    reveal_strlit("vrf");
    reveal_strlit("vrf-table");
    reveal_strlit("vlan-id");
    reveal_strlit("vlan-raw-device");
    reveal_strlit("hwaddress");
    reveal_strlit("dns-nameservers");
    reveal_strlit("dns-search");
    reveal_strlit("metric");
    reveal_strlit("pointopoint");
    reveal_strlit("media");
}

/// Whether `v` is a true flag, as [`truthy`] states.
fn parse_flag(v: &str) -> (r: bool)
    ensures
        r == truthy(v@),
{
    let c = chars_of(v);
    let mut low: Vec<char> = Vec::new();
    let mut i: usize = 0;
    while i < c.len()
        invariant
            i <= c@.len(),
            c@ == v@,
            low@ == ascii_lower(c@.subrange(0, i as int)),
        decreases c@.len() - i,
    {
        let ch = c[i];
        let l = if 'A' <= ch && ch <= 'Z' {
            ((ch as u8) + 32) as char
        } else {
            ch
        };
        low.push(l);
        i += 1;
        assert(low@ =~= ascii_lower(c@.subrange(0, i as int)));
    }
    assert(c@.subrange(0, c@.len() as int) =~= c@);
    is_text(low.as_slice(), "yes") || is_text(low.as_slice(), "on") || is_text(low.as_slice(), "true")
        || is_text(low.as_slice(), "1")
}

/// The words of `v` joined by single spaces.
fn join_strings(v: &Vec<String>) -> (r: String)
    ensures
        r@ == join_spaced(texts(v@)),
{
    let mut out = String::new();
    let mut i: usize = 0;
    let ghost t = texts(v@);
    assert(t.subrange(0, 0) =~= Seq::<Seq<char>>::empty());
    while i < v.len()
        invariant
            t == texts(v@),
            i <= v@.len(),
            out@ == join_spaced(t.subrange(0, i as int)),
        decreases v@.len() - i,
    {
        let ghost q = t.subrange(0, i as int + 1);
        assert(q.drop_last() =~= t.subrange(0, i as int));
        assert(q.last() == v@[i as int]@);
        if i > 0 {
            append_str(&mut out, " ");
            append_str(&mut out, v[i].as_str());
            proof {
                reveal_strlit(" ");
            }
            assert(out@ =~= join_spaced(q));
        } else {
            append_str(&mut out, v[i].as_str());
            assert(q.len() == 1);
            assert(out@ =~= join_spaced(q));
        }
        i += 1;
    }
    assert(t.subrange(0, t.len() as int) =~= t);
    out
}

impl InterfaceOption {
    /// The key the option stands under in the file.
    pub fn name(&self) -> (r: &str)
        ensures
            r@ == option_key(*self),
    {
        match self {
            InterfaceOption::Address(_) => "address",
            InterfaceOption::Netmask(_) => "netmask",
            InterfaceOption::Gateway(_) => "gateway",
            InterfaceOption::Broadcast(_) => "broadcast",
            InterfaceOption::Network(_) => "network",
            InterfaceOption::Mtu(_) => "mtu",
            InterfaceOption::BridgeAccess(_) => "bridge-access",
            InterfaceOption::BridgePorts(_) => "bridge-ports",
            InterfaceOption::BridgePvid(_) => "bridge-pvid",
            InterfaceOption::BridgeVids(_) => "bridge-vids",
            InterfaceOption::BridgeVlanAware(_) => "bridge-vlan-aware",
            InterfaceOption::MstpctlBpduguard(_) => "mstpctl-bpduguard",
            InterfaceOption::MstpctlPortadminedge(_) => "mstpctl-portadminedge",
            InterfaceOption::PostUp(_) => "post-up",
            InterfaceOption::PreDown(_) => "pre-down",
            InterfaceOption::PostDown(_) => "post-down",
            InterfaceOption::PreUp(_) => "pre-up",
            InterfaceOption::Vrf(_) => "vrf",
            InterfaceOption::VrfTable(_) => "vrf-table",
            InterfaceOption::VlanId(_) => "vlan-id",
            InterfaceOption::VlanRawDevice(_) => "vlan-raw-device",
            InterfaceOption::HwAddress(_) => "hwaddress",
            InterfaceOption::DnsNameservers(_) => "dns-nameservers",
            InterfaceOption::DnsSearch(_) => "dns-search",
            InterfaceOption::Metric(_) => "metric",
            InterfaceOption::Pointopoint(_) => "pointopoint",
            InterfaceOption::Media(_) => "media",
            InterfaceOption::Other(k, _) => k.as_str(),
        }
    }

    /// The option's value as written in the file.
    pub fn value(&self) -> (r: String)
        ensures
            r@ == option_value(*self),
    {
        match self {
            InterfaceOption::Address(v) => v.clone(),
            InterfaceOption::Netmask(v) => v.clone(),
            InterfaceOption::Gateway(v) => v.clone(),
            InterfaceOption::Broadcast(v) => v.clone(),
            InterfaceOption::Network(v) => v.clone(),
            InterfaceOption::Mtu(v) => decimal(*v as u64),
            InterfaceOption::BridgeAccess(v) => decimal(*v as u64),
            InterfaceOption::BridgePorts(v) => join_strings(v),
            InterfaceOption::BridgePvid(v) => decimal(*v as u64),
            InterfaceOption::BridgeVids(v) => v.clone(),
            InterfaceOption::BridgeVlanAware(v) => if *v {
                string_from("yes")
            } else {
                string_from("no")
            },
            InterfaceOption::MstpctlBpduguard(v) => if *v {
                string_from("yes")
            } else {
                string_from("no")
            },
            InterfaceOption::MstpctlPortadminedge(v) => if *v {
                string_from("yes")
            } else {
                string_from("no")
            },
            InterfaceOption::PostUp(v) => v.clone(),
            InterfaceOption::PreDown(v) => v.clone(),
            InterfaceOption::PostDown(v) => v.clone(),
            InterfaceOption::PreUp(v) => v.clone(),
            InterfaceOption::Vrf(v) => v.clone(),
            InterfaceOption::VrfTable(v) => v.clone(),
            InterfaceOption::VlanId(v) => decimal(*v as u64),
            InterfaceOption::VlanRawDevice(v) => v.clone(),
            InterfaceOption::HwAddress(v) => v.clone(),
            InterfaceOption::DnsNameservers(v) => v.clone(),
            InterfaceOption::DnsSearch(v) => v.clone(),
            InterfaceOption::Metric(v) => decimal(*v as u64),
            InterfaceOption::Pointopoint(v) => v.clone(),
            InterfaceOption::Media(v) => v.clone(),
            InterfaceOption::Other(_, v) => v.clone(),
        }
    }

    /// Reads the pair `key`, `value` into the typed option of that key. A
    /// number that does not read as its type, and any unknown key, give
    /// `Other` with the pair as written.
    pub fn from_key_value(key: &str, value: &str) -> (r: InterfaceOption)
        ensures
            option_key(r) == key@,
            is_text_key(key@) ==> !(r is Other) && option_value(r) == value@,
            numeric_bound(key@) is Some ==> match parse_uint(value@, numeric_bound(key@)->0) {
                Some(n) => !(r is Other) && option_value(r) == decimal_text(n),
                None => r is Other && option_value(r) == value@,
            },
            key@ == "bridge-ports"@ ==> r is BridgePorts && texts(r->BridgePorts_0@) == tokens(
                value@,
            ),
            is_bool_key(key@) ==> !(r is Other) && option_value(r) == yes_no(truthy(value@)),
            !is_text_key(key@) && numeric_bound(key@) is None && key@ != "bridge-ports"@
                && !is_bool_key(key@) ==> r is Other && option_value(r) == value@,
    {
        proof {
            lemma_key_literals();
        }
        let k = chars_of(key);
        let ks = k.as_slice();
        if is_text(ks, "address") {
            InterfaceOption::Address(string_from(value))
        } else if is_text(ks, "netmask") {
            InterfaceOption::Netmask(string_from(value))
        } else if is_text(ks, "gateway") {
            InterfaceOption::Gateway(string_from(value))
        } else if is_text(ks, "broadcast") {
            InterfaceOption::Broadcast(string_from(value))
        } else if is_text(ks, "network") {
            InterfaceOption::Network(string_from(value))
        } else if is_text(ks, "mtu") {
            match parse_bounded(value, 65535) {
                Some(n) => InterfaceOption::Mtu(n as u16),
                None => InterfaceOption::Other(string_from(key), string_from(value)),
            }
        } else if is_text(ks, "bridge-access") {
            match parse_bounded(value, 65535) {
                Some(n) => InterfaceOption::BridgeAccess(n as u16),
                None => InterfaceOption::Other(string_from(key), string_from(value)),
            }
        } else if is_text(ks, "bridge-ports") {
            let c = chars_of(value);
            let ws = tokens_of(c.as_slice());
            let mut ports: Vec<String> = Vec::new();
            let mut i: usize = 0;
            while i < ws.len()
                invariant
                    i <= ws@.len(),
                    texts(ports@) == views(ws@).subrange(0, i as int),
                decreases ws@.len() - i,
            {
                let ghost before = ports@;
                let w = string_of(ws[i].as_slice());
                ports.push(w);
                assert(texts(ports@) =~= texts(before).push(w@));
                i += 1;
                assert(texts(ports@) =~= views(ws@).subrange(0, i as int));
            }
            assert(views(ws@).subrange(0, ws@.len() as int) =~= views(ws@));
            InterfaceOption::BridgePorts(ports)
        } else if is_text(ks, "bridge-pvid") {
            match parse_bounded(value, 65535) {
                Some(n) => InterfaceOption::BridgePvid(n as u16),
                None => InterfaceOption::Other(string_from(key), string_from(value)),
            }
        } else if is_text(ks, "bridge-vids") {
            InterfaceOption::BridgeVids(string_from(value))
        } else if is_text(ks, "bridge-vlan-aware") {
            InterfaceOption::BridgeVlanAware(parse_flag(value))
        } else if is_text(ks, "mstpctl-bpduguard") {
            InterfaceOption::MstpctlBpduguard(parse_flag(value))
        } else if is_text(ks, "mstpctl-portadminedge") {
            InterfaceOption::MstpctlPortadminedge(parse_flag(value))
        } else if is_text(ks, "post-up") {
            InterfaceOption::PostUp(string_from(value))
        } else if is_text(ks, "pre-down") {
            InterfaceOption::PreDown(string_from(value))
        } else if is_text(ks, "post-down") {
            InterfaceOption::PostDown(string_from(value))
        } else if is_text(ks, "pre-up") {
            InterfaceOption::PreUp(string_from(value))
        } else if is_text(ks, "vrf") {
            InterfaceOption::Vrf(string_from(value))
        } else if is_text(ks, "vrf-table") {
            InterfaceOption::VrfTable(string_from(value))
        } else if is_text(ks, "vlan-id") {
            match parse_bounded(value, 65535) {
                Some(n) => InterfaceOption::VlanId(n as u16),
                None => InterfaceOption::Other(string_from(key), string_from(value)),
            }
        } else if is_text(ks, "vlan-raw-device") {
            InterfaceOption::VlanRawDevice(string_from(value))
        } else if is_text(ks, "hwaddress") {
            InterfaceOption::HwAddress(string_from(value))
        } else if is_text(ks, "dns-nameservers") {
            InterfaceOption::DnsNameservers(string_from(value))
        } else if is_text(ks, "dns-search") {
            InterfaceOption::DnsSearch(string_from(value))
        } else if is_text(ks, "metric") {
            match parse_bounded(value, 4294967295) {
                Some(n) => InterfaceOption::Metric(n as u32),
                None => InterfaceOption::Other(string_from(key), string_from(value)),
            }
        } else if is_text(ks, "pointopoint") {
            InterfaceOption::Pointopoint(string_from(value))
        } else if is_text(ks, "media") {
            InterfaceOption::Media(string_from(value))
        } else {
            InterfaceOption::Other(string_from(key), string_from(value))
        }
    }

    /// The option as a key/value pair.
    pub fn to_key_value(&self) -> (r: (String, String))
        ensures
            r.0@ == option_key(*self),
            r.1@ == option_value(*self),
    {
        (string_from(self.name()), self.value())
    }

    /// The option line's text: key, a space, value.
    pub fn to_string(&self) -> (r: String)
        ensures
            r@ == option_key(*self) + " "@ + option_value(*self),
    {
        let mut r = string_from(self.name());
        append_str(&mut r, " ");
        let v = self.value();
        append_str(&mut r, v.as_str());
        r
    }
}

} // verus!
