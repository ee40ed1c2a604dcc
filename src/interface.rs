//! The resolved configuration of one interface, its address family and
//! method, its `mapping` sub-stanza, and a builder for it.

use vstd::prelude::*;
use crate::text::{is_text, string_from, string_of};

verus! {

/// The address family declared on an `iface` line.
#[derive(Clone, Copy, Debug, PartialEq, Eq, Structural)]
pub enum Family {
    /// `inet` (IPv4).
    Inet,
    /// `inet6` (IPv6).
    Inet6,
    /// `ipx`.
    IpX,
    /// `can`.
    Can,
}

/// The text of a family as it stands in the file.
pub open spec fn family_text(f: Family) -> Seq<char> {
    match f {
        Family::Inet => "inet"@,
        Family::Inet6 => "inet6"@,
        Family::IpX => "ipx"@,
        Family::Can => "can"@,
    }
}

/// The family that the token `t` names, if any.
pub open spec fn family_of(t: Seq<char>) -> Option<Family> {
    if t == "inet"@ {
        Some(Family::Inet)
    } else if t == "inet6"@ {
        Some(Family::Inet6)
    } else if t == "ipx"@ {
        Some(Family::IpX)
    } else if t == "can"@ {
        Some(Family::Can)
    } else {
        None
    }
}

impl Family {
    /// The family named by the characters `t`, or `None` for any other token.
    pub fn from_chars(t: &[char]) -> (r: Option<Family>)
        ensures
            r == family_of(t@),
    {
        if is_text(t, "inet") {
            Some(Family::Inet)
        } else if is_text(t, "inet6") {
            Some(Family::Inet6)
        } else if is_text(t, "ipx") {
            Some(Family::IpX)
        } else if is_text(t, "can") {
            Some(Family::Can)
        } else {
            None
        }
    }

    /// The family's text, as written in the file.
    pub fn to_string(&self) -> (r: String)
        ensures
            r@ == family_text(*self),
    {
        match self {
            Family::Inet => string_from("inet"),
            Family::Inet6 => string_from("inet6"),
            Family::IpX => string_from("ipx"),
            Family::Can => string_from("can"),
        }
    }
}

impl core::str::FromStr for Family {
    type Err = crate::error::FamilyParseError;

    /// The family named by `s`; any other token is refused.
    fn from_str(s: &str) -> (r: Result<Family, crate::error::FamilyParseError>)
        ensures
            match family_of(s@) {
                Some(f) => r is Ok && r->Ok_0 == f,
                None => r is Err && r->Err_0.0@ == s@,
            },
    {
        let t = crate::text::chars_of(s);
        match Family::from_chars(t.as_slice()) {
            Some(f) => Ok(f),
            None => Err(crate::error::FamilyParseError(string_from(s))),
        }
    }
}

/// A configuration method: one of four known ones, or any other token kept as
/// it was written.
#[derive(Clone, Debug, PartialEq)]
pub enum Method {
    /// `static`.
    Static,
    /// `dhcp`.
    Dhcp,
    /// `loopback`.
    Loopback,
    /// `manual`.
    Manual,
    /// Any other method, by its text.
    Other(String),
}

/// Whether `t` is the text of one of the four known methods.
pub open spec fn is_known_method(t: Seq<char>) -> bool {
    t == "static"@ || t == "dhcp"@ || t == "loopback"@ || t == "manual"@
}

impl View for Method {
    type V = Seq<char>;

    /// A method is seen as its text.
    open spec fn view(&self) -> Seq<char> {
        match self {
            Method::Static => "static"@,
            Method::Dhcp => "dhcp"@,
            Method::Loopback => "loopback"@,
            Method::Manual => "manual"@,
            Method::Other(s) => s@,
        }
    }
}

impl Method {
    /// The method written as `t`; a token that is not one of the four known
    /// methods becomes `Other`.
    pub fn from_chars(t: &[char]) -> (r: Method)
        ensures
            r@ == t@,
            r is Other <==> !is_known_method(t@),
    {
        if is_text(t, "static") {
            Method::Static
        } else if is_text(t, "dhcp") {
            Method::Dhcp
        } else if is_text(t, "loopback") {
            Method::Loopback
        } else if is_text(t, "manual") {
            Method::Manual
        } else {
            Method::Other(string_of(t))
        }
    }

    /// The method's text, as written in the file.
    pub fn to_string(&self) -> (r: String)
        ensures
            r@ == self@,
    {
        match self {
            Method::Static => string_from("static"),
            Method::Dhcp => string_from("dhcp"),
            Method::Loopback => string_from("loopback"),
            Method::Manual => string_from("manual"),
            Method::Other(s) => s.clone(),
        }
    }
}

impl core::str::FromStr for Method {
    type Err = core::convert::Infallible;

    /// The method written as `s`; never fails, unknown methods become `Other`.
    fn from_str(s: &str) -> (r: Result<Method, core::convert::Infallible>)
        ensures
            r is Ok && r->Ok_0@ == s@ && (r->Ok_0 is Other <==> !is_known_method(s@)),
    {
        let t = crate::text::chars_of(s);
        Ok(Method::from_chars(t.as_slice()))
    }
}

/// A `mapping` sub-stanza: the script that is run and its `map` lines.
#[derive(Clone, Debug)]
pub struct Mapping {
    /// The script to be used for mapping.
    pub script: String,
    /// The `map` lines, in order.
    pub maps: Vec<String>,
}

/// The mathematical value of a [`Mapping`].
pub struct MappingModel {
    pub script: Seq<char>,
    pub maps: Seq<Seq<char>>,
}

/// The texts held by a sequence of strings.
pub open spec fn texts(v: Seq<String>) -> Seq<Seq<char>> {
    v.map_values(|s: String| s@)
}

/// The texts held by a sequence of key/value string pairs.
pub open spec fn text_pairs(v: Seq<(String, String)>) -> Seq<(Seq<char>, Seq<char>)> {
    v.map_values(|p: (String, String)| (p.0@, p.1@))
}

/// The text of an optional string.
pub open spec fn opt_text(o: Option<String>) -> Option<Seq<char>> {
    match o {
        Some(s) => Some(s@),
        None => None,
    }
}

impl View for Mapping {
    type V = MappingModel;

    open spec fn view(&self) -> MappingModel {
        MappingModel { script: self.script@, maps: texts(self.maps@) }
    }
}

/// The value of an optional mapping.
pub open spec fn opt_mapping(o: Option<Mapping>) -> Option<MappingModel> {
    match o {
        Some(m) => Some(m@),
        None => None,
    }
}

/// The mathematical value of an [`Interface`]: one stanza's resolved
/// configuration.
pub struct InterfaceModel {
    pub name: Seq<char>,
    pub auto: bool,
    pub allow: Seq<Seq<char>>,
    pub family: Option<Family>,
    pub method: Option<Seq<char>>,
    pub options: Seq<(Seq<char>, Seq<char>)>,
    pub mapping: Option<MappingModel>,
}

/// A fresh entry for `name`: not automatic, no allow tags, family, method,
/// options or mapping.
pub open spec fn fresh_model(name: Seq<char>) -> InterfaceModel {
    InterfaceModel {
        name,
        auto: false,
        allow: Seq::empty(),
        family: None,
        method: None,
        options: Seq::empty(),
        mapping: None,
    }
}

/// One interface's configuration, as one `iface` stanza and the directives
/// that name it describe it.
#[derive(Clone, Debug)]
pub struct Interface {
    /// The name of the interface (e.g., `"eth0"`).
    pub name: String,
    /// Whether the interface starts automatically.
    pub auto: bool,
    /// The tags of its `allow-*` directives, in order.
    pub allow: Vec<String>,
    /// The address family, if one was declared.
    pub family: Option<Family>,
    /// The method of configuration (e.g., `"static"`, `"dhcp"`).
    pub method: Option<String>,
    /// The option lines of its stanza, as key and value.
    pub options: Vec<(String, String)>,
    /// Its `mapping` sub-stanza, if any.
    pub mapping: Option<Mapping>,
}

impl View for Interface {
    type V = InterfaceModel;

    open spec fn view(&self) -> InterfaceModel {
        InterfaceModel {
            name: self.name@,
            auto: self.auto,
            allow: texts(self.allow@),
            family: self.family,
            method: opt_text(self.method),
            options: text_pairs(self.options@),
            mapping: opt_mapping(self.mapping),
        }
    }
}

} // verus!
