//! The document: the interfaces of one file with its leading comments,
//! `source` lines, path and last observed modification time, and the
//! optimistic-concurrency guard that protects saving it.

use vstd::prelude::*;
use crate::directory::{lookup, Directory};
use crate::error::{NetworkInterfacesError, ParserError};
use crate::interface::{texts, Interface, InterfaceModel};
use crate::parser::{parse_text, ParseState, Parser};
use crate::serializer::{render, render_text};
use crate::text::{decimal, decimal_text, parse_bounded, parse_uint, string_from, append_str};

verus! {

/// The interfaces of one `interfaces(5)` file and what is needed to write it
/// back.
pub struct NetworkInterfaces {
    interfaces: Directory,
    path: Option<String>,
    last_modified: Option<u128>,
    comments: Vec<String>,
    sources: Vec<String>,
}

/// The message of the error for a document without a path.
pub open spec fn no_path_message() -> Seq<char> {
    "No file path specified"@
}

impl NetworkInterfaces {
    /// The directory of interfaces.
    pub closed spec fn dir(&self) -> Seq<InterfaceModel> {
        self.interfaces@
    }

    /// The leading comment lines.
    pub closed spec fn comment_lines(&self) -> Seq<Seq<char>> {
        texts(self.comments@)
    }

    /// The `source` lines.
    pub closed spec fn source_lines(&self) -> Seq<Seq<char>> {
        texts(self.sources@)
    }

    /// The path of the file, if any.
    pub closed spec fn file_path(&self) -> Option<Seq<char>> {
        match self.path {
            Some(p) => Some(p@),
            None => None,
        }
    }

    /// The modification time recorded at the last load or save.
    pub closed spec fn modified(&self) -> Option<u128> {
        self.last_modified
    }

    /// The document's invariant: one entry per name.
    pub closed spec fn wf(&self) -> bool {
        self.interfaces.wf()
    }

    /// Whether the document holds exactly what the parser state `st` holds.
    pub open spec fn holds(&self, st: ParseState) -> bool {
        &&& self.wf()
        &&& self.dir() == st.dir
        &&& self.comment_lines() == st.comments
        &&& self.source_lines() == st.sources
    }

    /// The document that `content` describes, read from `path` at
    /// modification time `modified`. Fails exactly where the parser does,
    /// with its error; no partial document is returned.
    pub fn load_from(content: &str, path: Option<String>, modified: Option<u128>) -> (r: Result<
        NetworkInterfaces,
        NetworkInterfacesError,
    >)
        ensures
            match parse_text(content@) {
                Ok(st) => r is Ok && r->Ok_0.holds(st) && r->Ok_0.modified() == modified
                    && r->Ok_0.file_path() == (match path {
                    Some(p) => Some(p@),
                    None => None::<Seq<char>>,
                }),
                Err(n) => r is Err && r->Err_0 is Parser && r->Err_0->Parser_0.line == Some(
                    n as usize,
                ) && r->Err_0->Parser_0.message@ == crate::parser::missing_name_message(),
            },
    {
        let parser = Parser::new();
        match parser.parse(content) {
            Ok(p) => Ok(
                NetworkInterfaces {
                    interfaces: p.interfaces,
                    path,
                    last_modified: modified,
                    comments: p.comments,
                    sources: p.sources,
                },
            ),
            Err(e) => Err(NetworkInterfacesError::Parser(e)),
        }
    }

    /// The interface named `name`, if any.
    pub fn get_interface(&self, name: &str) -> (r: Option<&Interface>)
        requires
            self.wf(),
        ensures
            match r {
                Some(e) => lookup(self.dir(), name@) == Some(e@),
                None => lookup(self.dir(), name@) is None,
            },
    {
        self.interfaces.get(name)
    }

    /// The interface named `name`, if any, for editing in place. The document
    /// keeps one entry per name as long as the edit keeps the name.
    pub fn get_interface_mut(&mut self, name: &str) -> (r: Option<&mut Interface>)
        requires
            old(self).wf(),
        ensures
            final(self).comment_lines() == old(self).comment_lines(),
            final(self).source_lines() == old(self).source_lines(),
            final(self).file_path() == old(self).file_path(),
            final(self).modified() == old(self).modified(),
            match r {
                Some(e) => {
                    &&& crate::directory::position(old(self).dir(), name@) >= 0
                    &&& (*e)@ == old(self).dir()[crate::directory::position(old(self).dir(), name@)]
                    &&& final(self).dir() == old(self).dir().update(
                        crate::directory::position(old(self).dir(), name@),
                        (*final(e))@,
                    )
                    &&& (*final(e))@.name == name@ ==> final(self).wf()
                },
                None => {
                    &&& crate::directory::position(old(self).dir(), name@) == -1
                    &&& final(self).dir() == old(self).dir()
                    &&& final(self).wf()
                },
            },
    {
        self.interfaces.get_mut(name)
    }

    /// Adds `iface`, replacing whole any interface of the same name.
    pub fn add_interface(&mut self, iface: Interface)
        requires
            old(self).wf(),
        ensures
            final(self).wf(),
            crate::directory::position(old(self).dir(), iface@.name) >= 0 ==> final(self).dir()
                == old(self).dir().update(
                crate::directory::position(old(self).dir(), iface@.name),
                iface@,
            ),
            crate::directory::position(old(self).dir(), iface@.name) == -1 ==> final(self).dir()
                == old(self).dir().push(iface@),
            final(self).comment_lines() == old(self).comment_lines(),
            final(self).source_lines() == old(self).source_lines(),
            final(self).file_path() == old(self).file_path(),
            final(self).modified() == old(self).modified(),
    {
        self.interfaces.insert(iface);
    }

    /// Deletes the interface named `name`, if present.
    pub fn delete_interface(&mut self, name: &str)
        requires
            old(self).wf(),
        ensures
            final(self).wf(),
            crate::directory::position(old(self).dir(), name@) >= 0 ==> final(self).dir()
                == old(self).dir().remove(crate::directory::position(old(self).dir(), name@)),
            crate::directory::position(old(self).dir(), name@) == -1 ==> final(self).dir()
                == old(self).dir(),
            final(self).comment_lines() == old(self).comment_lines(),
            final(self).source_lines() == old(self).source_lines(),
            final(self).file_path() == old(self).file_path(),
            final(self).modified() == old(self).modified(),
    {
        self.interfaces.remove(name);
    }

    /// The number of interfaces.
    pub fn len(&self) -> (r: usize)
        ensures
            r == self.dir().len(),
    {
        self.interfaces.len()
    }

    /// Whether there are no interfaces.
    pub fn is_empty(&self) -> (r: bool)
        ensures
            r == (self.dir().len() == 0),
    {
        self.interfaces.is_empty()
    }

    /// The interfaces, in the directory's order.
    pub fn iter(&self) -> (r: &[Interface])
        ensures
            crate::directory::models(r@) == self.dir(),
    {
        self.interfaces.entries()
    }

    /// The canonical text of the document.
    pub fn to_string(&self) -> (r: String)
        ensures
            r@ == render_text(self.comment_lines(), self.source_lines(), self.dir()),
    {
        render(&self.comments, &self.sources, &self.interfaces)
    }

    /// The path to save to or reload from; an error for a document without one.
    pub fn file_path_or_error(&self) -> (r: Result<String, NetworkInterfacesError>)
        ensures
            match self.file_path() {
                Some(p) => r is Ok && r->Ok_0@ == p,
                None => r is Err && r->Err_0 is Other && r->Err_0->Other_0@ == no_path_message(),
            },
    {
        match &self.path {
            Some(p) => Ok(p.clone()),
            None => Err(NetworkInterfacesError::Other(string_from("No file path specified"))),
        }
    }

    /// The save guard, given the file's current modification time on disk:
    /// refuses with `FileModified` exactly where that time is strictly newer
    /// than the one recorded, and otherwise hands back the text to write.
    pub fn prepare_save(&self, on_disk: u128) -> (r: Result<String, NetworkInterfacesError>)
        ensures
            match self.modified() {
                Some(t) if on_disk > t => r is Err && r->Err_0 is FileModified,
                _ => r is Ok && r->Ok_0@ == render_text(
                    self.comment_lines(),
                    self.source_lines(),
                    self.dir(),
                ),
            },
    {
        match self.last_modified {
            Some(t) => {
                if on_disk > t {
                    return Err(NetworkInterfacesError::FileModified);
                }
            },
            None => {},
        }
        Ok(self.to_string())
    }

    /// Records that the file was written at time `now`.
    pub fn mark_saved(&mut self, now: u128)
        ensures
            final(self).modified() == Some(now),
            final(self).dir() == old(self).dir(),
            final(self).wf() == old(self).wf(),
            final(self).comment_lines() == old(self).comment_lines(),
            final(self).source_lines() == old(self).source_lines(),
            final(self).file_path() == old(self).file_path(),
    {
        self.last_modified = Some(now);
    }

    /// Replaces the document's interfaces, comments, sources and timestamp by
    /// those of `content`, read at time `modified`, all or nothing: where
    /// `content` does not parse, the document is left as it was and the
    /// parser's error is returned.
    pub fn reload(&mut self, content: &str, modified: u128) -> (r: Result<(), NetworkInterfacesError>)
        ensures
            match parse_text(content@) {
                Ok(st) => r is Ok && final(self).holds(st) && final(self).modified() == Some(
                    modified,
                ) && final(self).file_path() == old(self).file_path(),
                Err(n) => r is Err && r->Err_0 is Parser && r->Err_0->Parser_0.line == Some(
                    n as usize,
                ) && r->Err_0->Parser_0.message@ == crate::parser::missing_name_message()
                    && *final(self) == *old(self),
            },
    {
        let parser = Parser::new();
        match parser.parse(content) {
            Ok(p) => {
                self.interfaces = p.interfaces;
                self.comments = p.comments;
                self.sources = p.sources;
                self.last_modified = Some(modified);
                Ok(())
            },
            Err(e) => Err(NetworkInterfacesError::Parser(e)),
        }
    }

    /// The lowest VLAN id from `start` to `end` (both included) for which no
    /// interface `vlan<id>` exists, or `None` where all are taken.
    pub fn next_unused_vlan_in_range(&self, start: u16, end: u16) -> (r: Option<u16>)
        requires
            self.wf(),
        ensures
            match r {
                Some(v) => start <= v <= end && lookup(
                    self.dir(),
                    "vlan"@ + decimal_text(v as nat),
                ) is None && forall|u: u16|
                    start <= u < v ==> (#[trigger] lookup(
                        self.dir(),
                        "vlan"@ + decimal_text(u as nat),
                    )) is Some,
                None => forall|u: u16|
                    start <= u <= end ==> (#[trigger] lookup(
                        self.dir(),
                        "vlan"@ + decimal_text(u as nat),
                    )) is Some,
            },
    {
        let mut v: u32 = start as u32;
        while v <= end as u32
            invariant
                self.wf(),
                start as u32 <= v <= 65536,
                forall|u: u16|
                    start <= u && (u as u32) < v ==> (#[trigger] lookup(
                        self.dir(),
                        "vlan"@ + decimal_text(u as nat),
                    )) is Some,
            decreases 65536 - v,
        {
            let mut name = string_from("vlan");
            let d = decimal(v as u64);
            append_str(&mut name, d.as_str());
            if !self.interfaces.contains_key(name.as_str()) {
                return Some(v as u16);
            }
            v += 1;
        }
        None
    }

    /// The VLAN of interface `vni<vni_id>`: the value of its first
    /// `bridge-access` option that reads as a `u16`. `None` where the
    /// interface does not exist or no such option does.
    pub fn get_existing_vni_vlan(&self, vni_id: u32) -> (r: Option<u16>)
        requires
            self.wf(),
        ensures
            match lookup(self.dir(), "vni"@ + decimal_text(vni_id as nat)) {
                None => r is None,
                Some(e) => r == first_access_vlan(e.options),
            },
    {
        let mut name = string_from("vni");
        let d = decimal(vni_id as u64);
        append_str(&mut name, d.as_str());
        match self.interfaces.get(name.as_str()) {
            None => None,
            Some(e) => {
                let mut i: usize = 0;
                let ghost opts = e@.options;
                assert(opts.subrange(0, opts.len() as int) =~= opts);
                while i < e.options.len()
                    invariant
                        opts == e@.options,
                        name@ == "vni"@ + decimal_text(vni_id as nat),
                        lookup(self.dir(), name@) == Some(e@),
                        i <= e.options@.len(),
                        first_access_vlan(opts) == first_access_vlan(
                            opts.subrange(i as int, opts.len() as int),
                        ),
                    decreases e.options@.len() - i,
                {
                    let ghost rest = opts.subrange(i as int, opts.len() as int);
                    assert(rest[0] == opts[i as int]);
                    assert(opts[i as int] == (e.options@[i as int].0@, e.options@[i as int].1@));
                    assert(rest.drop_first() =~= opts.subrange(i as int + 1, opts.len() as int));
                    if e.options[i].0 == string_from("bridge-access") {
                        match parse_bounded(e.options[i].1.as_str(), 65535) {
                            Some(v) => {
                                assert(rest[0].0 == "bridge-access"@);
                                assert(rest[0].1 == e.options@[i as int].1@);
                                assert(parse_uint(rest[0].1, 65535) == Some(v as nat));
                                assert(v <= 65535);
                                return Some(v as u16);
                            },
                            None => {},
                        }
                    }
                    i += 1;
                }
                None
            },
        }
    }
}

/// The first `bridge-access` option of `opts` whose value reads as a `u16`.
pub open spec fn first_access_vlan(opts: Seq<(Seq<char>, Seq<char>)>) -> Option<u16>
    decreases opts.len(),
{
    if opts.len() == 0 {
        None
    } else if opts[0].0 == "bridge-access"@ && parse_uint(opts[0].1, 65535) is Some {
        Some(parse_uint(opts[0].1, 65535)->0 as u16)
    } else {
        first_access_vlan(opts.drop_first())
    }
}

} // verus!
