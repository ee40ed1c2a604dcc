//! The stanza parser: a state machine over the file's lines that merges every
//! directive naming an interface into that interface's single entry.

use vstd::prelude::*;
use crate::directory::{
    find_index, lemma_position, lemma_position_unique, models, position, unique_names, Directory,
};
use crate::error::ParserError;
use crate::interface::{
    family_of, fresh_model, opt_text, text_pairs, texts, Family, Interface, InterfaceModel, Mapping, MappingModel,
};
use crate::text::{
    char_is_ws, chars_of, has_prefix, is_text, is_ws, join_from, join_spaced, lines_of,
    split_lines, string_from, string_of, string_range, tokens, tokens_of, views,
};

verus! {

/// Which stanza, if any, is accepting body lines.
pub enum OpenStanza {
    /// No stanza is open.
    Idle,
    /// An `iface` stanza for the named entry takes option lines.
    Stanza(Seq<char>),
    /// A `mapping` stanza for the named entry takes `script` and `map` lines.
    Mapping(Seq<char>),
}

/// The parser's state between two lines.
pub struct ParseState {
    pub dir: Seq<InterfaceModel>,
    pub comments: Seq<Seq<char>>,
    pub sources: Seq<Seq<char>>,
    pub open: OpenStanza,
    /// Whether a directive has been seen yet.
    pub started: bool,
}

/// The state before the first line.
pub open spec fn initial_state() -> ParseState {
    ParseState {
        dir: Seq::empty(),
        comments: Seq::empty(),
        sources: Seq::empty(),
        open: OpenStanza::Idle,
        started: false,
    }
}

/// `d` with an entry for `name`, created fresh where none was.
pub open spec fn ensure_entry(d: Seq<InterfaceModel>, name: Seq<char>) -> Seq<InterfaceModel> {
    if position(d, name) >= 0 {
        d
    } else {
        d.push(fresh_model(name))
    }
}

/// Where the entry for `name` stands in `ensure_entry(d, name)`.
pub open spec fn slot(d: Seq<InterfaceModel>, name: Seq<char>) -> int {
    if position(d, name) >= 0 {
        position(d, name)
    } else {
        d.len() as int
    }
}

/// The entry for `name`: the existing one, or a fresh one.
pub open spec fn entry(d: Seq<InterfaceModel>, name: Seq<char>) -> InterfaceModel {
    ensure_entry(d, name)[slot(d, name)]
}

/// `d` with the entry for `name` (created where absent) replaced by `e`.
pub open spec fn put(d: Seq<InterfaceModel>, name: Seq<char>, e: InterfaceModel) -> Seq<
    InterfaceModel,
> {
    ensure_entry(d, name).update(slot(d, name), e)
}

/// `auto` for each of `names` in turn.
pub open spec fn mark_auto(d: Seq<InterfaceModel>, names: Seq<Seq<char>>) -> Seq<InterfaceModel>
    decreases names.len(),
{
    if names.len() == 0 {
        d
    } else {
        let d1 = mark_auto(d, names.drop_last());
        put(d1, names.last(), InterfaceModel { auto: true, ..entry(d1, names.last()) })
    }
}

/// `allow-<tag>` for each of `names` in turn.
pub open spec fn add_allow(d: Seq<InterfaceModel>, names: Seq<Seq<char>>, tag: Seq<char>) -> Seq<
    InterfaceModel,
>
    decreases names.len(),
{
    if names.len() == 0 {
        d
    } else {
        let d1 = add_allow(d, names.drop_last(), tag);
        let e = entry(d1, names.last());
        put(d1, names.last(), InterfaceModel { allow: e.allow.push(tag), ..e })
    }
}

/// The family of an `iface` line's tokens: its third token, where that names
/// one.
pub open spec fn iface_family(t: Seq<Seq<char>>) -> Option<Family> {
    if t.len() > 2 {
        family_of(t[2])
    } else {
        None
    }
}

/// The method of an `iface` line's tokens: the token after the family, or the
/// third token where no family was recognised.
pub open spec fn iface_method(t: Seq<Seq<char>>) -> Option<Seq<char>> {
    if iface_family(t) is Some {
        if t.len() > 3 {
            Some(t[3])
        } else {
            None
        }
    } else if t.len() > 2 {
        Some(t[2])
    } else {
        None
    }
}

/// An `iface` line: the entry is reused or created, and takes the family and
/// method that the line gives, keeping its own where the line gives none.
pub open spec fn declare(
    d: Seq<InterfaceModel>,
    name: Seq<char>,
    family: Option<Family>,
    method: Option<Seq<char>>,
) -> Seq<InterfaceModel> {
    let e = entry(d, name);
    put(
        d,
        name,
        InterfaceModel {
            family: if family is Some {
                family
            } else {
                e.family
            },
            method: if method is Some {
                method
            } else {
                e.method
            },
            ..e
        },
    )
}

/// An option line of the open stanza of `name`.
pub open spec fn add_option(d: Seq<InterfaceModel>, name: Seq<char>, key: Seq<char>, value: Seq<
    char,
>) -> Seq<InterfaceModel> {
    let e = entry(d, name);
    put(d, name, InterfaceModel { options: e.options.push((key, value)), ..e })
}

/// A `mapping` line for `name`: its mapping starts empty.
pub open spec fn begin_mapping(d: Seq<InterfaceModel>, name: Seq<char>) -> Seq<InterfaceModel> {
    put(
        d,
        name,
        InterfaceModel {
            mapping: Some(MappingModel { script: Seq::empty(), maps: Seq::empty() }),
            ..entry(d, name)
        },
    )
}

/// The mapping of `e`, or an empty one.
pub open spec fn mapping_or_empty(e: InterfaceModel) -> MappingModel {
    match e.mapping {
        Some(m) => m,
        None => MappingModel { script: Seq::empty(), maps: Seq::empty() },
    }
}

/// A `script` line of the mapping stanza of `name`.
pub open spec fn set_script(d: Seq<InterfaceModel>, name: Seq<char>, script: Seq<char>) -> Seq<
    InterfaceModel,
> {
    let e = entry(d, name);
    put(
        d,
        name,
        InterfaceModel {
            mapping: Some(MappingModel { script, ..mapping_or_empty(e) }),
            ..e
        },
    )
}

/// A `map` line of the mapping stanza of `name`.
pub open spec fn add_map(d: Seq<InterfaceModel>, name: Seq<char>, map: Seq<char>) -> Seq<
    InterfaceModel,
> {
    let e = entry(d, name);
    let m = mapping_or_empty(e);
    put(d, name, InterfaceModel { mapping: Some(MappingModel { maps: m.maps.push(map), ..m }), ..e })
}

/// Whether a keyword is a top-level directive.
pub open spec fn is_directive(kw: Seq<char>) -> bool {
    kw == "source"@ || kw == "auto"@ || is_allow(kw) || kw == "iface"@ || kw == "mapping"@
}

/// Whether a keyword is `allow-<tag>`.
pub open spec fn is_allow(kw: Seq<char>) -> bool {
    "allow-"@.len() <= kw.len() && kw.subrange(0, "allow-"@.len() as int) == "allow-"@
}

/// The tag of an `allow-<tag>` keyword.
pub open spec fn allow_tag(kw: Seq<char>) -> Seq<char> {
    kw.subrange("allow-"@.len() as int, kw.len() as int)
}

/// Whether a line's tokens make it a comment.
pub open spec fn is_comment(t: Seq<Seq<char>>) -> bool {
    t.len() > 0 && t[0].len() > 0 && t[0][0] == '#'
}

/// The effect of line number `n` (1-based), `line`, on `st`; `Err(n)` where
/// the line is malformed. An indented line, unless a comment or a `source`
/// line, belongs to the open stanza and is never a directive.
pub open spec fn step(st: ParseState, line: Seq<char>, n: int) -> Result<ParseState, int> {
    let t = tokens(line);
    if t.len() == 0 {
        Ok(st)
    } else if is_comment(t) {
        if st.started {
            Ok(st)
        } else {
            Ok(ParseState { comments: st.comments.push(line), ..st })
        }
    } else if t[0] == "source"@ {
        Ok(ParseState { sources: st.sources.push(line), started: true, ..st })
    } else if is_ws(line[0]) {
        body_step(st, t)
    } else if t[0] == "auto"@ {
        Ok(
            ParseState {
                dir: mark_auto(st.dir, t.subrange(1, t.len() as int)),
                open: OpenStanza::Idle,
                started: true,
                ..st
            },
        )
    } else if is_allow(t[0]) {
        Ok(
            ParseState {
                dir: add_allow(st.dir, t.subrange(1, t.len() as int), allow_tag(t[0])),
                open: OpenStanza::Idle,
                started: true,
                ..st
            },
        )
    } else if t[0] == "iface"@ {
        if t.len() < 2 {
            Err(n)
        } else {
            Ok(
                ParseState {
                    dir: declare(st.dir, t[1], iface_family(t), iface_method(t)),
                    open: OpenStanza::Stanza(t[1]),
                    started: true,
                    ..st
                },
            )
        }
    } else if t[0] == "mapping"@ {
        if t.len() < 2 {
            Ok(ParseState { open: OpenStanza::Idle, started: true, ..st })
        } else {
            Ok(
                ParseState {
                    dir: begin_mapping(st.dir, t[1]),
                    open: OpenStanza::Mapping(t[1]),
                    started: true,
                    ..st
                },
            )
        }
    } else {
        body_step(st, t)
    }
}

/// A body line of the open stanza, with tokens `t`: an option of an `iface`
/// stanza, a `script` or `map` line of a `mapping` stanza; ignored where no
/// stanza is open.
pub open spec fn body_step(st: ParseState, t: Seq<Seq<char>>) -> Result<ParseState, int> {
    match st.open {
        OpenStanza::Idle => Ok(st),
        OpenStanza::Stanza(name) => Ok(
            ParseState {
                dir: add_option(st.dir, name, t[0], join_spaced(t.subrange(1, t.len() as int))),
                ..st
            },
        ),
        OpenStanza::Mapping(name) => if t[0] == "script"@ {
            Ok(
                ParseState {
                    dir: set_script(st.dir, name, join_spaced(t.subrange(1, t.len() as int))),
                    ..st
                },
            )
        } else if t[0] == "map"@ {
            Ok(
                ParseState {
                    dir: add_map(st.dir, name, join_spaced(t.subrange(1, t.len() as int))),
                    ..st
                },
            )
        } else {
            Ok(st)
        },
    }
}

/// The state after `lines`, or the number of the first malformed line.
pub open spec fn parse_lines(lines: Seq<Seq<char>>) -> Result<ParseState, int>
    decreases lines.len(),
{
    if lines.len() == 0 {
        Ok(initial_state())
    } else {
        match parse_lines(lines.drop_last()) {
            Ok(st) => step(st, lines.last(), lines.len() as int),
            Err(n) => Err(n),
        }
    }
}

/// The result of parsing the text `content`.
pub open spec fn parse_text(content: Seq<char>) -> Result<ParseState, int> {
    parse_lines(split_lines(content))
}

/// Facts on `ensure_entry` and `slot`: the entry exists, earlier entries stay,
/// and names stay unique.
pub proof fn lemma_ensure_entry(d: Seq<InterfaceModel>, name: Seq<char>)
    requires
        unique_names(d),
    ensures
        unique_names(ensure_entry(d, name)),
        0 <= slot(d, name) < ensure_entry(d, name).len(),
        ensure_entry(d, name)[slot(d, name)].name == name,
        d.len() <= ensure_entry(d, name).len(),
        forall|i: int| 0 <= i < d.len() ==> ensure_entry(d, name)[i] == d[i],
{
    lemma_position(d, name);
    if position(d, name) < 0 {
        let e = ensure_entry(d, name);
        assert forall|i: int, j: int|
            0 <= i < e.len() && 0 <= j < e.len() && i != j implies #[trigger] e[i].name
            != #[trigger] e[j].name by {
            if i < d.len() && j < d.len() {
                assert(e[i] == d[i] && e[j] == d[j]);
            }
        }
    }
}

/// `put` keeps names unique and every earlier entry's name.
pub proof fn lemma_put(d: Seq<InterfaceModel>, name: Seq<char>, e: InterfaceModel)
    requires
        unique_names(d),
        e.name == name,
    ensures
        unique_names(put(d, name, e)),
        put(d, name, e).len() == ensure_entry(d, name).len(),
        put(d, name, e)[slot(d, name)] == e,
        forall|i: int| 0 <= i < d.len() ==> (#[trigger] put(d, name, e)[i]).name == d[i].name,
{
    lemma_ensure_entry(d, name);
    let d1 = ensure_entry(d, name);
    let r = put(d, name, e);
    assert forall|i: int, j: int|
        0 <= i < r.len() && 0 <= j < r.len() && i != j implies #[trigger] r[i].name
        != #[trigger] r[j].name by {
        assert(r[i].name == d1[i].name);
        assert(r[j].name == d1[j].name);
    }
}

/// An entry already at `i` of a directory of unique names is the one that
/// `put` and `entry` address.
pub proof fn lemma_slot_existing(d: Seq<InterfaceModel>, i: int)
    requires
        unique_names(d),
        0 <= i < d.len(),
    ensures
        ensure_entry(d, d[i].name) == d,
        slot(d, d[i].name) == i,
        entry(d, d[i].name) == d[i],
{
    lemma_position_unique(d, i);
}

/// Taking an element out and putting another in its place is an update.
proof fn lemma_reinsert(v: Seq<Interface>, i: int, e: Interface)
    requires
        0 <= i < v.len(),
    ensures
        v.remove(i).insert(i, e) == v.update(i, e),
        models(v.update(i, e)) == models(v).update(i, e@),
{
    assert(v.remove(i).insert(i, e) =~= v.update(i, e));
    assert(models(v.update(i, e)) =~= models(v).update(i, e@));
}

/// The stanza that is accepting body lines, by index into the entries.
enum Cursor {
    Idle,
    Stanza(usize),
    Mapping(usize),
}

/// The executable parser state.
struct Machine {
    entries: Vec<Interface>,
    comments: Vec<String>,
    sources: Vec<String>,
    open: Cursor,
    started: bool,
}

impl Machine {
    spec fn inv(&self) -> bool {
        &&& unique_names(models(self.entries@))
        &&& match self.open {
            Cursor::Idle => true,
            Cursor::Stanza(i) => i < self.entries@.len(),
            Cursor::Mapping(i) => i < self.entries@.len(),
        }
    }

    spec fn state(&self) -> ParseState {
        ParseState {
            dir: models(self.entries@),
            comments: texts(self.comments@),
            sources: texts(self.sources@),
            open: match self.open {
                Cursor::Idle => OpenStanza::Idle,
                Cursor::Stanza(i) => OpenStanza::Stanza(self.entries@[i as int]@.name),
                Cursor::Mapping(i) => OpenStanza::Mapping(self.entries@[i as int]@.name),
            },
            started: self.started,
        }
    }

    fn new() -> (r: Machine)
        ensures
            r.inv(),
            r.state() == initial_state(),
    {
        let r = Machine {
            entries: Vec::new(),
            comments: Vec::new(),
            sources: Vec::new(),
            open: Cursor::Idle,
            started: false,
        };
        assert(r.state().dir =~= Seq::<InterfaceModel>::empty());
        assert(r.state().comments =~= Seq::<Seq<char>>::empty());
        assert(r.state().sources =~= Seq::<Seq<char>>::empty());
        r
    }

    /// The index of the entry for `name`, created fresh where absent.
    fn slot_for(&mut self, name: &[char]) -> (i: usize)
        requires
            unique_names(models(old(self).entries@)),
        ensures
            models(final(self).entries@) == ensure_entry(models(old(self).entries@), name@),
            i == slot(models(old(self).entries@), name@),
            i < final(self).entries@.len(),
            unique_names(models(final(self).entries@)),
            final(self).comments == old(self).comments,
            final(self).sources == old(self).sources,
            final(self).started == old(self).started,
            final(self).open == old(self).open,
    {
        let ghost d = models(self.entries@);
        proof {
            lemma_ensure_entry(d, name@);
        }
        match find_index(&self.entries, name) {
            Some(i) => i,
            None => {
                let fresh = Interface {
                    name: string_of(name),
                    auto: false,
                    allow: Vec::new(),
                    family: None,
                    method: None,
                    options: Vec::new(),
                    mapping: None,
                };
                assert(texts(fresh.allow@) =~= Seq::<Seq<char>>::empty());
                assert(text_pairs(fresh.options@) =~= Seq::<(Seq<char>, Seq<char>)>::empty());
                assert(fresh@ =~= fresh_model(name@));
                let ghost v0 = self.entries@;
                self.entries.push(fresh);
                assert(models(self.entries@) =~= models(v0).push(fresh@));
                self.entries.len() - 1
            },
        }
    }

    /// `auto <names...>`.
    fn do_auto(&mut self, t: &Vec<Vec<char>>)
        requires
            old(self).inv(),
            t@.len() >= 1,
        ensures
            final(self).inv(),
            final(self).state() == (ParseState {
                dir: mark_auto(old(self).state().dir, views(t@).subrange(1, t@.len() as int)),
                open: OpenStanza::Idle,
                started: true,
                ..old(self).state()
            }),
    {
        let ghost d0 = models(self.entries@);
        self.open = Cursor::Idle;
        self.started = true;
        let mut j: usize = 1;
        assert(views(t@).subrange(1, 1) =~= Seq::<Seq<char>>::empty());
        while j < t.len()
            invariant
                1 <= j <= t@.len(),
                self.inv(),
                self.open == Cursor::Idle,
                self.started,
                self.comments == old(self).comments,
                self.sources == old(self).sources,
                models(self.entries@) == mark_auto(d0, views(t@).subrange(1, j as int)),
            decreases t@.len() - j,
        {
            let ghost names = views(t@).subrange(1, j as int + 1);
            assert(names.drop_last() =~= views(t@).subrange(1, j as int));
            assert(names.last() == t@[j as int]@);
            let ghost d1 = models(self.entries@);
            let i = self.slot_for(t[j].as_slice());
            proof {
                lemma_ensure_entry(d1, t@[j as int]@);
            }
            let ghost v0 = self.entries@;
            let mut e = self.entries.remove(i);
            e.auto = true;
            let ghost ne = e@;
            assert(ne == InterfaceModel { auto: true, ..entry(d1, t@[j as int]@) });
            self.entries.insert(i, e);
            proof {
                lemma_reinsert(v0, i as int, e);
                lemma_put(d1, t@[j as int]@, ne);
            }
            j += 1;
        }
    }

    /// `allow-<tag> <names...>`.
    fn do_allow(&mut self, t: &Vec<Vec<char>>, tag: &String)
        requires
            old(self).inv(),
            t@.len() >= 1,
        ensures
            final(self).inv(),
            final(self).state() == (ParseState {
                dir: add_allow(old(self).state().dir, views(t@).subrange(1, t@.len() as int), tag@),
                open: OpenStanza::Idle,
                started: true,
                ..old(self).state()
            }),
    {
        let ghost d0 = models(self.entries@);
        self.open = Cursor::Idle;
        self.started = true;
        let mut j: usize = 1;
        assert(views(t@).subrange(1, 1) =~= Seq::<Seq<char>>::empty());
        while j < t.len()
            invariant
                1 <= j <= t@.len(),
                self.inv(),
                self.open == Cursor::Idle,
                self.started,
                self.comments == old(self).comments,
                self.sources == old(self).sources,
                models(self.entries@) == add_allow(d0, views(t@).subrange(1, j as int), tag@),
            decreases t@.len() - j,
        {
            let ghost names = views(t@).subrange(1, j as int + 1);
            assert(names.drop_last() =~= views(t@).subrange(1, j as int));
            assert(names.last() == t@[j as int]@);
            let ghost d1 = models(self.entries@);
            let i = self.slot_for(t[j].as_slice());
            proof {
                lemma_ensure_entry(d1, t@[j as int]@);
            }
            let ghost v0 = self.entries@;
            let mut e = self.entries.remove(i);
            let ghost old_allow = e.allow@;
            e.allow.push(tag.clone());
            assert(texts(e.allow@) =~= texts(old_allow).push(tag@));
            let ghost ne = e@;
            let ghost oe = entry(d1, t@[j as int]@);
            assert(ne == InterfaceModel { allow: oe.allow.push(tag@), ..oe });
            self.entries.insert(i, e);
            proof {
                lemma_reinsert(v0, i as int, e);
                lemma_put(d1, t@[j as int]@, ne);
            }
            j += 1;
        }
    }

    /// `iface <name> [<family>] [<method>]`.
    fn do_iface(&mut self, t: &Vec<Vec<char>>)
        requires
            old(self).inv(),
            t@.len() >= 2,
        ensures
            final(self).inv(),
            final(self).state() == (ParseState {
                dir: declare(
                    old(self).state().dir,
                    views(t@)[1],
                    iface_family(views(t@)),
                    iface_method(views(t@)),
                ),
                open: OpenStanza::Stanza(views(t@)[1]),
                started: true,
                ..old(self).state()
            }),
    {
        let ghost tv = views(t@);
        let ghost d1 = models(self.entries@);
        let family = if t.len() > 2 {
            Family::from_chars(t[2].as_slice())
        } else {
            None
        };
        let method: Option<String> = if family.is_some() {
            if t.len() > 3 {
                Some(string_of(t[3].as_slice()))
            } else {
                None
            }
        } else if t.len() > 2 {
            Some(string_of(t[2].as_slice()))
        } else {
            None
        };
        assert(family == iface_family(tv));
        assert(opt_text(method) == iface_method(tv));
        let i = self.slot_for(t[1].as_slice());
        proof {
            lemma_ensure_entry(d1, tv[1]);
        }
        let ghost v0 = self.entries@;
        let mut e = self.entries.remove(i);
        if family.is_some() {
            e.family = family;
        }
        if method.is_some() {
            e.method = method;
        }
        let ghost ne = e@;
        let ghost oe = entry(d1, tv[1]);
        assert(ne == InterfaceModel {
            family: if iface_family(tv) is Some {
                iface_family(tv)
            } else {
                oe.family
            },
            method: if iface_method(tv) is Some {
                iface_method(tv)
            } else {
                oe.method
            },
            ..oe
        });
        self.entries.insert(i, e);
        proof {
            lemma_reinsert(v0, i as int, e);
            lemma_put(d1, tv[1], ne);
        }
        self.open = Cursor::Stanza(i);
        self.started = true;
    }

    /// `mapping <name>`.
    fn do_mapping(&mut self, t: &Vec<Vec<char>>)
        requires
            old(self).inv(),
            t@.len() >= 2,
        ensures
            final(self).inv(),
            final(self).state() == (ParseState {
                dir: begin_mapping(old(self).state().dir, views(t@)[1]),
                open: OpenStanza::Mapping(views(t@)[1]),
                started: true,
                ..old(self).state()
            }),
    {
        let ghost tv = views(t@);
        let ghost d1 = models(self.entries@);
        let i = self.slot_for(t[1].as_slice());
        proof {
            lemma_ensure_entry(d1, tv[1]);
        }
        let ghost v0 = self.entries@;
        let mut e = self.entries.remove(i);
        let m = Mapping { script: String::new(), maps: Vec::new() };
        assert(texts(m.maps@) =~= Seq::<Seq<char>>::empty());
        e.mapping = Some(m);
        let ghost ne = e@;
        let ghost oe = entry(d1, tv[1]);
        assert(ne == InterfaceModel {
            mapping: Some(MappingModel { script: Seq::empty(), maps: Seq::empty() }),
            ..oe
        });
        self.entries.insert(i, e);
        proof {
            lemma_reinsert(v0, i as int, e);
            lemma_put(d1, tv[1], ne);
        }
        self.open = Cursor::Mapping(i);
        self.started = true;
    }

    /// A body line of the open `iface` stanza: an option.
    fn do_option(&mut self, t: &Vec<Vec<char>>, i: usize)
        requires
            old(self).inv(),
            t@.len() >= 1,
            old(self).open == Cursor::Stanza(i),
        ensures
            final(self).inv(),
            final(self).state() == (ParseState {
                dir: add_option(
                    old(self).state().dir,
                    old(self).entries@[i as int]@.name,
                    views(t@)[0],
                    join_spaced(views(t@).subrange(1, t@.len() as int)),
                ),
                ..old(self).state()
            }),
    {
        let ghost tv = views(t@);
        let ghost d1 = models(self.entries@);
        proof {
            lemma_slot_existing(d1, i as int);
        }
        let key = string_of(t[0].as_slice());
        let value = join_from(t, 1);
        let ghost v0 = self.entries@;
        let mut e = self.entries.remove(i);
        let ghost old_opts = e.options@;
        e.options.push((key, value));
        assert(text_pairs(e.options@) =~= text_pairs(old_opts).push((key@, value@)));
        let ghost ne = e@;
        let ghost oe = d1[i as int];
        assert(ne == InterfaceModel { options: oe.options.push((key@, value@)), ..oe });
        self.entries.insert(i, e);
        proof {
            lemma_reinsert(v0, i as int, e);
            lemma_put(d1, oe.name, ne);
        }
    }

    /// A body line of the open `mapping` stanza: `script` or `map`.
    fn do_mapping_line(&mut self, t: &Vec<Vec<char>>, i: usize, is_script: bool)
        requires
            old(self).inv(),
            t@.len() >= 1,
            old(self).open == Cursor::Mapping(i),
        ensures
            final(self).inv(),
            final(self).state() == (ParseState {
                dir: if is_script {
                    set_script(
                        old(self).state().dir,
                        old(self).entries@[i as int]@.name,
                        join_spaced(views(t@).subrange(1, t@.len() as int)),
                    )
                } else {
                    add_map(
                        old(self).state().dir,
                        old(self).entries@[i as int]@.name,
                        join_spaced(views(t@).subrange(1, t@.len() as int)),
                    )
                },
                ..old(self).state()
            }),
    {
        let ghost tv = views(t@);
        let ghost d1 = models(self.entries@);
        proof {
            lemma_slot_existing(d1, i as int);
        }
        let value = join_from(t, 1);
        let ghost v0 = self.entries@;
        let mut e = self.entries.remove(i);
        let ghost oe = d1[i as int];
        let mut m = match e.mapping {
            Some(m) => m,
            None => {
                let m = Mapping { script: String::new(), maps: Vec::new() };
                assert(texts(m.maps@) =~= Seq::<Seq<char>>::empty());
                m
            },
        };
        assert(m@ == mapping_or_empty(oe));
        if is_script {
            m.script = value;
        } else {
            let ghost old_maps = m.maps@;
            m.maps.push(value);
            assert(texts(m.maps@) =~= texts(old_maps).push(value@));
        }
        e.mapping = Some(m);
        let ghost ne = e@;
        self.entries.insert(i, e);
        proof {
            lemma_reinsert(v0, i as int, e);
            lemma_put(d1, oe.name, ne);
        }
    }

    /// Line number `n`, `line`.
    fn feed(&mut self, line: &Vec<char>, n: usize) -> (r: Result<(), ParserError>)
        requires
            old(self).inv(),
        ensures
            final(self).inv(),
            match step(old(self).state(), line@, n as int) {
                Ok(st) => r is Ok && final(self).state() == st,
                Err(k) => r is Err && r->Err_0.line == Some(n) && k == n && r->Err_0.message@
                    == missing_name_message(),
            },
    {
        let t = tokens_of(line.as_slice());
        let ghost tv = views(t@);
        assert(tv == tokens(line@));
        if t.len() == 0 {
            return Ok(());
        }
        assert(tv[0] == t@[0]@);
        if t[0].len() > 0 && t[0][0] == '#' {
            if !self.started {
                let ghost c0 = self.comments@;
                self.comments.push(string_of(line.as_slice()));
                assert(texts(self.comments@) =~= texts(c0).push(line@));
            }
            return Ok(());
        }
        if is_text(t[0].as_slice(), "source") {
            let ghost s0 = self.sources@;
            self.sources.push(string_of(line.as_slice()));
            assert(texts(self.sources@) =~= texts(s0).push(line@));
            self.started = true;
            return Ok(());
        }
        assert(line@.len() > 0) by {
            if line@.len() == 0 {
                assert(tokens(line@) == Seq::<Seq<char>>::empty());
            }
        }
        if char_is_ws(line[0]) {
            self.do_body(&t);
            return Ok(());
        }
        if is_text(t[0].as_slice(), "auto") {
            self.do_auto(&t);
            return Ok(());
        }
        if has_prefix(t[0].as_slice(), "allow-") {
            let p = "allow-".unicode_len();
            let tag = string_range(t[0].as_slice(), p, t[0].len());
            self.do_allow(&t, &tag);
            return Ok(());
        }
        if is_text(t[0].as_slice(), "iface") {
            if t.len() < 2 {
                return Err(
                    ParserError {
                        message: string_from("Missing interface name in 'iface' stanza"),
                        line: Some(n),
                    },
                );
            }
            self.do_iface(&t);
            return Ok(());
        }
        if is_text(t[0].as_slice(), "mapping") {
            if t.len() < 2 {
                self.open = Cursor::Idle;
                self.started = true;
            } else {
                self.do_mapping(&t);
            }
            return Ok(());
        }
        self.do_body(&t);
        Ok(())
    }

    /// A body line of the open stanza.
    fn do_body(&mut self, t: &Vec<Vec<char>>)
        requires
            old(self).inv(),
            t@.len() >= 1,
        ensures
            final(self).inv(),
            body_step(old(self).state(), views(t@)) == Ok::<ParseState, int>(final(self).state()),
    {
        match self.open {
            Cursor::Idle => {},
            Cursor::Stanza(i) => {
                self.do_option(&t, i);
            },
            Cursor::Mapping(i) => {
                if is_text(t[0].as_slice(), "script") {
                    self.do_mapping_line(&t, i, true);
                } else if is_text(t[0].as_slice(), "map") {
                    self.do_mapping_line(&t, i, false);
                }
            },
        }
    }
}

/// The message of the error for an `iface` line without a name.
pub open spec fn missing_name_message() -> Seq<char> {
    "Missing interface name in 'iface' stanza"@
}

/// What a parse yields: the interfaces, the leading comment lines and the
/// `source` lines.
pub struct ParsedFile {
    /// The interfaces, one entry per name.
    pub interfaces: Directory,
    /// The comment lines that precede the first directive, verbatim.
    pub comments: Vec<String>,
    /// The `source` lines, verbatim and in order.
    pub sources: Vec<String>,
}

impl ParsedFile {
    /// Whether the parse holds exactly what the parser state `st` holds.
    pub open spec fn matches(&self, st: ParseState) -> bool {
        &&& self.interfaces.wf()
        &&& self.interfaces@ == st.dir
        &&& texts(self.comments@) == st.comments
        &&& texts(self.sources@) == st.sources
    }
}

/// A parser for `interfaces(5)` text.
pub struct Parser;

impl Parser {
    /// A new parser.
    pub fn new() -> (r: Parser) {
        Parser
    }

    /// Parses `content`: every line in order through the state machine.
    /// Fails, with the 1-based number of the line, exactly where an `iface`
    /// line has no name; nothing else is an error.
    pub fn parse(&self, content: &str) -> (r: Result<ParsedFile, ParserError>)
        ensures
            match parse_text(content@) {
                Ok(st) => r is Ok && r->Ok_0.matches(st),
                Err(n) => r is Err && r->Err_0.line == Some(n as usize) && r->Err_0.message@
                    == missing_name_message(),
            },
    {
        let chars = chars_of(content);
        let lines = lines_of(&chars);
        let ghost lv = views(lines@);
        let mut m = Machine::new();
        let mut k: usize = 0;
        assert(lv.subrange(0, 0) =~= Seq::<Seq<char>>::empty());
        while k < lines.len()
            invariant
                lv == views(lines@),
                lv == split_lines(content@),
                k <= lines@.len(),
                m.inv(),
                parse_lines(lv.subrange(0, k as int)) == Ok::<ParseState, int>(m.state()),
            decreases lines@.len() - k,
        {
            let ghost prefix = lv.subrange(0, k as int + 1);
            assert(prefix.drop_last() =~= lv.subrange(0, k as int));
            assert(prefix.last() == lines@[k as int]@);
            match m.feed(&lines[k], k + 1) {
                Ok(()) => {},
                Err(e) => {
                    proof {
                        lemma_parse_lines_err(lv, k as int + 1);
                    }
                    return Err(e);
                },
            }
            k += 1;
        }
        assert(lv.subrange(0, lv.len() as int) =~= lv);
        let Machine { entries, comments, sources, open: _, started: _ } = m;
        Ok(
            ParsedFile {
                interfaces: Directory::from_entries(entries),
                comments,
                sources,
            },
        )
    }
}

/// An error at the end of a prefix is the error of the whole.
proof fn lemma_parse_lines_err(lines: Seq<Seq<char>>, k: int)
    requires
        0 < k <= lines.len(),
        parse_lines(lines.subrange(0, k)) is Err,
    ensures
        parse_lines(lines) == parse_lines(lines.subrange(0, k)),
    decreases lines.len() - k,
{
    if k < lines.len() {
        let p = lines.subrange(0, k + 1);
        assert(p.drop_last() =~= lines.subrange(0, k));
        lemma_parse_lines_err(lines, k + 1);
    } else {
        assert(lines.subrange(0, k) =~= lines);
    }
}

/// `auto` keeps names unique.
proof fn lemma_mark_auto_unique(d: Seq<InterfaceModel>, names: Seq<Seq<char>>)
    requires
        unique_names(d),
    ensures
        unique_names(mark_auto(d, names)),
    decreases names.len(),
{
    if names.len() > 0 {
        let d1 = mark_auto(d, names.drop_last());
        lemma_mark_auto_unique(d, names.drop_last());
        lemma_ensure_entry(d1, names.last());
        lemma_put(d1, names.last(), InterfaceModel { auto: true, ..entry(d1, names.last()) });
    }
}

/// `allow-<tag>` keeps names unique.
proof fn lemma_add_allow_unique(d: Seq<InterfaceModel>, names: Seq<Seq<char>>, tag: Seq<char>)
    requires
        unique_names(d),
    ensures
        unique_names(add_allow(d, names, tag)),
    decreases names.len(),
{
    if names.len() > 0 {
        let d1 = add_allow(d, names.drop_last(), tag);
        lemma_add_allow_unique(d, names.drop_last(), tag);
        lemma_ensure_entry(d1, names.last());
        let e = entry(d1, names.last());
        lemma_put(d1, names.last(), InterfaceModel { allow: e.allow.push(tag), ..e });
    }
}

/// Every step keeps names unique.
proof fn lemma_step_unique(st: ParseState, line: Seq<char>, n: int)
    requires
        unique_names(st.dir),
    ensures
        step(st, line, n) is Ok ==> unique_names(step(st, line, n)->Ok_0.dir),
{
    let t = tokens(line);
    if t.len() > 0 && !is_comment(t) && t[0] != "source"@ {
        let indented = line.len() > 0 && is_ws(line[0]);
        if !indented && t[0] == "auto"@ {
            lemma_mark_auto_unique(st.dir, t.subrange(1, t.len() as int));
        } else if !indented && is_allow(t[0]) {
            lemma_add_allow_unique(st.dir, t.subrange(1, t.len() as int), allow_tag(t[0]));
        } else {
            let name = if !indented && (t[0] == "iface"@ || t[0] == "mapping"@) {
                if t.len() >= 2 {
                    t[1]
                } else {
                    Seq::empty()
                }
            } else {
                match st.open {
                    OpenStanza::Stanza(nm) => nm,
                    OpenStanza::Mapping(nm) => nm,
                    OpenStanza::Idle => Seq::empty(),
                }
            };
            lemma_ensure_entry(st.dir, name);
            let e = entry(st.dir, name);
            let v = join_spaced(t.subrange(1, t.len() as int));
            let m = mapping_or_empty(e);
            lemma_put(
                st.dir,
                name,
                InterfaceModel {
                    family: if iface_family(t) is Some {
                        iface_family(t)
                    } else {
                        e.family
                    },
                    method: if iface_method(t) is Some {
                        iface_method(t)
                    } else {
                        e.method
                    },
                    ..e
                },
            );
            lemma_put(
                st.dir,
                name,
                InterfaceModel {
                    mapping: Some(MappingModel { script: Seq::empty(), maps: Seq::empty() }),
                    ..e
                },
            );
            lemma_put(st.dir, name, InterfaceModel { options: e.options.push((t[0], v)), ..e });
            lemma_put(
                st.dir,
                name,
                InterfaceModel { mapping: Some(MappingModel { script: v, ..m }), ..e },
            );
            lemma_put(
                st.dir,
                name,
                InterfaceModel { mapping: Some(MappingModel { maps: m.maps.push(v), ..m }), ..e },
            );
        }
    }
}

/// Parsing never yields two entries of one name: whatever the input, the
/// directory holds at most one entry per distinct interface name.
pub proof fn lemma_parse_unique_names(content: Seq<char>)
    ensures
        parse_text(content) is Ok ==> unique_names(parse_text(content)->Ok_0.dir),
{
    lemma_parse_lines_unique(split_lines(content));
}

proof fn lemma_parse_lines_unique(lines: Seq<Seq<char>>)
    ensures
        parse_lines(lines) is Ok ==> unique_names(parse_lines(lines)->Ok_0.dir),
    decreases lines.len(),
{
    if lines.len() > 0 {
        lemma_parse_lines_unique(lines.drop_last());
        match parse_lines(lines.drop_last()) {
            Ok(st) => lemma_step_unique(st, lines.last(), lines.len() as int),
            Err(_) => {},
        }
    }
}

} // verus!
