//! Rendering followed by parsing: a canonical text parses to a document that
//! renders back to the same text.

use vstd::prelude::*;
use crate::interface::{family_text, InterfaceModel, MappingModel};
use crate::serializer::{
    allow_block, entries_block, iface_line, interface_text, lines_block, map_block, mapping_block,
    nl, option_block, render_text,
};
use crate::directory::{lemma_position, position, unique_names};
use crate::merge_order::{lemma_run_concat, lemma_run_single, run_from};
use crate::interface::{family_of, fresh_model};
use crate::parser::{
    add_map, add_option, allow_tag, begin_mapping, declare, entry, ensure_entry, iface_family,
    iface_method, is_allow, is_comment, is_directive, mark_auto, add_allow, put, set_script, slot,
    step, OpenStanza, ParseState,
};
use crate::text::{is_ws, join_spaced, split_lines, tokens};

verus! {

/// `s` holds no newline.
pub open spec fn no_newline(s: Seq<char>) -> bool {
    forall|i: int| 0 <= i < s.len() ==> #[trigger] s[i] != '\n'
}

/// `s` is one non-empty run of non-whitespace characters.
pub open spec fn is_word(s: Seq<char>) -> bool {
    s.len() > 0 && forall|i: int| 0 <= i < s.len() ==> !is_ws(#[trigger] s[i])
}

/// Appending text without a newline extends the last line.
proof fn lemma_split_extend(p: Seq<char>, x: Seq<char>)
    requires
        no_newline(x),
    ensures
        split_lines(p + x) == split_lines(p).update(
            split_lines(p).len() - 1,
            split_lines(p).last() + x,
        ),
        split_lines(p + x).len() == split_lines(p).len(),
    decreases x.len(),
{
    crate::text::lemma_split_lines_nonempty(p);
    if x.len() == 0 {
        assert(p + x =~= p);
        assert(split_lines(p).last() + x =~= split_lines(p).last());
        assert(split_lines(p).update(split_lines(p).len() - 1, split_lines(p).last())
            =~= split_lines(p));
    } else {
        let x0 = x.drop_last();
        assert(no_newline(x0)) by {
            assert forall|i: int| 0 <= i < x0.len() implies #[trigger] x0[i] != '\n' by {
                assert(x0[i] == x[i]);
            }
        }
        lemma_split_extend(p, x0);
        assert((p + x).drop_last() =~= p + x0);
        assert((p + x).last() == x.last());
        assert(x[x.len() - 1] != '\n');
        let sp = split_lines(p);
        assert(split_lines(p + x) =~= sp.update(sp.len() - 1, sp.last() + x0).update(
            sp.len() - 1,
            (sp.last() + x0).push(x.last()),
        ));
        assert((sp.last() + x0).push(x.last()) =~= sp.last() + x);
        assert(split_lines(p + x) =~= sp.update(sp.len() - 1, sp.last() + x));
    }
}

/// Lines without newlines, each ended by one, split back into those lines
/// and a final empty one.
pub proof fn lemma_split_lines_block(ls: Seq<Seq<char>>)
    requires
        forall|i: int| 0 <= i < ls.len() ==> no_newline(#[trigger] ls[i]),
    ensures
        split_lines(lines_block(ls)) == ls.push(Seq::<char>::empty()),
    decreases ls.len(),
{
    if ls.len() == 0 {
        assert(split_lines(Seq::<char>::empty()) =~= seq![Seq::<char>::empty()]);
    } else {
        let l0 = ls.drop_last();
        assert forall|i: int| 0 <= i < l0.len() implies no_newline(#[trigger] l0[i]) by {
            assert(l0[i] == ls[i]);
        }
        lemma_split_lines_block(l0);
        let p = lines_block(l0);
        assert(no_newline(ls[ls.len() - 1]));
        lemma_split_extend(p, ls.last());
        let q = p + ls.last();
        assert(lines_block(ls) == q + nl());
        assert((q + nl()).drop_last() =~= q);
        assert((q + nl()).last() == '\n');
        let sp = l0.push(Seq::<char>::empty());
        assert(Seq::<char>::empty() + ls.last() =~= ls.last());
        assert(sp.update(sp.len() - 1, sp.last() + ls.last()) =~= ls);
    }
}

/// Tokens do not run across a whitespace boundary.
proof fn lemma_tokens_concat(p: Seq<char>, q: Seq<char>)
    requires
        p.len() == 0 || is_ws(p.last()),
    ensures
        tokens(p + q) == tokens(p) + tokens(q),
    decreases q.len(),
{
    if q.len() == 0 {
        assert(p + q =~= p);
        assert(tokens(p) + tokens(q) =~= tokens(p));
    } else {
        let q0 = q.drop_last();
        lemma_tokens_concat(p, q0);
        let s = p + q;
        assert(s.drop_last() =~= p + q0);
        assert(s.last() == q.last());
        if is_ws(q.last()) {
        } else if q.len() >= 2 && !is_ws(q[q.len() - 2]) {
            assert(s[s.len() - 2] == q[q.len() - 2]);
            assert(q0.last() == q[q.len() - 2]);
            crate::text::lemma_tokens_nonempty_after_word(q0);
            let tp = tokens(p);
            let tq = tokens(q0);
            assert((tp + tq).update((tp + tq).len() - 1, (tp + tq).last().push(q.last())) =~= tp
                + tq.update(tq.len() - 1, tq.last().push(q.last())));
        } else {
            if q.len() >= 2 {
                assert(s[s.len() - 2] == q[q.len() - 2]);
            } else if p.len() > 0 {
                assert(s[s.len() - 2] == p.last());
            }
            assert((tokens(p) + tokens(q0)).push(seq![q.last()]) =~= tokens(p) + tokens(
                q0,
            ).push(seq![q.last()]));
        }
    }
}

/// A word is its own single token.
proof fn lemma_tokens_word(w: Seq<char>)
    requires
        is_word(w),
    ensures
        tokens(w) == seq![w],
    decreases w.len(),
{
    let w0 = w.drop_last();
    assert(!is_ws(w[w.len() - 1]));
    if w.len() == 1 {
        assert(w0.len() == 0);
        assert(tokens(w0) == Seq::<Seq<char>>::empty());
        assert(seq![w.last()] =~= w);
        assert(Seq::<Seq<char>>::empty().push(seq![w.last()]) =~= seq![w]);
    } else {
        assert(is_word(w0)) by {
            assert forall|i: int| 0 <= i < w0.len() implies !is_ws(#[trigger] w0[i]) by {
                assert(w0[i] == w[i]);
            }
        }
        lemma_tokens_word(w0);
        assert(!is_ws(w[w.len() - 2]));
        assert(w0.push(w.last()) =~= w);
        assert(seq![w0].update(0, w0.push(w.last())) =~= seq![w]);
    }
}

/// A word and a space: one token.
proof fn lemma_tokens_word_space(w: Seq<char>)
    requires
        is_word(w),
    ensures
        tokens(w + " "@) == seq![w],
{
    reveal_strlit(" ");
    lemma_tokens_word(w);
    assert((w + " "@).drop_last() =~= w);
    assert((w + " "@).last() == ' ');
}

/// Whitespace alone has no tokens.
proof fn lemma_tokens_blank(s: Seq<char>)
    requires
        forall|i: int| 0 <= i < s.len() ==> is_ws(#[trigger] s[i]),
    ensures
        tokens(s) == Seq::<Seq<char>>::empty(),
    decreases s.len(),
{
    if s.len() > 0 {
        let s0 = s.drop_last();
        assert forall|i: int| 0 <= i < s0.len() implies is_ws(#[trigger] s0[i]) by {
            assert(s0[i] == s[i]);
        }
        assert(is_ws(s[s.len() - 1]));
        lemma_tokens_blank(s0);
    }
}

/// `w`, a space, then `rest`: the word, then the tokens of `rest`.
proof fn lemma_tokens_lead(w: Seq<char>, rest: Seq<char>)
    requires
        is_word(w),
    ensures
        tokens(w + " "@ + rest) == seq![w] + tokens(rest),
{
    reveal_strlit(" ");
    lemma_tokens_word_space(w);
    assert((w + " "@).last() == ' ');
    lemma_tokens_concat(w + " "@, rest);
}

/// The `iface` header without its newline.
pub open spec fn iface_head(e: InterfaceModel) -> Seq<char> {
    "iface "@ + e.name + match e.family {
        Some(f) => " "@ + family_text(f),
        None => Seq::empty(),
    } + match e.method {
        Some(m) => " "@ + m,
        None => Seq::empty(),
    }
}

/// The `allow-<tag> <name>` lines of an entry, without newlines.
pub open spec fn allow_lines(x: Seq<char>, tags: Seq<Seq<char>>) -> Seq<Seq<char>> {
    tags.map_values(|t: Seq<char>| "allow-"@ + t + " "@ + x)
}

/// The indented `map` lines of a mapping, without newlines.
pub open spec fn map_lines(maps: Seq<Seq<char>>) -> Seq<Seq<char>> {
    maps.map_values(|m: Seq<char>| "    map "@ + m)
}

/// The `mapping` block of an entry, without newlines.
pub open spec fn mapping_lines(x: Seq<char>, m: Option<MappingModel>) -> Seq<Seq<char>> {
    match m {
        None => Seq::empty(),
        Some(m) => seq!["mapping "@ + x, "    script "@ + m.script] + map_lines(m.maps),
    }
}

/// The indented option lines, without newlines.
pub open spec fn option_lines(opts: Seq<(Seq<char>, Seq<char>)>) -> Seq<Seq<char>> {
    opts.map_values(|o: (Seq<char>, Seq<char>)| "    "@ + o.0 + " "@ + o.1)
}

/// The lines of one entry's stanza, options in the order given.
pub open spec fn stanza_lines(e: InterfaceModel) -> Seq<Seq<char>> {
    (if e.auto {
        seq!["auto "@ + e.name]
    } else {
        Seq::empty()
    }) + allow_lines(e.name, e.allow) + mapping_lines(e.name, e.mapping) + seq![iface_head(e)]
        + option_lines(e.options)
}

/// Each entry's lines after a blank one.
pub open spec fn entry_lines(es: Seq<InterfaceModel>) -> Seq<Seq<char>>
    decreases es.len(),
{
    if es.len() == 0 {
        Seq::empty()
    } else {
        entry_lines(es.drop_last()) + seq![Seq::<char>::empty()] + stanza_lines(es.last())
    }
}

proof fn lemma_lines_block_concat(a: Seq<Seq<char>>, b: Seq<Seq<char>>)
    ensures
        lines_block(a + b) == lines_block(a) + lines_block(b),
    decreases b.len(),
{
    if b.len() == 0 {
        assert(a + b =~= a);
        assert(lines_block(a) + lines_block(b) =~= lines_block(a));
    } else {
        lemma_lines_block_concat(a, b.drop_last());
        assert((a + b).drop_last() =~= a + b.drop_last());
        assert((a + b).last() == b.last());
        assert(lines_block(a) + lines_block(b.drop_last()) + b.last() + nl() =~= lines_block(a) + (
        lines_block(b.drop_last()) + b.last() + nl()));
    }
}

proof fn lemma_allow_lines(x: Seq<char>, tags: Seq<Seq<char>>)
    ensures
        lines_block(allow_lines(x, tags)) == allow_block(x, tags),
    decreases tags.len(),
{
    if tags.len() > 0 {
        lemma_allow_lines(x, tags.drop_last());
        assert(allow_lines(x, tags).drop_last() =~= allow_lines(x, tags.drop_last()));
    }
}

proof fn lemma_map_lines(maps: Seq<Seq<char>>)
    ensures
        lines_block(map_lines(maps)) == map_block(maps),
    decreases maps.len(),
{
    if maps.len() > 0 {
        lemma_map_lines(maps.drop_last());
        assert(map_lines(maps).drop_last() =~= map_lines(maps.drop_last()));
    }
}

proof fn lemma_option_lines(opts: Seq<(Seq<char>, Seq<char>)>)
    ensures
        lines_block(option_lines(opts)) == option_block(opts),
    decreases opts.len(),
{
    if opts.len() > 0 {
        lemma_option_lines(opts.drop_last());
        assert(option_lines(opts).drop_last() =~= option_lines(opts.drop_last()));
    }
}

proof fn lemma_single_line(l: Seq<char>)
    ensures
        lines_block(seq![l]) == l + nl(),
{
    assert(seq![l].drop_last() =~= Seq::<Seq<char>>::empty());
    assert(lines_block(Seq::<Seq<char>>::empty()) == Seq::<char>::empty());
    assert(seq![l].last() == l);
    assert(Seq::<char>::empty() + l + nl() =~= l + nl());
}

/// A stanza's lines make its rendered text, with its options in the order
/// given.
proof fn lemma_stanza_text(e: InterfaceModel)
    requires
        crate::serializer::sort_options(e.options) == e.options,
    ensures
        lines_block(stanza_lines(e)) == interface_text(e),
{
    let a = if e.auto {
        seq!["auto "@ + e.name]
    } else {
        Seq::<Seq<char>>::empty()
    };
    let b = allow_lines(e.name, e.allow);
    let c = mapping_lines(e.name, e.mapping);
    let d = seq![iface_head(e)];
    let f = option_lines(e.options);
    lemma_lines_block_concat(a + b + c + d, f);
    lemma_lines_block_concat(a + b + c, d);
    lemma_lines_block_concat(a + b, c);
    lemma_lines_block_concat(a, b);
    lemma_allow_lines(e.name, e.allow);
    lemma_option_lines(e.options);
    lemma_single_line(iface_head(e));
    if e.auto {
        lemma_single_line("auto "@ + e.name);
    }
    match e.mapping {
        Some(m) => {
            let h = seq!["mapping "@ + e.name, "    script "@ + m.script];
            lemma_lines_block_concat(h, map_lines(m.maps));
            lemma_map_lines(m.maps);
            assert(h.drop_last() =~= seq!["mapping "@ + e.name]);
            lemma_single_line("mapping "@ + e.name);
            assert(lines_block(c) =~= mapping_block(e.name, e.mapping));
        },
        None => {},
    }
    assert(lines_block(stanza_lines(e)) =~= interface_text(e));
}

/// Entries' lines make their rendered text.
proof fn lemma_entries_text(es: Seq<InterfaceModel>)
    requires
        forall|i: int| 0 <= i < es.len() ==> crate::serializer::sort_options(#[trigger] es[i].options)
            == es[i].options,
    ensures
        lines_block(entry_lines(es)) == entries_block(es),
    decreases es.len(),
{
    if es.len() > 0 {
        let e0 = es.drop_last();
        assert forall|i: int| 0 <= i < e0.len() implies crate::serializer::sort_options(
            #[trigger] e0[i].options,
        ) == e0[i].options by {
            assert(e0[i] == es[i]);
        }
        lemma_entries_text(e0);
        lemma_lines_block_concat(entry_lines(e0) + seq![Seq::<char>::empty()], stanza_lines(es.last()));
        lemma_lines_block_concat(entry_lines(e0), seq![Seq::<char>::empty()]);
        lemma_single_line(Seq::<char>::empty());
        assert(es[es.len() - 1] == es.last());
        lemma_stanza_text(es.last());
        assert(Seq::<char>::empty() + nl() =~= nl());
    }
}

/// `dir` is `d` with, at most, one more entry, named `x`, at its end.
pub open spec fn shaped(dir: Seq<InterfaceModel>, d: Seq<InterfaceModel>, x: Seq<char>) -> bool {
    dir == d || (dir.len() == d.len() + 1 && dir.drop_last() == d && dir.last().name == x)
}

/// The entry for `x` so far.
pub open spec fn current(dir: Seq<InterfaceModel>, d: Seq<InterfaceModel>, x: Seq<char>) -> InterfaceModel {
    if dir == d {
        fresh_model(x)
    } else {
        dir.last()
    }
}

proof fn lemma_shaped_put(dir: Seq<InterfaceModel>, d: Seq<InterfaceModel>, x: Seq<char>, e: InterfaceModel)
    requires
        unique_names(d),
        position(d, x) == -1,
        shaped(dir, d, x),
        e.name == x,
    ensures
        entry(dir, x) == current(dir, d, x),
        put(dir, x, e) == d.push(e),
        unique_names(d.push(e)),
        shaped(d.push(e), d, x),
        current(d.push(e), d, x) == e,
{
    lemma_position(d, x);
    if dir == d {
        assert(d.push(fresh_model(x)).update(d.len() as int, e) =~= d.push(e));
    } else {
        assert(dir =~= d.push(dir.last()));
        assert(position(dir, x) == dir.len() - 1);
        assert(dir.update(dir.len() - 1, e) =~= d.push(e));
    }
    let r = d.push(e);
    assert forall|i: int, j: int|
        0 <= i < r.len() && 0 <= j < r.len() && i != j implies #[trigger] r[i].name
        != #[trigger] r[j].name by {
        if i < d.len() && j < d.len() {
            assert(r[i] == d[i] && r[j] == d[j]);
        } else if i < d.len() {
            assert(r[i] == d[i]);
        } else {
            assert(r[j] == d[j]);
        }
    }
    assert(r != d);
    assert(r.drop_last() =~= d);
}

/// Facts on the literals of rendered lines.
proof fn lemma_line_literals()
    ensures
        "auto "@ == "auto"@ + " "@,
        "iface "@ == "iface"@ + " "@,
        "mapping "@ == "mapping"@ + " "@,
        "    script "@ == "    "@ + ("script"@ + " "@),
        "    map "@ == "    "@ + ("map"@ + " "@),
        is_word("auto"@),
        is_word("iface"@),
        is_word("mapping"@),
        is_word("script"@),
        is_word("map"@),
        is_word("allow-"@),
        forall|i: int| 0 <= i < "    "@.len() ==> is_ws(#[trigger] "    "@[i]),
        "    "@.len() == 4,
        is_ws("    "@.last()),
        " "@ == seq![' '],
        "auto"@.len() == 4,
        "iface"@.len() == 5,
        "mapping"@.len() == 7,
        "source"@.len() == 6,
        "script"@.len() == 6,
        "map"@.len() == 3,
        "allow-"@.len() == 6,
        "auto"@[0] == 'a',
        "iface"@[0] == 'i',
        "mapping"@[0] == 'm',
        "source"@[0] == 's',
        "script"@[0] == 's',
        "script"@[1] == 'c',
        "source"@[1] == 'o',
        "map"@[0] == 'm',
        "allow-"@[0] == 'a',
        "allow-"@[1] == 'l',
        "auto"@[1] == 'u',
        !is_allow("auto"@),
        !is_allow("iface"@),
        !is_allow("script"@),
        !is_allow("map"@),
        !is_allow("source"@),
        !is_allow("mapping"@),
{
    reveal_strlit("auto ");
    reveal_strlit("auto");
    reveal_strlit(" ");
    reveal_strlit("iface ");
    reveal_strlit("iface");
    reveal_strlit("mapping ");
    reveal_strlit("mapping");
    reveal_strlit("    script ");
    reveal_strlit("    ");
    reveal_strlit("script");
    reveal_strlit("    map ");
    reveal_strlit("map");
    reveal_strlit("allow-");
    reveal_strlit("source");
    assert("auto "@ =~= "auto"@ + " "@);
    assert("iface "@ =~= "iface"@ + " "@);
    assert("mapping "@ =~= "mapping"@ + " "@);
    assert("    script "@ =~= "    "@ + ("script"@ + " "@));
    assert("    map "@ =~= "    "@ + ("map"@ + " "@));
    assert(" "@ =~= seq![' ']);
    assert("mapping"@.subrange(0, 6) != "allow-"@) by {
        assert("mapping"@.subrange(0, 6)[0] != "allow-"@[0]);
    }
    assert("source"@.subrange(0, 6) != "allow-"@) by {
        assert("source"@.subrange(0, 6)[0] != "allow-"@[0]);
    }
    assert("script"@.subrange(0, 6) != "allow-"@) by {
        assert("script"@.subrange(0, 6)[0] != "allow-"@[0]);
    }
}

/// The parser is in the middle of the stanza of `x`, after the entries `d`.
pub open spec fn in_stanza(
    st: ParseState,
    d: Seq<InterfaceModel>,
    x: Seq<char>,
    c0: Seq<Seq<char>>,
    s0: Seq<Seq<char>>,
) -> bool {
    &&& shaped(st.dir, d, x)
    &&& st.comments == c0
    &&& st.sources == s0
}

/// Where the stanza of `x` may start: after the entries `d`, which do not
/// name `x`.
pub open spec fn fresh_slot(d: Seq<InterfaceModel>, x: Seq<char>) -> bool {
    unique_names(d) && position(d, x) == -1 && is_word(x)
}

proof fn lemma_two_tokens(w: Seq<char>, x: Seq<char>)
    requires
        is_word(w),
        is_word(x),
    ensures
        tokens(w + " "@ + x) == seq![w, x],
{
    lemma_tokens_lead(w, x);
    lemma_tokens_word(x);
    assert(seq![w] + seq![x] =~= seq![w, x]);
}

proof fn lemma_auto_step(st: ParseState, n: int, d: Seq<InterfaceModel>, x: Seq<char>, c0: Seq<Seq<char>>, s0: Seq<Seq<char>>)
    requires
        fresh_slot(d, x),
        in_stanza(st, d, x, c0, s0),
    ensures
        step(st, "auto "@ + x, n) is Ok,
        in_stanza(step(st, "auto "@ + x, n)->Ok_0, d, x, c0, s0),
        step(st, "auto "@ + x, n)->Ok_0.open == OpenStanza::Idle,
        current(step(st, "auto "@ + x, n)->Ok_0.dir, d, x) == (InterfaceModel {
            auto: true,
            ..current(st.dir, d, x)
        }),
{
    lemma_line_literals();
    lemma_two_tokens("auto"@, x);
    let t = tokens("auto "@ + x);
    assert(t[0] != "source"@);
    assert(t.subrange(1, 2) =~= seq![x]);
    assert(mark_auto(st.dir, seq![x].drop_last()) == st.dir);
    lemma_shaped_put(st.dir, d, x, InterfaceModel { auto: true, ..current(st.dir, d, x) });
}

proof fn lemma_allow_step(
    st: ParseState,
    n: int,
    d: Seq<InterfaceModel>,
    x: Seq<char>,
    tag: Seq<char>,
    c0: Seq<Seq<char>>,
    s0: Seq<Seq<char>>,
)
    requires
        fresh_slot(d, x),
        in_stanza(st, d, x, c0, s0),
        forall|i: int| 0 <= i < tag.len() ==> !is_ws(#[trigger] tag[i]),
    ensures
        step(st, "allow-"@ + tag + " "@ + x, n) is Ok,
        in_stanza(step(st, "allow-"@ + tag + " "@ + x, n)->Ok_0, d, x, c0, s0),
        step(st, "allow-"@ + tag + " "@ + x, n)->Ok_0.open == OpenStanza::Idle,
        current(step(st, "allow-"@ + tag + " "@ + x, n)->Ok_0.dir, d, x) == (InterfaceModel {
            allow: current(st.dir, d, x).allow.push(tag),
            ..current(st.dir, d, x)
        }),
{
    lemma_line_literals();
    let w = "allow-"@ + tag;
    assert(is_word(w)) by {
        assert forall|i: int| 0 <= i < w.len() implies !is_ws(#[trigger] w[i]) by {
            if i < 6 {
                assert(w[i] == "allow-"@[i]);
            } else {
                assert(w[i] == tag[i - 6]);
            }
        }
    }
    lemma_two_tokens(w, x);
    let t = tokens(w + " "@ + x);
    assert(w[0] == 'a');
    assert(w.len() >= 6);
    assert(w != "source"@) by {
        assert(w[0] != "source"@[0]);
    }
    assert(w != "auto"@);
    assert(w.subrange(0, 6) =~= "allow-"@);
    assert(allow_tag(w) =~= tag);
    assert(t.subrange(1, 2) =~= seq![x]);
    assert(add_allow(st.dir, seq![x].drop_last(), tag) == st.dir);
    let e = current(st.dir, d, x);
    lemma_shaped_put(st.dir, d, x, InterfaceModel { allow: e.allow.push(tag), ..e });
}

proof fn lemma_mapping_step(
    st: ParseState,
    n: int,
    d: Seq<InterfaceModel>,
    x: Seq<char>,
    c0: Seq<Seq<char>>,
    s0: Seq<Seq<char>>,
)
    requires
        fresh_slot(d, x),
        in_stanza(st, d, x, c0, s0),
    ensures
        step(st, "mapping "@ + x, n) is Ok,
        in_stanza(step(st, "mapping "@ + x, n)->Ok_0, d, x, c0, s0),
        step(st, "mapping "@ + x, n)->Ok_0.open == OpenStanza::Mapping(x),
        step(st, "mapping "@ + x, n)->Ok_0.dir != d,
        current(step(st, "mapping "@ + x, n)->Ok_0.dir, d, x) == (InterfaceModel {
            mapping: Some(MappingModel { script: Seq::empty(), maps: Seq::empty() }),
            ..current(st.dir, d, x)
        }),
{
    lemma_line_literals();
    lemma_two_tokens("mapping"@, x);
    let t = tokens("mapping "@ + x);
    assert(t[0] != "source"@);
    assert(t[0] != "auto"@);
    assert(t[0] != "iface"@);
    lemma_shaped_put(
        st.dir,
        d,
        x,
        InterfaceModel {
            mapping: Some(MappingModel { script: Seq::empty(), maps: Seq::empty() }),
            ..current(st.dir, d, x)
        },
    );
}

/// The tokens of an indented `<key> <value>` line.
proof fn lemma_body_tokens(k: Seq<char>, v: Seq<char>)
    requires
        is_word(k),
    ensures
        tokens("    "@ + (k + " "@ + v)) == seq![k] + tokens(v),
        tokens("    "@ + k + " "@ + v) == seq![k] + tokens(v),
{
    lemma_line_literals();
    lemma_tokens_concat("    "@, k + " "@ + v);
    lemma_tokens_blank("    "@);
    lemma_tokens_lead(k, v);
    assert(Seq::<Seq<char>>::empty() + (seq![k] + tokens(v)) =~= seq![k] + tokens(v));
    assert("    "@ + k + " "@ + v =~= "    "@ + (k + " "@ + v));
}

/// A value that is its words joined by single spaces.
pub open spec fn single_spaced(v: Seq<char>) -> bool {
    no_newline(v) && join_spaced(tokens(v)) == v
}

proof fn lemma_script_step(
    st: ParseState,
    n: int,
    d: Seq<InterfaceModel>,
    x: Seq<char>,
    v: Seq<char>,
    c0: Seq<Seq<char>>,
    s0: Seq<Seq<char>>,
)
    requires
        fresh_slot(d, x),
        in_stanza(st, d, x, c0, s0),
        st.open == OpenStanza::Mapping(x),
        single_spaced(v),
        st.dir != d,
    ensures
        step(st, "    script "@ + v, n) is Ok,
        in_stanza(step(st, "    script "@ + v, n)->Ok_0, d, x, c0, s0),
        step(st, "    script "@ + v, n)->Ok_0.open == OpenStanza::Mapping(x),
        step(st, "    script "@ + v, n)->Ok_0.dir != d,
        current(step(st, "    script "@ + v, n)->Ok_0.dir, d, x) == (InterfaceModel {
            mapping: Some(MappingModel { script: v, ..crate::parser::mapping_or_empty(current(st.dir, d, x)) }),
            ..current(st.dir, d, x)
        }),
{
    lemma_line_literals();
    lemma_body_tokens("script"@, v);
    assert("    script "@ + v =~= "    "@ + ("script"@ + " "@ + v));
    let t = tokens("    script "@ + v);
    assert(t[0] == "script"@);
    assert(t.subrange(1, t.len() as int) =~= tokens(v));
    assert(t[0] != "source"@) by {
        assert(t[0][1] != "source"@[1]);
    }
    assert(!is_directive(t[0]));
    let e = current(st.dir, d, x);
    lemma_shaped_put(
        st.dir,
        d,
        x,
        InterfaceModel {
            mapping: Some(MappingModel { script: v, ..crate::parser::mapping_or_empty(e) }),
            ..e
        },
    );
}

proof fn lemma_map_step(
    st: ParseState,
    n: int,
    d: Seq<InterfaceModel>,
    x: Seq<char>,
    v: Seq<char>,
    c0: Seq<Seq<char>>,
    s0: Seq<Seq<char>>,
)
    requires
        fresh_slot(d, x),
        in_stanza(st, d, x, c0, s0),
        st.open == OpenStanza::Mapping(x),
        single_spaced(v),
        st.dir != d,
    ensures
        step(st, "    map "@ + v, n) is Ok,
        in_stanza(step(st, "    map "@ + v, n)->Ok_0, d, x, c0, s0),
        step(st, "    map "@ + v, n)->Ok_0.open == OpenStanza::Mapping(x),
        step(st, "    map "@ + v, n)->Ok_0.dir != d,
        current(step(st, "    map "@ + v, n)->Ok_0.dir, d, x) == (InterfaceModel {
            mapping: Some(MappingModel {
                maps: crate::parser::mapping_or_empty(current(st.dir, d, x)).maps.push(v),
                ..crate::parser::mapping_or_empty(current(st.dir, d, x))
            }),
            ..current(st.dir, d, x)
        }),
{
    lemma_line_literals();
    lemma_body_tokens("map"@, v);
    assert("    map "@ + v =~= "    "@ + ("map"@ + " "@ + v));
    let t = tokens("    map "@ + v);
    assert(t[0] == "map"@);
    assert(t.subrange(1, t.len() as int) =~= tokens(v));
    assert(t[0] != "script"@);
    assert(!is_directive(t[0]));
    let e = current(st.dir, d, x);
    let m = crate::parser::mapping_or_empty(e);
    lemma_shaped_put(
        st.dir,
        d,
        x,
        InterfaceModel { mapping: Some(MappingModel { maps: m.maps.push(v), ..m }), ..e },
    );
}

proof fn lemma_option_step(
    st: ParseState,
    n: int,
    d: Seq<InterfaceModel>,
    x: Seq<char>,
    k: Seq<char>,
    v: Seq<char>,
    c0: Seq<Seq<char>>,
    s0: Seq<Seq<char>>,
)
    requires
        fresh_slot(d, x),
        in_stanza(st, d, x, c0, s0),
        st.open == OpenStanza::Stanza(x),
        st.dir != d,
        is_word(k),
        !is_directive(k),
        k[0] != '#',
        single_spaced(v),
    ensures
        step(st, "    "@ + k + " "@ + v, n) is Ok,
        in_stanza(step(st, "    "@ + k + " "@ + v, n)->Ok_0, d, x, c0, s0),
        step(st, "    "@ + k + " "@ + v, n)->Ok_0.open == OpenStanza::Stanza(x),
        step(st, "    "@ + k + " "@ + v, n)->Ok_0.dir != d,
        current(step(st, "    "@ + k + " "@ + v, n)->Ok_0.dir, d, x) == (InterfaceModel {
            options: current(st.dir, d, x).options.push((k, v)),
            ..current(st.dir, d, x)
        }),
{
    lemma_body_tokens(k, v);
    let t = tokens("    "@ + k + " "@ + v);
    assert(t[0] == k);
    assert(t.subrange(1, t.len() as int) =~= tokens(v));
    let e = current(st.dir, d, x);
    lemma_shaped_put(st.dir, d, x, InterfaceModel { options: e.options.push((k, v)), ..e });
}

proof fn lemma_family_words(f: crate::interface::Family)
    ensures
        is_word(family_text(f)),
        family_of(family_text(f)) == Some(f),
{
    reveal_strlit("inet");
    reveal_strlit("inet6");
    reveal_strlit("ipx");
    reveal_strlit("can");
    assert("inet"@ != "inet6"@) by {
        assert("inet"@.len() != "inet6"@.len());
    }
    assert("inet"@ != "ipx"@) by {
        assert("inet"@.len() != "ipx"@.len());
    }
    assert("inet"@ != "can"@) by {
        assert("inet"@.len() != "can"@.len());
    }
    assert("inet6"@ != "ipx"@) by {
        assert("inet6"@.len() != "ipx"@.len());
    }
    assert("inet6"@ != "can"@) by {
        assert("inet6"@.len() != "can"@.len());
    }
    assert("ipx"@ != "can"@) by {
        assert("ipx"@[0] != "can"@[0]);
    }
}

/// The tokens of an `iface` header.
proof fn lemma_iface_tokens(e: InterfaceModel)
    requires
        is_word(e.name),
        e.method is Some ==> is_word(e.method->0),
    ensures
        tokens(iface_head(e)) == seq!["iface"@, e.name] + match e.family {
            Some(f) => seq![family_text(f)],
            None => Seq::empty(),
        } + match e.method {
            Some(m) => seq![m],
            None => Seq::empty(),
        },
{
    lemma_line_literals();
    let x = e.name;
    let fpart = match e.family {
        Some(f) => " "@ + family_text(f),
        None => Seq::<char>::empty(),
    };
    let mpart = match e.method {
        Some(m) => " "@ + m,
        None => Seq::<char>::empty(),
    };
    let rest = x + fpart + mpart;
    assert(iface_head(e) =~= "iface"@ + " "@ + rest);
    lemma_tokens_lead("iface"@, rest);
    let ft = match e.family {
        Some(f) => seq![family_text(f)],
        None => Seq::<Seq<char>>::empty(),
    };
    let mt = match e.method {
        Some(m) => seq![m],
        None => Seq::<Seq<char>>::empty(),
    };
    match e.family {
        Some(f) => {
            lemma_family_words(f);
            match e.method {
                Some(m) => {
                    assert(rest =~= x + " "@ + (family_text(f) + " "@ + m));
                    lemma_tokens_lead(x, family_text(f) + " "@ + m);
                    lemma_two_tokens(family_text(f), m);
                },
                None => {
                    assert(rest =~= x + " "@ + family_text(f));
                    lemma_two_tokens(x, family_text(f));
                },
            }
        },
        None => {
            match e.method {
                Some(m) => {
                    assert(rest =~= x + " "@ + m);
                    lemma_two_tokens(x, m);
                },
                None => {
                    assert(rest =~= x);
                    lemma_tokens_word(x);
                },
            }
        },
    }
    assert(tokens(rest) =~= seq![x] + ft + mt);
    assert(seq!["iface"@] + (seq![x] + ft + mt) =~= seq!["iface"@, x] + ft + mt);
}

proof fn lemma_iface_step(
    st: ParseState,
    n: int,
    d: Seq<InterfaceModel>,
    e: InterfaceModel,
    c0: Seq<Seq<char>>,
    s0: Seq<Seq<char>>,
)
    requires
        fresh_slot(d, e.name),
        in_stanza(st, d, e.name, c0, s0),
        e.method is Some ==> is_word(e.method->0),
        e.family is None && e.method is Some ==> family_of(e.method->0) is None,
    ensures
        step(st, iface_head(e), n) is Ok,
        in_stanza(step(st, iface_head(e), n)->Ok_0, d, e.name, c0, s0),
        step(st, iface_head(e), n)->Ok_0.open == OpenStanza::Stanza(e.name),
        step(st, iface_head(e), n)->Ok_0.dir != d,
        current(step(st, iface_head(e), n)->Ok_0.dir, d, e.name) == (InterfaceModel {
            family: if e.family is Some {
                e.family
            } else {
                current(st.dir, d, e.name).family
            },
            method: if e.method is Some {
                e.method
            } else {
                current(st.dir, d, e.name).method
            },
            ..current(st.dir, d, e.name)
        }),
{
    lemma_line_literals();
    lemma_iface_tokens(e);
    let t = tokens(iface_head(e));
    let x = e.name;
    assert(t[0] == "iface"@);
    assert(t[1] == x);
    assert(t[0] != "source"@);
    assert(t[0] != "auto"@);
    match e.family {
        Some(f) => {
            lemma_family_words(f);
            assert(t[2] == family_text(f));
        },
        None => {},
    }
    assert(iface_family(t) == e.family);
    assert(iface_method(t) == e.method);
    let c = current(st.dir, d, x);
    let ne = InterfaceModel {
        family: if e.family is Some {
            e.family
        } else {
            c.family
        },
        method: if e.method is Some {
            e.method
        } else {
            c.method
        },
        ..c
    };
    lemma_shaped_put(st.dir, d, x, ne);
}

/// No whitespace in `s`.
pub open spec fn no_ws(s: Seq<char>) -> bool {
    forall|i: int| 0 <= i < s.len() ==> !is_ws(#[trigger] s[i])
}

proof fn lemma_allow_run(
    st: ParseState,
    base: int,
    d: Seq<InterfaceModel>,
    x: Seq<char>,
    tags: Seq<Seq<char>>,
    c0: Seq<Seq<char>>,
    s0: Seq<Seq<char>>,
)
    requires
        fresh_slot(d, x),
        in_stanza(st, d, x, c0, s0),
        forall|i: int| 0 <= i < tags.len() ==> no_ws(#[trigger] tags[i]),
    ensures
        run_from(st, allow_lines(x, tags), base) is Ok,
        in_stanza(run_from(st, allow_lines(x, tags), base)->Ok_0, d, x, c0, s0),
        tags.len() > 0 ==> run_from(st, allow_lines(x, tags), base)->Ok_0.open == OpenStanza::Idle,
        tags.len() == 0 ==> run_from(st, allow_lines(x, tags), base) == Ok::<ParseState, int>(st),
        current(run_from(st, allow_lines(x, tags), base)->Ok_0.dir, d, x) == (InterfaceModel {
            allow: current(st.dir, d, x).allow + tags,
            ..current(st.dir, d, x)
        }),
    decreases tags.len(),
{
    let q = allow_lines(x, tags);
    if tags.len() == 0 {
        assert(q.len() == 0);
        assert(run_from(st, q, base) == Ok::<ParseState, int>(st));
        let c = current(st.dir, d, x);
        assert(c.allow + tags =~= c.allow);
        assert(c == InterfaceModel { allow: c.allow + tags, ..c });
    } else {
        let t0 = tags.drop_last();
        assert forall|i: int| 0 <= i < t0.len() implies no_ws(#[trigger] t0[i]) by {
            assert(t0[i] == tags[i]);
        }
        lemma_allow_run(st, base, d, x, t0, c0, s0);
        assert(q.drop_last() =~= allow_lines(x, t0));
        assert(q.last() == "allow-"@ + tags.last() + " "@ + x);
        let s1 = run_from(st, allow_lines(x, t0), base)->Ok_0;
        assert(no_ws(tags[tags.len() - 1]));
        lemma_allow_step(s1, base + q.len(), d, x, tags.last(), c0, s0);
        let c = current(st.dir, d, x);
        assert((c.allow + t0).push(tags.last()) =~= c.allow + tags);
    }
}

proof fn lemma_map_run(
    st: ParseState,
    base: int,
    d: Seq<InterfaceModel>,
    x: Seq<char>,
    maps: Seq<Seq<char>>,
    c0: Seq<Seq<char>>,
    s0: Seq<Seq<char>>,
)
    requires
        fresh_slot(d, x),
        in_stanza(st, d, x, c0, s0),
        st.open == OpenStanza::Mapping(x),
        st.dir != d,
        current(st.dir, d, x).mapping is Some,
        forall|i: int| 0 <= i < maps.len() ==> single_spaced(#[trigger] maps[i]),
    ensures
        run_from(st, map_lines(maps), base) is Ok,
        in_stanza(run_from(st, map_lines(maps), base)->Ok_0, d, x, c0, s0),
        run_from(st, map_lines(maps), base)->Ok_0.open == OpenStanza::Mapping(x),
        run_from(st, map_lines(maps), base)->Ok_0.dir != d,
        current(run_from(st, map_lines(maps), base)->Ok_0.dir, d, x) == (InterfaceModel {
            mapping: Some(MappingModel {
                maps: crate::parser::mapping_or_empty(current(st.dir, d, x)).maps + maps,
                ..crate::parser::mapping_or_empty(current(st.dir, d, x))
            }),
            ..current(st.dir, d, x)
        }),
    decreases maps.len(),
{
    let q = map_lines(maps);
    let c = current(st.dir, d, x);
    if maps.len() == 0 {
        assert(q.len() == 0);
        assert(run_from(st, q, base) == Ok::<ParseState, int>(st));
        let m = crate::parser::mapping_or_empty(c);
        assert(m.maps + maps =~= m.maps);
        assert(c.mapping == Some(MappingModel { maps: m.maps + maps, ..m }));
        assert(c == InterfaceModel { mapping: Some(MappingModel { maps: m.maps + maps, ..m }), ..c });
    } else {
        let m0 = maps.drop_last();
        assert forall|i: int| 0 <= i < m0.len() implies single_spaced(#[trigger] m0[i]) by {
            assert(m0[i] == maps[i]);
        }
        lemma_map_run(st, base, d, x, m0, c0, s0);
        assert(q.drop_last() =~= map_lines(m0));
        assert(q.last() == "    map "@ + maps.last());
        let s1 = run_from(st, map_lines(m0), base)->Ok_0;
        assert(single_spaced(maps[maps.len() - 1]));
        lemma_map_step(s1, base + q.len(), d, x, maps.last(), c0, s0);
        assert((crate::parser::mapping_or_empty(c).maps + m0).push(maps.last())
            =~= crate::parser::mapping_or_empty(c).maps + maps);
    }
}

/// An option that renders to a line the parser reads back as itself.
pub open spec fn canonical_option(o: (Seq<char>, Seq<char>)) -> bool {
    &&& is_word(o.0)
    &&& !is_directive(o.0)
    &&& o.0[0] != '#'
    &&& single_spaced(o.1)
}

proof fn lemma_option_run(
    st: ParseState,
    base: int,
    d: Seq<InterfaceModel>,
    x: Seq<char>,
    opts: Seq<(Seq<char>, Seq<char>)>,
    c0: Seq<Seq<char>>,
    s0: Seq<Seq<char>>,
)
    requires
        fresh_slot(d, x),
        in_stanza(st, d, x, c0, s0),
        st.open == OpenStanza::Stanza(x),
        st.dir != d,
        forall|i: int| 0 <= i < opts.len() ==> canonical_option(#[trigger] opts[i]),
    ensures
        run_from(st, option_lines(opts), base) is Ok,
        in_stanza(run_from(st, option_lines(opts), base)->Ok_0, d, x, c0, s0),
        run_from(st, option_lines(opts), base)->Ok_0.open == OpenStanza::Stanza(x),
        run_from(st, option_lines(opts), base)->Ok_0.dir != d,
        current(run_from(st, option_lines(opts), base)->Ok_0.dir, d, x) == (InterfaceModel {
            options: current(st.dir, d, x).options + opts,
            ..current(st.dir, d, x)
        }),
    decreases opts.len(),
{
    let q = option_lines(opts);
    let c = current(st.dir, d, x);
    if opts.len() == 0 {
        assert(q.len() == 0);
        assert(run_from(st, q, base) == Ok::<ParseState, int>(st));
        assert(c.options + opts =~= c.options);
        assert(c == InterfaceModel { options: c.options + opts, ..c });
    } else {
        let o0 = opts.drop_last();
        assert forall|i: int| 0 <= i < o0.len() implies canonical_option(#[trigger] o0[i]) by {
            assert(o0[i] == opts[i]);
        }
        lemma_option_run(st, base, d, x, o0, c0, s0);
        assert(q.drop_last() =~= option_lines(o0));
        let o = opts.last();
        assert(q.last() == "    "@ + o.0 + " "@ + o.1);
        let s1 = run_from(st, option_lines(o0), base)->Ok_0;
        assert(canonical_option(opts[opts.len() - 1]));
        lemma_option_step(s1, base + q.len(), d, x, o.0, o.1, c0, s0);
        assert((c.options + o0).push(o) =~= c.options + opts);
    }
}

/// An entry whose stanza the parser reads back as the entry itself.
pub open spec fn canonical_entry(e: InterfaceModel) -> bool {
    &&& is_word(e.name)
    &&& forall|i: int| 0 <= i < e.allow.len() ==> no_ws(#[trigger] e.allow[i])
    &&& match e.mapping {
        Some(m) => single_spaced(m.script) && forall|i: int|
            0 <= i < m.maps.len() ==> single_spaced(#[trigger] m.maps[i]),
        None => true,
    }
    &&& e.method is Some ==> is_word(e.method->0)
    &&& e.family is None && e.method is Some ==> family_of(e.method->0) is None
    &&& forall|i: int| 0 <= i < e.options.len() ==> canonical_option(#[trigger] e.options[i])
}/// The blank line, the `auto` line and the `allow` lines of a stanza.
proof fn lemma_head_run(
    st: ParseState,
    base: int,
    d: Seq<InterfaceModel>,
    e: InterfaceModel,
    c0: Seq<Seq<char>>,
    s0: Seq<Seq<char>>,
)
    requires
        fresh_slot(d, e.name),
        in_stanza(st, d, e.name, c0, s0),
        st.dir == d,
        canonical_entry(e),
    ensures
        run_from(st, head_lines(e), base) is Ok,
        in_stanza(run_from(st, head_lines(e), base)->Ok_0, d, e.name, c0, s0),
        current(run_from(st, head_lines(e), base)->Ok_0.dir, d, e.name) == (InterfaceModel {
            auto: e.auto,
            allow: e.allow,
            ..fresh_model(e.name)
        }),
{
    let x = e.name;
    let l0 = seq![Seq::<char>::empty()];
    let a = if e.auto {
        seq!["auto "@ + x]
    } else {
        Seq::<Seq<char>>::empty()
    };
    let b = allow_lines(x, e.allow);
    lemma_run_single(st, Seq::<char>::empty(), base);
    assert(tokens(Seq::<char>::empty()) == Seq::<Seq<char>>::empty());
    assert(run_from(st, l0, base) == Ok::<ParseState, int>(st));
    let s1 = if e.auto {
        step(st, "auto "@ + x, base + 2)->Ok_0
    } else {
        st
    };
    if e.auto {
        lemma_run_single(st, "auto "@ + x, base + 1);
        lemma_auto_step(st, base + 2, d, x, c0, s0);
    } else {
        assert(run_from(st, a, base + 1) == Ok::<ParseState, int>(st));
    }
    lemma_run_concat(st, l0, a, base);
    assert(run_from(st, l0 + a, base) == Ok::<ParseState, int>(s1));
    let n1 = base + (l0 + a).len();
    lemma_allow_run(s1, n1, d, x, e.allow, c0, s0);
    lemma_run_concat(st, l0 + a, b, base);
    assert(Seq::<Seq<char>>::empty() + e.allow =~= e.allow);
}

/// The blank line, the `auto` line and the `allow` lines of a stanza.
pub open spec fn head_lines(e: InterfaceModel) -> Seq<Seq<char>> {
    seq![Seq::<char>::empty()] + (if e.auto {
        seq!["auto "@ + e.name]
    } else {
        Seq::<Seq<char>>::empty()
    }) + allow_lines(e.name, e.allow)
}

/// The `mapping` block of a stanza.
proof fn lemma_mapping_run(
    st: ParseState,
    base: int,
    d: Seq<InterfaceModel>,
    e: InterfaceModel,
    c0: Seq<Seq<char>>,
    s0: Seq<Seq<char>>,
)
    requires
        fresh_slot(d, e.name),
        in_stanza(st, d, e.name, c0, s0),
        canonical_entry(e),
        current(st.dir, d, e.name).mapping is None,
    ensures
        run_from(st, mapping_lines(e.name, e.mapping), base) is Ok,
        in_stanza(run_from(st, mapping_lines(e.name, e.mapping), base)->Ok_0, d, e.name, c0, s0),
        current(run_from(st, mapping_lines(e.name, e.mapping), base)->Ok_0.dir, d, e.name) == (
        InterfaceModel { mapping: e.mapping, ..current(st.dir, d, e.name) }),
        e.mapping is None ==> run_from(st, mapping_lines(e.name, e.mapping), base) == Ok::<
            ParseState,
            int,
        >(st),
{
    let x = e.name;
    let c = mapping_lines(x, e.mapping);
    match e.mapping {
        Some(m) => {
            lemma_mapping_step(st, base + 1, d, x, c0, s0);
            let t1 = step(st, "mapping "@ + x, base + 1)->Ok_0;
            lemma_script_step(t1, base + 2, d, x, m.script, c0, s0);
            let t2 = step(t1, "    script "@ + m.script, base + 2)->Ok_0;
            let h = seq!["mapping "@ + x, "    script "@ + m.script];
            lemma_run_concat(st, seq!["mapping "@ + x], seq!["    script "@ + m.script], base);
            assert(seq!["mapping "@ + x] + seq!["    script "@ + m.script] =~= h);
            lemma_run_single(st, "mapping "@ + x, base);
            lemma_run_single(t1, "    script "@ + m.script, base + 1);
            assert(run_from(st, h, base) == Ok::<ParseState, int>(t2));
            lemma_map_run(t2, base + 2, d, x, m.maps, c0, s0);
            lemma_run_concat(st, h, map_lines(m.maps), base);
            let cur0 = current(st.dir, d, x);
            let cur1 = current(t1.dir, d, x);
            let cur = current(t2.dir, d, x);
            assert(crate::parser::mapping_or_empty(cur1) == MappingModel {
                script: Seq::empty(),
                maps: Seq::empty(),
            });
            assert(crate::parser::mapping_or_empty(cur) == MappingModel {
                script: m.script,
                maps: Seq::empty(),
            });
            assert(crate::parser::mapping_or_empty(cur).maps + m.maps =~= m.maps);
            let fin = current(run_from(st, c, base)->Ok_0.dir, d, x);
            assert(fin.mapping == Some(m));
            assert(fin == InterfaceModel { mapping: e.mapping, ..cur0 });
        },
        None => {
            assert(c.len() == 0);
            assert(run_from(st, c, base) == Ok::<ParseState, int>(st));
        },
    }
}

/// The `iface` header and the option lines of a stanza.
proof fn lemma_tail_run(
    st: ParseState,
    base: int,
    d: Seq<InterfaceModel>,
    e: InterfaceModel,
    c0: Seq<Seq<char>>,
    s0: Seq<Seq<char>>,
)
    requires
        fresh_slot(d, e.name),
        in_stanza(st, d, e.name, c0, s0),
        canonical_entry(e),
    ensures
        run_from(st, seq![iface_head(e)] + option_lines(e.options), base) is Ok,
        in_stanza(run_from(st, seq![iface_head(e)] + option_lines(e.options), base)->Ok_0, d, e.name, c0, s0),
        run_from(st, seq![iface_head(e)] + option_lines(e.options), base)->Ok_0.dir != d,
        current(run_from(st, seq![iface_head(e)] + option_lines(e.options), base)->Ok_0.dir, d, e.name) == (
        InterfaceModel {
            family: if e.family is Some {
                e.family
            } else {
                current(st.dir, d, e.name).family
            },
            method: if e.method is Some {
                e.method
            } else {
                current(st.dir, d, e.name).method
            },
            options: current(st.dir, d, e.name).options + e.options,
            ..current(st.dir, d, e.name)
        }),
{
    let x = e.name;
    lemma_iface_step(st, base + 1, d, e, c0, s0);
    let s4 = step(st, iface_head(e), base + 1)->Ok_0;
    lemma_run_single(st, iface_head(e), base);
    lemma_option_run(s4, base + 1, d, x, e.options, c0, s0);
    lemma_run_concat(st, seq![iface_head(e)], option_lines(e.options), base);
}

/// A blank line and the stanza of `e`, read after the entries `d`, append
/// exactly `e`.
proof fn lemma_stanza_run(
    st: ParseState,
    base: int,
    d: Seq<InterfaceModel>,
    e: InterfaceModel,
    c0: Seq<Seq<char>>,
    s0: Seq<Seq<char>>,
)
    requires
        fresh_slot(d, e.name),
        in_stanza(st, d, e.name, c0, s0),
        st.dir == d,
        canonical_entry(e),
    ensures
        run_from(st, seq![Seq::<char>::empty()] + stanza_lines(e), base) is Ok,
        run_from(st, seq![Seq::<char>::empty()] + stanza_lines(e), base)->Ok_0.dir == d.push(e),
        run_from(st, seq![Seq::<char>::empty()] + stanza_lines(e), base)->Ok_0.comments == c0,
        run_from(st, seq![Seq::<char>::empty()] + stanza_lines(e), base)->Ok_0.sources == s0,
{
    let x = e.name;
    let h = head_lines(e);
    let c = mapping_lines(x, e.mapping);
    let t = seq![iface_head(e)] + option_lines(e.options);
    assert(seq![Seq::<char>::empty()] + stanza_lines(e) =~= h + c + t);
    lemma_head_run(st, base, d, e, c0, s0);
    let s2 = run_from(st, h, base)->Ok_0;
    lemma_mapping_run(s2, base + h.len(), d, e, c0, s0);
    lemma_run_concat(st, h, c, base);
    let s3 = run_from(s2, c, base + h.len())->Ok_0;
    lemma_tail_run(s3, base + h.len() + c.len(), d, e, c0, s0);
    lemma_run_concat(st, h + c, t, base);
    let s5 = run_from(s3, t, base + h.len() + c.len())->Ok_0;
    let cur = current(s5.dir, d, x);
    assert(Seq::<(Seq<char>, Seq<char>)>::empty() + e.options =~= e.options);
    assert(cur == e);
    assert(s5.dir =~= d.push(cur));
}

/// Leading comment lines, read from the start.
proof fn lemma_comments_run(c: Seq<Seq<char>>)
    requires
        forall|i: int| 0 <= i < c.len() ==> is_comment(tokens(#[trigger] c[i])),
    ensures
        run_from(crate::parser::initial_state(), c, 0) == Ok::<ParseState, int>(ParseState {
            comments: c,
            ..crate::parser::initial_state()
        }),
    decreases c.len(),
{
    let st0 = crate::parser::initial_state();
    if c.len() == 0 {
        assert(st0.comments =~= c);
    } else {
        let c0 = c.drop_last();
        assert forall|i: int| 0 <= i < c0.len() implies is_comment(tokens(#[trigger] c0[i])) by {
            assert(c0[i] == c[i]);
        }
        lemma_comments_run(c0);
        assert(is_comment(tokens(c[c.len() - 1])));
        assert(c0.push(c.last()) =~= c);
    }
}

/// A `source` line.
pub open spec fn is_source_line(l: Seq<char>) -> bool {
    tokens(l).len() > 0 && tokens(l)[0] == "source"@
}

/// `source` lines after the comments.
proof fn lemma_sources_run(st: ParseState, s: Seq<Seq<char>>, base: int)
    requires
        forall|i: int| 0 <= i < s.len() ==> is_source_line(#[trigger] s[i]),
        st.sources == Seq::<Seq<char>>::empty(),
    ensures
        run_from(st, s, base) is Ok,
        run_from(st, s, base)->Ok_0.dir == st.dir,
        run_from(st, s, base)->Ok_0.comments == st.comments,
        run_from(st, s, base)->Ok_0.sources == s,
        run_from(st, s, base)->Ok_0.open == st.open,
    decreases s.len(),
{
    lemma_line_literals();
    if s.len() == 0 {
        assert(st.sources =~= s);
    } else {
        let s0 = s.drop_last();
        assert forall|i: int| 0 <= i < s0.len() implies is_source_line(#[trigger] s0[i]) by {
            assert(s0[i] == s[i]);
        }
        lemma_sources_run(st, s0, base);
        assert(is_source_line(s[s.len() - 1]));
        let t = tokens(s.last());
        assert(t[0][0] == 's');
        assert(s0.push(s.last()) =~= s);
    }
}

/// The stanzas of `es`, read after the entries `d`.
proof fn lemma_entries_run(
    st: ParseState,
    base: int,
    es: Seq<InterfaceModel>,
    c0: Seq<Seq<char>>,
    s0: Seq<Seq<char>>,
)
    requires
        st.dir == Seq::<InterfaceModel>::empty(),
        st.comments == c0,
        st.sources == s0,
        unique_names(es),
        forall|i: int| 0 <= i < es.len() ==> canonical_entry(#[trigger] es[i]),
    ensures
        run_from(st, entry_lines(es), base) is Ok,
        run_from(st, entry_lines(es), base)->Ok_0.dir == es,
        run_from(st, entry_lines(es), base)->Ok_0.comments == c0,
        run_from(st, entry_lines(es), base)->Ok_0.sources == s0,
    decreases es.len(),
{
    if es.len() == 0 {
        assert(entry_lines(es).len() == 0);
        assert(run_from(st, entry_lines(es), base) == Ok::<ParseState, int>(st));
        assert(st.dir =~= es);
    } else {
        let e0 = es.drop_last();
        assert(unique_names(e0)) by {
            assert forall|i: int, j: int|
                0 <= i < e0.len() && 0 <= j < e0.len() && i != j implies #[trigger] e0[i].name
                != #[trigger] e0[j].name by {
                assert(e0[i] == es[i] && e0[j] == es[j]);
            }
        }
        assert forall|i: int| 0 <= i < e0.len() implies canonical_entry(#[trigger] e0[i]) by {
            assert(e0[i] == es[i]);
        }
        lemma_entries_run(st, base, e0, c0, s0);
        let s1 = run_from(st, entry_lines(e0), base)->Ok_0;
        let e = es.last();
        assert(canonical_entry(es[es.len() - 1]));
        lemma_position(e0, e.name);
        if position(e0, e.name) >= 0 {
            let k = position(e0, e.name);
            assert(es[k].name == es[es.len() - 1].name);
        }
        lemma_stanza_run(s1, base + entry_lines(e0).len(), e0, e, c0, s0);
        lemma_run_concat(st, entry_lines(e0), seq![Seq::<char>::empty()] + stanza_lines(e), base);
        assert(entry_lines(e0) + (seq![Seq::<char>::empty()] + stanza_lines(e)) =~= entry_lines(es));
        assert(e0.push(e) =~= es);
    }
}

/// No line of `ls` holds a newline.
pub open spec fn all_no_newline(ls: Seq<Seq<char>>) -> bool {
    forall|i: int| 0 <= i < ls.len() ==> no_newline(#[trigger] ls[i])
}

proof fn lemma_no_newline_concat(a: Seq<char>, b: Seq<char>)
    requires
        no_newline(a),
        no_newline(b),
    ensures
        no_newline(a + b),
{
    assert forall|i: int| 0 <= i < (a + b).len() implies #[trigger] (a + b)[i] != '\n' by {
        if i < a.len() {
            assert((a + b)[i] == a[i]);
        } else {
            assert((a + b)[i] == b[i - a.len()]);
        }
    }
}

proof fn lemma_all_no_newline_concat(a: Seq<Seq<char>>, b: Seq<Seq<char>>)
    requires
        all_no_newline(a),
        all_no_newline(b),
    ensures
        all_no_newline(a + b),
{
    assert forall|i: int| 0 <= i < (a + b).len() implies no_newline(#[trigger] (a + b)[i]) by {
        if i < a.len() {
            assert((a + b)[i] == a[i]);
        } else {
            assert((a + b)[i] == b[i - a.len()]);
        }
    }
}

proof fn lemma_no_ws_no_newline(w: Seq<char>)
    requires
        no_ws(w) || is_word(w),
    ensures
        no_newline(w),
{
    assert forall|i: int| 0 <= i < w.len() implies #[trigger] w[i] != '\n' by {
        assert(!is_ws(w[i]));
    }
}

proof fn lemma_literal_no_newline()
    ensures
        no_newline("auto "@),
        no_newline("allow-"@),
        no_newline(" "@),
        no_newline("mapping "@),
        no_newline("    script "@),
        no_newline("    map "@),
        no_newline("iface "@),
        no_newline("    "@),
{
    reveal_strlit("auto ");
    reveal_strlit("allow-");
    reveal_strlit(" ");
    reveal_strlit("mapping ");
    reveal_strlit("    script ");
    reveal_strlit("    map ");
    reveal_strlit("iface ");
    reveal_strlit("    ");
    assert(no_newline("auto "@)) by {
        assert forall|i: int| 0 <= i < "auto "@.len() implies #[trigger] "auto "@[i] != '\n' by {}
    }
    assert(no_newline("allow-"@)) by {
        assert forall|i: int| 0 <= i < "allow-"@.len() implies #[trigger] "allow-"@[i] != '\n' by {}
    }
    assert(no_newline(" "@)) by {
        assert forall|i: int| 0 <= i < " "@.len() implies #[trigger] " "@[i] != '\n' by {}
    }
    assert(no_newline("mapping "@)) by {
        assert forall|i: int| 0 <= i < "mapping "@.len() implies #[trigger] "mapping "@[i] != '\n' by {}
    }
    assert(no_newline("    script "@)) by {
        assert forall|i: int| 0 <= i < "    script "@.len() implies #[trigger] "    script "@[i] != '\n' by {}
    }
    assert(no_newline("    map "@)) by {
        assert forall|i: int| 0 <= i < "    map "@.len() implies #[trigger] "    map "@[i] != '\n' by {}
    }
    assert(no_newline("iface "@)) by {
        assert forall|i: int| 0 <= i < "iface "@.len() implies #[trigger] "iface "@[i] != '\n' by {}
    }
    assert(no_newline("    "@)) by {
        assert forall|i: int| 0 <= i < "    "@.len() implies #[trigger] "    "@[i] != '\n' by {}
    }
}

/// No rendered line of a canonical entry holds a newline.
proof fn lemma_stanza_no_newline(e: InterfaceModel)
    requires
        canonical_entry(e),
    ensures
        all_no_newline(stanza_lines(e)),
{
    lemma_literal_no_newline();
    let x = e.name;
    lemma_no_ws_no_newline(x);
    let a = if e.auto {
        seq!["auto "@ + x]
    } else {
        Seq::<Seq<char>>::empty()
    };
    if e.auto {
        lemma_no_newline_concat("auto "@, x);
        assert(a[0] == "auto "@ + x);
    }
    assert(all_no_newline(a));
    let b = allow_lines(x, e.allow);
    assert forall|i: int| 0 <= i < b.len() implies no_newline(#[trigger] b[i]) by {
        let t = e.allow[i];
        assert(no_ws(t));
        lemma_no_ws_no_newline(t);
        lemma_no_newline_concat("allow-"@, t);
        lemma_no_newline_concat("allow-"@ + t, " "@);
        lemma_no_newline_concat("allow-"@ + t + " "@, x);
    }
    let c = mapping_lines(x, e.mapping);
    match e.mapping {
        Some(m) => {
            lemma_no_newline_concat("mapping "@, x);
            lemma_no_newline_concat("    script "@, m.script);
            let h = seq!["mapping "@ + x, "    script "@ + m.script];
            assert(all_no_newline(h));
            let ml = map_lines(m.maps);
            assert forall|i: int| 0 <= i < ml.len() implies no_newline(#[trigger] ml[i]) by {
                assert(single_spaced(m.maps[i]));
                lemma_no_newline_concat("    map "@, m.maps[i]);
            }
            lemma_all_no_newline_concat(h, ml);
        },
        None => {},
    }
    let fpart = match e.family {
        Some(f) => " "@ + family_text(f),
        None => Seq::<char>::empty(),
    };
    let mpart = match e.method {
        Some(m) => " "@ + m,
        None => Seq::<char>::empty(),
    };
    match e.family {
        Some(f) => {
            lemma_family_words(f);
            lemma_no_ws_no_newline(family_text(f));
            lemma_no_newline_concat(" "@, family_text(f));
        },
        None => {},
    }
    match e.method {
        Some(m) => {
            lemma_no_ws_no_newline(m);
            lemma_no_newline_concat(" "@, m);
        },
        None => {},
    }
    lemma_no_newline_concat("iface "@, x);
    lemma_no_newline_concat("iface "@ + x, fpart);
    lemma_no_newline_concat("iface "@ + x + fpart, mpart);
    let dl = seq![iface_head(e)];
    assert(all_no_newline(dl));
    let f = option_lines(e.options);
    assert forall|i: int| 0 <= i < f.len() implies no_newline(#[trigger] f[i]) by {
        let o = e.options[i];
        assert(canonical_option(o));
        lemma_no_ws_no_newline(o.0);
        lemma_no_newline_concat("    "@, o.0);
        lemma_no_newline_concat("    "@ + o.0, " "@);
        lemma_no_newline_concat("    "@ + o.0 + " "@, o.1);
    }
    lemma_all_no_newline_concat(a, b);
    lemma_all_no_newline_concat(a + b, c);
    lemma_all_no_newline_concat(a + b + c, dl);
    lemma_all_no_newline_concat(a + b + c + dl, f);
}

proof fn lemma_entries_no_newline(es: Seq<InterfaceModel>)
    requires
        forall|i: int| 0 <= i < es.len() ==> canonical_entry(#[trigger] es[i]),
    ensures
        all_no_newline(entry_lines(es)),
    decreases es.len(),
{
    if es.len() > 0 {
        let e0 = es.drop_last();
        assert forall|i: int| 0 <= i < e0.len() implies canonical_entry(#[trigger] e0[i]) by {
            assert(e0[i] == es[i]);
        }
        lemma_entries_no_newline(e0);
        assert(canonical_entry(es[es.len() - 1]));
        lemma_stanza_no_newline(es.last());
        let blank = seq![Seq::<char>::empty()];
        assert(all_no_newline(blank));
        lemma_all_no_newline_concat(entry_lines(e0), blank);
        lemma_all_no_newline_concat(entry_lines(e0) + blank, stanza_lines(es.last()));
    }
}

/// A canonical document: comment lines, `source` lines, and entries of
/// unique names in the order of `name_cmp`, each with its options sorted by key and
/// every name, tag, method, key and value written as the parser reads it
/// back.
pub open spec fn canonical_document(
    comments: Seq<Seq<char>>,
    sources: Seq<Seq<char>>,
    dir: Seq<InterfaceModel>,
) -> bool {
    &&& forall|i: int|
        0 <= i < comments.len() ==> no_newline(#[trigger] comments[i]) && is_comment(
            tokens(comments[i]),
        )
    &&& forall|i: int|
        0 <= i < sources.len() ==> no_newline(#[trigger] sources[i]) && is_source_line(sources[i])
    &&& unique_names(dir)
    &&& crate::serializer::sort_entries(dir) == dir
    &&& forall|i: int|
        0 <= i < dir.len() ==> canonical_entry(#[trigger] dir[i])
            && crate::serializer::sort_options(dir[i].options) == dir[i].options
}

/// Round trip: the text of a canonical document parses back to that document,
/// so rendering the parse gives the same text again.
pub proof fn lemma_round_trip(
    comments: Seq<Seq<char>>,
    sources: Seq<Seq<char>>,
    dir: Seq<InterfaceModel>,
)
    requires
        canonical_document(comments, sources, dir),
    ensures
        crate::parser::parse_text(render_text(comments, sources, dir)) is Ok,
        crate::parser::parse_text(render_text(comments, sources, dir))->Ok_0.dir == dir,
        crate::parser::parse_text(render_text(comments, sources, dir))->Ok_0.comments == comments,
        crate::parser::parse_text(render_text(comments, sources, dir))->Ok_0.sources == sources,
        render_text(
            crate::parser::parse_text(render_text(comments, sources, dir))->Ok_0.comments,
            crate::parser::parse_text(render_text(comments, sources, dir))->Ok_0.sources,
            crate::parser::parse_text(render_text(comments, sources, dir))->Ok_0.dir,
        ) == render_text(comments, sources, dir),
{
    let e = entry_lines(dir);
    let l = comments + sources + e;
    // the text is the block of these lines
    assert forall|i: int| 0 <= i < dir.len() implies crate::serializer::sort_options(
        #[trigger] dir[i].options,
    ) == dir[i].options by {}
    lemma_entries_text(dir);
    lemma_lines_block_concat(comments + sources, e);
    lemma_lines_block_concat(comments, sources);
    let text = render_text(comments, sources, dir);
    assert(text == lines_block(l));
    // which splits back into them
    assert forall|i: int| 0 <= i < dir.len() implies canonical_entry(#[trigger] dir[i]) by {}
    lemma_entries_no_newline(dir);
    assert(all_no_newline(comments));
    assert(all_no_newline(sources));
    lemma_all_no_newline_concat(comments, sources);
    lemma_all_no_newline_concat(comments + sources, e);
    lemma_split_lines_block(l);
    // and the lines parse to the document
    let st0 = crate::parser::initial_state();
    assert forall|i: int| 0 <= i < comments.len() implies is_comment(tokens(#[trigger] comments[i])) by {}
    lemma_comments_run(comments);
    let st1 = run_from(st0, comments, 0)->Ok_0;
    assert forall|i: int| 0 <= i < sources.len() implies is_source_line(#[trigger] sources[i]) by {}
    lemma_sources_run(st1, sources, comments.len() as int);
    let st2 = run_from(st1, sources, comments.len() as int)->Ok_0;
    lemma_entries_run(st2, (comments.len() + sources.len()) as int, dir, comments, sources);
    lemma_run_concat(st0, comments, sources, 0);
    lemma_run_concat(st0, comments + sources, e, 0);
    let st3 = run_from(st0, l, 0)->Ok_0;
    crate::merge_order::lemma_parse_concat(Seq::empty(), l);
    assert(Seq::<Seq<char>>::empty() + l =~= l);
    crate::merge_order::lemma_parse_concat(l, seq![Seq::<char>::empty()]);
    assert(l + seq![Seq::<char>::empty()] =~= l.push(Seq::<char>::empty()));
    lemma_run_single(st3, Seq::<char>::empty(), l.len() as int);
    assert(tokens(Seq::<char>::empty()) == Seq::<Seq<char>>::empty());
}

} // verus!
