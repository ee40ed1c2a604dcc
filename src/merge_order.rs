//! Order independence of the directives that name one interface.

use vstd::prelude::*;
use crate::directory::{lemma_position_unique, lookup, position, unique_names};
use crate::interface::{family_of, fresh_model, InterfaceModel};
use crate::parser::{
    entry, initial_state, iface_family, iface_method, is_comment, is_directive, lemma_ensure_entry,
    lemma_put, parse_lines, put, slot, step, ensure_entry, is_allow, allow_tag, OpenStanza,
    ParseState,
};
use crate::text::{is_ws, join_spaced, tokens};

verus! {

/// The states reached from `st` through `q`, whose first line has number
/// `base + 1`.
pub open spec fn run_from(st: ParseState, q: Seq<Seq<char>>, base: int) -> Result<ParseState, int>
    decreases q.len(),
{
    if q.len() == 0 {
        Ok(st)
    } else {
        match run_from(st, q.drop_last(), base) {
            Ok(s) => step(s, q.last(), base + q.len()),
            Err(e) => Err(e),
        }
    }
}

/// Parsing `p + q` is parsing `p`, then running on through `q`.
pub proof fn lemma_parse_concat(p: Seq<Seq<char>>, q: Seq<Seq<char>>)
    ensures
        parse_lines(p + q) == match parse_lines(p) {
            Ok(s) => run_from(s, q, p.len() as int),
            Err(e) => Err(e),
        },
    decreases q.len(),
{
    if q.len() == 0 {
        assert(p + q =~= p);
    } else {
        lemma_parse_concat(p, q.drop_last());
        assert((p + q).drop_last() =~= p + q.drop_last());
        assert((p + q).last() == q.last());
    }
}

/// Running through `p + q` is running through `p`, then through `q`.
pub proof fn lemma_run_concat(st: ParseState, p: Seq<Seq<char>>, q: Seq<Seq<char>>, base: int)
    ensures
        run_from(st, p + q, base) == match run_from(st, p, base) {
            Ok(s) => run_from(s, q, base + p.len()),
            Err(e) => Err(e),
        },
    decreases q.len(),
{
    if q.len() == 0 {
        assert(p + q =~= p);
    } else {
        lemma_run_concat(st, p, q.drop_last(), base);
        assert((p + q).drop_last() =~= p + q.drop_last());
        assert((p + q).last() == q.last());
    }
}

/// Writing `e` as the entry for its own name leaves it there, found.
proof fn lemma_entry_put(d: Seq<InterfaceModel>, x: Seq<char>, e: InterfaceModel)
    requires
        unique_names(d),
        e.name == x,
    ensures
        unique_names(put(d, x, e)),
        entry(put(d, x, e), x) == e,
        lookup(put(d, x, e), x) == Some(e),
{
    lemma_put(d, x, e);
    lemma_ensure_entry(d, x);
    lemma_position_unique(put(d, x, e), slot(d, x));
}

/// The entry tracked for `x` is named `x`.
proof fn lemma_entry_name(d: Seq<InterfaceModel>, x: Seq<char>)
    requires
        unique_names(d),
    ensures
        entry(d, x).name == x,
{
    lemma_ensure_entry(d, x);
}

/// The option pair that an option line gives.
pub open spec fn option_pair(line: Seq<char>) -> (Seq<char>, Seq<char>) {
    let t = tokens(line);
    (t[0], join_spaced(t.subrange(1, t.len() as int)))
}

/// A line that is neither blank, nor a comment, nor a directive.
pub open spec fn is_option_line(line: Seq<char>) -> bool {
    let t = tokens(line);
    t.len() >= 1 && !is_comment(t) && !is_directive(t[0])
}

proof fn lemma_literals()
    ensures
        "auto"@.len() == 4,
        "source"@.len() == 6,
        "iface"@.len() == 5,
        "mapping"@.len() == 7,
        "allow-"@.len() == 6,
        "auto"@[0] == 'a',
        "iface"@[0] == 'i',
        "allow-hotplug"@[0] == 'a',
        "allow-hotplug"@.len() == 13,
        is_allow("allow-hotplug"@),
        allow_tag("allow-hotplug"@) == "hotplug"@,
        !is_allow("auto"@),
        !is_allow("iface"@),
{
    reveal_strlit("auto");
    reveal_strlit("source");
    reveal_strlit("iface");
    reveal_strlit("mapping");
    reveal_strlit("allow-");
    reveal_strlit("allow-hotplug");
    reveal_strlit("hotplug");
    assert("allow-hotplug"@.subrange(0, 6) =~= "allow-"@);
    assert("allow-hotplug"@.subrange(6, 13) =~= "hotplug"@);
}

/// The effect of `auto x` on the entry for `x`.
proof fn lemma_auto_line(st: ParseState, line: Seq<char>, n: int, x: Seq<char>)
    requires
        unique_names(st.dir),
        tokens(line) == seq!["auto"@, x],
        line.len() > 0 && !is_ws(line[0]),
    ensures
        step(st, line, n) is Ok,
        unique_names(step(st, line, n)->Ok_0.dir),
        step(st, line, n)->Ok_0.open == OpenStanza::Idle,
        entry(step(st, line, n)->Ok_0.dir, x) == (InterfaceModel { auto: true, ..entry(st.dir, x) }),
        lookup(step(st, line, n)->Ok_0.dir, x) == Some(entry(step(st, line, n)->Ok_0.dir, x)),
{
    lemma_literals();
    let t = tokens(line);
    assert(t.subrange(1, 2) =~= seq![x]);
    assert(seq![x].drop_last() =~= Seq::<Seq<char>>::empty());
    lemma_entry_name(st.dir, x);
    assert(crate::parser::mark_auto(st.dir, seq![x].drop_last()) == st.dir);
    lemma_entry_put(st.dir, x, InterfaceModel { auto: true, ..entry(st.dir, x) });
}

/// The effect of `allow-hotplug x` on the entry for `x`.
proof fn lemma_allow_line(st: ParseState, line: Seq<char>, n: int, x: Seq<char>)
    requires
        unique_names(st.dir),
        tokens(line) == seq!["allow-hotplug"@, x],
        line.len() > 0 && !is_ws(line[0]),
    ensures
        step(st, line, n) is Ok,
        unique_names(step(st, line, n)->Ok_0.dir),
        step(st, line, n)->Ok_0.open == OpenStanza::Idle,
        entry(step(st, line, n)->Ok_0.dir, x) == (InterfaceModel {
            allow: entry(st.dir, x).allow.push("hotplug"@),
            ..entry(st.dir, x)
        }),
        lookup(step(st, line, n)->Ok_0.dir, x) == Some(entry(step(st, line, n)->Ok_0.dir, x)),
{
    lemma_literals();
    let t = tokens(line);
    assert(t[0] != "source"@);
    assert(t[0] != "auto"@);
    assert(t.subrange(1, 2) =~= seq![x]);
    assert(seq![x].drop_last() =~= Seq::<Seq<char>>::empty());
    lemma_entry_name(st.dir, x);
    let e = entry(st.dir, x);
    assert(crate::parser::add_allow(st.dir, seq![x].drop_last(), "hotplug"@) == st.dir);
    lemma_entry_put(st.dir, x, InterfaceModel { allow: e.allow.push("hotplug"@), ..e });
}

/// The effect of `iface x fam meth` on the entry for `x`.
proof fn lemma_iface_line(
    st: ParseState,
    line: Seq<char>,
    n: int,
    x: Seq<char>,
    fam: Seq<char>,
    meth: Seq<char>,
)
    requires
        unique_names(st.dir),
        tokens(line) == seq!["iface"@, x, fam, meth],
        line.len() > 0 && !is_ws(line[0]),
    ensures
        step(st, line, n) is Ok,
        unique_names(step(st, line, n)->Ok_0.dir),
        step(st, line, n)->Ok_0.open == OpenStanza::Stanza(x),
        entry(step(st, line, n)->Ok_0.dir, x) == (InterfaceModel {
            family: if family_of(fam) is Some {
                family_of(fam)
            } else {
                entry(st.dir, x).family
            },
            method: if family_of(fam) is Some {
                Some(meth)
            } else {
                Some(fam)
            },
            ..entry(st.dir, x)
        }),
        lookup(step(st, line, n)->Ok_0.dir, x) == Some(entry(step(st, line, n)->Ok_0.dir, x)),
{
    lemma_literals();
    let t = tokens(line);
    assert(t[0] != "source"@);
    assert(t[0] != "auto"@);
    lemma_entry_name(st.dir, x);
    let e = entry(st.dir, x);
    lemma_entry_put(
        st.dir,
        x,
        InterfaceModel {
            family: if iface_family(t) is Some {
                iface_family(t)
            } else {
                e.family
            },
            method: if iface_method(t) is Some {
                iface_method(t)
            } else {
                e.method
            },
            ..e
        },
    );
}

/// The effect of option lines in the open stanza of `x`.
proof fn lemma_option_lines(st: ParseState, q: Seq<Seq<char>>, base: int, x: Seq<char>)
    requires
        unique_names(st.dir),
        st.open == OpenStanza::Stanza(x),
        lookup(st.dir, x) == Some(entry(st.dir, x)),
        forall|i: int| 0 <= i < q.len() ==> is_option_line(#[trigger] q[i]),
    ensures
        run_from(st, q, base) is Ok,
        lookup(run_from(st, q, base)->Ok_0.dir, x) == Some(entry(run_from(st, q, base)->Ok_0.dir, x)),
        unique_names(run_from(st, q, base)->Ok_0.dir),
        run_from(st, q, base)->Ok_0.open == OpenStanza::Stanza(x),
        entry(run_from(st, q, base)->Ok_0.dir, x) == (InterfaceModel {
            options: entry(st.dir, x).options + q.map_values(|l: Seq<char>| option_pair(l)),
            ..entry(st.dir, x)
        }),
    decreases q.len(),
{
    lemma_literals();
    if q.len() == 0 {
        assert(entry(st.dir, x).options + q.map_values(|l: Seq<char>| option_pair(l))
            =~= entry(st.dir, x).options);
    } else {
        let q0 = q.drop_last();
        assert forall|i: int| 0 <= i < q0.len() implies is_option_line(#[trigger] q0[i]) by {
            assert(q0[i] == q[i]);
        }
        lemma_option_lines(st, q0, base, x);
        let s = run_from(st, q0, base)->Ok_0;
        assert(is_option_line(q[q.len() - 1]));
        let t = tokens(q.last());
        let d = s.dir;
        lemma_entry_name(d, x);
        let e = entry(d, x);
        lemma_entry_put(d, x, InterfaceModel { options: e.options.push(option_pair(q.last())), ..e });
        assert(entry(st.dir, x).options + q.map_values(|l: Seq<char>| option_pair(l))
            =~= (entry(st.dir, x).options + q0.map_values(|l: Seq<char>| option_pair(l))).push(
            option_pair(q.last()),
        ));
    }
}

pub proof fn lemma_run_single(st: ParseState, l: Seq<char>, base: int)
    ensures
        run_from(st, seq![l], base) == step(st, l, base + 1),
{
    assert(seq![l].drop_last() =~= Seq::<Seq<char>>::empty());
    assert(run_from(st, seq![l].drop_last(), base) == Ok::<ParseState, int>(st));
    assert(seq![l].last() == l);
}

/// An `iface x fam meth` line followed by option lines.
proof fn lemma_stanza_block(
    st: ParseState,
    c: Seq<char>,
    opts: Seq<Seq<char>>,
    base: int,
    x: Seq<char>,
    fam: Seq<char>,
    meth: Seq<char>,
)
    requires
        unique_names(st.dir),
        tokens(c) == seq!["iface"@, x, fam, meth],
        c.len() > 0 && !is_ws(c[0]),
        forall|i: int| 0 <= i < opts.len() ==> is_option_line(#[trigger] opts[i]),
    ensures
        run_from(st, seq![c] + opts, base) is Ok,
        unique_names(run_from(st, seq![c] + opts, base)->Ok_0.dir),
        lookup(run_from(st, seq![c] + opts, base)->Ok_0.dir, x) == Some(
            entry(run_from(st, seq![c] + opts, base)->Ok_0.dir, x),
        ),
        entry(run_from(st, seq![c] + opts, base)->Ok_0.dir, x) == (InterfaceModel {
            family: if family_of(fam) is Some {
                family_of(fam)
            } else {
                entry(st.dir, x).family
            },
            method: if family_of(fam) is Some {
                Some(meth)
            } else {
                Some(fam)
            },
            options: entry(st.dir, x).options + opts.map_values(|l: Seq<char>| option_pair(l)),
            ..entry(st.dir, x)
        }),
{
    lemma_run_concat(st, seq![c], opts, base);
    lemma_run_single(st, c, base);
    lemma_iface_line(st, c, base + 1, x, fam, meth);
    let s1 = step(st, c, base + 1)->Ok_0;
    lemma_option_lines(s1, opts, base + 1, x);
}

/// The entry for `x` after `lines`, if they parse.
pub open spec fn entry_after(lines: Seq<Seq<char>>, x: Seq<char>) -> Option<InterfaceModel> {
    match parse_lines(lines) {
        Ok(st) => lookup(st.dir, x),
        Err(_) => None,
    }
}

/// What `auto x`, `allow-hotplug x` and `iface x fam meth` with its options
/// make of `x`, in whatever order they come.
pub open spec fn merged_entry(
    x: Seq<char>,
    fam: Seq<char>,
    meth: Seq<char>,
    opts: Seq<Seq<char>>,
) -> InterfaceModel {
    InterfaceModel {
        name: x,
        auto: true,
        allow: seq!["hotplug"@],
        family: family_of(fam),
        method: if family_of(fam) is Some {
            Some(meth)
        } else {
            Some(fam)
        },
        options: opts.map_values(|l: Seq<char>| option_pair(l)),
        mapping: None,
    }
}

proof fn lemma_initial_entry(x: Seq<char>)
    ensures
        unique_names(initial_state().dir),
        entry(initial_state().dir, x) == fresh_model(x),
{
}

proof fn lemma_order_a_b_stanza(
    a: Seq<char>,
    b: Seq<char>,
    c: Seq<char>,
    opts: Seq<Seq<char>>,
    x: Seq<char>,
    fam: Seq<char>,
    meth: Seq<char>,
)
    requires
        tokens(a) == seq!["auto"@, x],
        tokens(b) == seq!["allow-hotplug"@, x],
        tokens(c) == seq!["iface"@, x, fam, meth],
        a.len() > 0 && !is_ws(a[0]),
        b.len() > 0 && !is_ws(b[0]),
        c.len() > 0 && !is_ws(c[0]),
        c.len() > 0 && !is_ws(c[0]),
        forall|i: int| 0 <= i < opts.len() ==> is_option_line(#[trigger] opts[i]),
    ensures
        entry_after(seq![a, b, c] + opts, x) == Some(merged_entry(x, fam, meth, opts)),
{
    let c_opts = seq![c] + opts;
    let f = fresh_model(x);
    let o = opts.map_values(|l: Seq<char>| option_pair(l));
    assert(f.options + o =~= o);
    assert(f.allow.push("hotplug"@) =~= seq!["hotplug"@]);
    lemma_initial_entry(x);
    let s0 = initial_state();
    lemma_run_single(s0, a, 0);
    lemma_auto_line(s0, a, 1, x);
    let s1 = step(s0, a, 1)->Ok_0;
    lemma_run_single(s1, b, 1);
    lemma_allow_line(s1, b, 2, x);
    let s2 = step(s1, b, 2)->Ok_0;
    lemma_stanza_block(s2, c, opts, 2, x, fam, meth);
    lemma_parse_concat(Seq::empty(), seq![a, b] + c_opts);
    assert(Seq::<Seq<char>>::empty() + (seq![a, b] + c_opts) =~= seq![a, b, c] + opts);
    lemma_run_concat(s0, seq![a], seq![b] + c_opts, 0);
    assert(seq![a] + (seq![b] + c_opts) =~= seq![a, b] + c_opts);
    lemma_run_concat(s1, seq![b], c_opts, 1);
}

proof fn lemma_order_b_a_stanza(
    a: Seq<char>,
    b: Seq<char>,
    c: Seq<char>,
    opts: Seq<Seq<char>>,
    x: Seq<char>,
    fam: Seq<char>,
    meth: Seq<char>,
)
    requires
        tokens(a) == seq!["auto"@, x],
        tokens(b) == seq!["allow-hotplug"@, x],
        tokens(c) == seq!["iface"@, x, fam, meth],
        a.len() > 0 && !is_ws(a[0]),
        b.len() > 0 && !is_ws(b[0]),
        c.len() > 0 && !is_ws(c[0]),
        c.len() > 0 && !is_ws(c[0]),
        forall|i: int| 0 <= i < opts.len() ==> is_option_line(#[trigger] opts[i]),
    ensures
        entry_after(seq![b, a, c] + opts, x) == Some(merged_entry(x, fam, meth, opts)),
{
    let c_opts = seq![c] + opts;
    let f = fresh_model(x);
    let o = opts.map_values(|l: Seq<char>| option_pair(l));
    assert(f.options + o =~= o);
    assert(f.allow.push("hotplug"@) =~= seq!["hotplug"@]);
    lemma_initial_entry(x);
    let s0 = initial_state();
    lemma_run_single(s0, b, 0);
    lemma_allow_line(s0, b, 1, x);
    let s1 = step(s0, b, 1)->Ok_0;
    lemma_run_single(s1, a, 1);
    lemma_auto_line(s1, a, 2, x);
    let s2 = step(s1, a, 2)->Ok_0;
    lemma_stanza_block(s2, c, opts, 2, x, fam, meth);
    lemma_parse_concat(Seq::empty(), seq![b, a] + c_opts);
    assert(Seq::<Seq<char>>::empty() + (seq![b, a] + c_opts) =~= seq![b, a, c] + opts);
    lemma_run_concat(s0, seq![b], seq![a] + c_opts, 0);
    assert(seq![b] + (seq![a] + c_opts) =~= seq![b, a] + c_opts);
    lemma_run_concat(s1, seq![a], c_opts, 1);
}

proof fn lemma_order_a_stanza_b(
    a: Seq<char>,
    b: Seq<char>,
    c: Seq<char>,
    opts: Seq<Seq<char>>,
    x: Seq<char>,
    fam: Seq<char>,
    meth: Seq<char>,
)
    requires
        tokens(a) == seq!["auto"@, x],
        tokens(b) == seq!["allow-hotplug"@, x],
        tokens(c) == seq!["iface"@, x, fam, meth],
        a.len() > 0 && !is_ws(a[0]),
        b.len() > 0 && !is_ws(b[0]),
        c.len() > 0 && !is_ws(c[0]),
        c.len() > 0 && !is_ws(c[0]),
        forall|i: int| 0 <= i < opts.len() ==> is_option_line(#[trigger] opts[i]),
    ensures
        entry_after(seq![a, c] + opts + seq![b], x) == Some(merged_entry(x, fam, meth, opts)),
{
    let c_opts = seq![c] + opts;
    let f = fresh_model(x);
    let o = opts.map_values(|l: Seq<char>| option_pair(l));
    assert(f.options + o =~= o);
    assert(f.allow.push("hotplug"@) =~= seq!["hotplug"@]);
    lemma_initial_entry(x);
    let s0 = initial_state();
    lemma_run_single(s0, a, 0);
    lemma_auto_line(s0, a, 1, x);
    let s1 = step(s0, a, 1)->Ok_0;
    lemma_stanza_block(s1, c, opts, 1, x, fam, meth);
    let s2 = run_from(s1, c_opts, 1)->Ok_0;
    let n2 = 1 + c_opts.len() as int;
    lemma_run_single(s2, b, n2);
    lemma_allow_line(s2, b, n2 + 1, x);
    let all = seq![a] + c_opts + seq![b];
    assert(seq![a, c] + opts + seq![b] =~= all);
    lemma_parse_concat(Seq::empty(), all);
    assert(Seq::<Seq<char>>::empty() + all =~= all);
    lemma_run_concat(s0, seq![a] + c_opts, seq![b], 0);
    lemma_run_concat(s0, seq![a], c_opts, 0);
}

proof fn lemma_order_b_stanza_a(
    a: Seq<char>,
    b: Seq<char>,
    c: Seq<char>,
    opts: Seq<Seq<char>>,
    x: Seq<char>,
    fam: Seq<char>,
    meth: Seq<char>,
)
    requires
        tokens(a) == seq!["auto"@, x],
        tokens(b) == seq!["allow-hotplug"@, x],
        tokens(c) == seq!["iface"@, x, fam, meth],
        a.len() > 0 && !is_ws(a[0]),
        b.len() > 0 && !is_ws(b[0]),
        c.len() > 0 && !is_ws(c[0]),
        c.len() > 0 && !is_ws(c[0]),
        forall|i: int| 0 <= i < opts.len() ==> is_option_line(#[trigger] opts[i]),
    ensures
        entry_after(seq![b, c] + opts + seq![a], x) == Some(merged_entry(x, fam, meth, opts)),
{
    let c_opts = seq![c] + opts;
    let f = fresh_model(x);
    let o = opts.map_values(|l: Seq<char>| option_pair(l));
    assert(f.options + o =~= o);
    assert(f.allow.push("hotplug"@) =~= seq!["hotplug"@]);
    lemma_initial_entry(x);
    let s0 = initial_state();
    lemma_run_single(s0, b, 0);
    lemma_allow_line(s0, b, 1, x);
    let s1 = step(s0, b, 1)->Ok_0;
    lemma_stanza_block(s1, c, opts, 1, x, fam, meth);
    let s2 = run_from(s1, c_opts, 1)->Ok_0;
    let n2 = 1 + c_opts.len() as int;
    lemma_run_single(s2, a, n2);
    lemma_auto_line(s2, a, n2 + 1, x);
    let all = seq![b] + c_opts + seq![a];
    assert(seq![b, c] + opts + seq![a] =~= all);
    lemma_parse_concat(Seq::empty(), all);
    assert(Seq::<Seq<char>>::empty() + all =~= all);
    lemma_run_concat(s0, seq![b] + c_opts, seq![a], 0);
    lemma_run_concat(s0, seq![b], c_opts, 0);
}

proof fn lemma_order_stanza_a_b(
    a: Seq<char>,
    b: Seq<char>,
    c: Seq<char>,
    opts: Seq<Seq<char>>,
    x: Seq<char>,
    fam: Seq<char>,
    meth: Seq<char>,
)
    requires
        tokens(a) == seq!["auto"@, x],
        tokens(b) == seq!["allow-hotplug"@, x],
        tokens(c) == seq!["iface"@, x, fam, meth],
        a.len() > 0 && !is_ws(a[0]),
        b.len() > 0 && !is_ws(b[0]),
        c.len() > 0 && !is_ws(c[0]),
        c.len() > 0 && !is_ws(c[0]),
        forall|i: int| 0 <= i < opts.len() ==> is_option_line(#[trigger] opts[i]),
    ensures
        entry_after(seq![c] + opts + seq![a, b], x) == Some(merged_entry(x, fam, meth, opts)),
{
    let c_opts = seq![c] + opts;
    let f = fresh_model(x);
    let o = opts.map_values(|l: Seq<char>| option_pair(l));
    assert(f.options + o =~= o);
    assert(f.allow.push("hotplug"@) =~= seq!["hotplug"@]);
    lemma_initial_entry(x);
    let s0 = initial_state();
    lemma_stanza_block(s0, c, opts, 0, x, fam, meth);
    let s1 = run_from(s0, c_opts, 0)->Ok_0;
    let n1 = c_opts.len() as int;
    lemma_run_single(s1, a, n1);
    lemma_auto_line(s1, a, n1 + 1, x);
    let s2 = step(s1, a, n1 + 1)->Ok_0;
    lemma_run_single(s2, b, n1 + 1);
    lemma_allow_line(s2, b, n1 + 2, x);
    let all = c_opts + seq![a] + seq![b];
    assert(seq![c] + opts + seq![a, b] =~= all);
    lemma_parse_concat(Seq::empty(), all);
    assert(Seq::<Seq<char>>::empty() + all =~= all);
    lemma_run_concat(s0, c_opts + seq![a], seq![b], 0);
    lemma_run_concat(s0, c_opts, seq![a], 0);
}

proof fn lemma_order_stanza_b_a(
    a: Seq<char>,
    b: Seq<char>,
    c: Seq<char>,
    opts: Seq<Seq<char>>,
    x: Seq<char>,
    fam: Seq<char>,
    meth: Seq<char>,
)
    requires
        tokens(a) == seq!["auto"@, x],
        tokens(b) == seq!["allow-hotplug"@, x],
        tokens(c) == seq!["iface"@, x, fam, meth],
        a.len() > 0 && !is_ws(a[0]),
        b.len() > 0 && !is_ws(b[0]),
        c.len() > 0 && !is_ws(c[0]),
        c.len() > 0 && !is_ws(c[0]),
        forall|i: int| 0 <= i < opts.len() ==> is_option_line(#[trigger] opts[i]),
    ensures
        entry_after(seq![c] + opts + seq![b, a], x) == Some(merged_entry(x, fam, meth, opts)),
{
    let c_opts = seq![c] + opts;
    let f = fresh_model(x);
    let o = opts.map_values(|l: Seq<char>| option_pair(l));
    assert(f.options + o =~= o);
    assert(f.allow.push("hotplug"@) =~= seq!["hotplug"@]);
    lemma_initial_entry(x);
    let s0 = initial_state();
    lemma_stanza_block(s0, c, opts, 0, x, fam, meth);
    let s1 = run_from(s0, c_opts, 0)->Ok_0;
    let n1 = c_opts.len() as int;
    lemma_run_single(s1, b, n1);
    lemma_allow_line(s1, b, n1 + 1, x);
    let s2 = step(s1, b, n1 + 1)->Ok_0;
    lemma_run_single(s2, a, n1 + 1);
    lemma_auto_line(s2, a, n1 + 2, x);
    let all = c_opts + seq![b] + seq![a];
    assert(seq![c] + opts + seq![b, a] =~= all);
    lemma_parse_concat(Seq::empty(), all);
    assert(Seq::<Seq<char>>::empty() + all =~= all);
    lemma_run_concat(s0, c_opts + seq![b], seq![a], 0);
    lemma_run_concat(s0, c_opts, seq![b], 0);
}

/// Order independence: the unindented lines `auto x`, `allow-hotplug x` and
/// `iface x fam meth` followed by its option lines, each once, give the same
/// entry for `x` in all six orders of the three blocks.
pub proof fn lemma_order_independent(
    a: Seq<char>,
    b: Seq<char>,
    c: Seq<char>,
    opts: Seq<Seq<char>>,
    x: Seq<char>,
    fam: Seq<char>,
    meth: Seq<char>,
)
    requires
        tokens(a) == seq!["auto"@, x],
        tokens(b) == seq!["allow-hotplug"@, x],
        tokens(c) == seq!["iface"@, x, fam, meth],
        a.len() > 0 && !is_ws(a[0]),
        b.len() > 0 && !is_ws(b[0]),
        c.len() > 0 && !is_ws(c[0]),
        c.len() > 0 && !is_ws(c[0]),
        forall|i: int| 0 <= i < opts.len() ==> is_option_line(#[trigger] opts[i]),
    ensures
        entry_after(seq![a, b, c] + opts, x) == Some(merged_entry(x, fam, meth, opts)),
        entry_after(seq![b, a, c] + opts, x) == Some(merged_entry(x, fam, meth, opts)),
        entry_after(seq![a, c] + opts + seq![b], x) == Some(merged_entry(x, fam, meth, opts)),
        entry_after(seq![b, c] + opts + seq![a], x) == Some(merged_entry(x, fam, meth, opts)),
        entry_after(seq![c] + opts + seq![a, b], x) == Some(merged_entry(x, fam, meth, opts)),
        entry_after(seq![c] + opts + seq![b, a], x) == Some(merged_entry(x, fam, meth, opts)),
{
    lemma_order_a_b_stanza(a, b, c, opts, x, fam, meth);
    lemma_order_b_a_stanza(a, b, c, opts, x, fam, meth);
    lemma_order_a_stanza_b(a, b, c, opts, x, fam, meth);
    lemma_order_b_stanza_a(a, b, c, opts, x, fam, meth);
    lemma_order_stanza_a_b(a, b, c, opts, x, fam, meth);
    lemma_order_stanza_b_a(a, b, c, opts, x, fam, meth);
}

} // verus!
