//! The canonical rendering of a document: leading comments, `source` lines,
//! then every interface in natural order of names (ties broken by code
//! point), each after a blank line, with its options sorted by key.

use vstd::prelude::*;
use core::cmp::Ordering;
use crate::directory::Directory;
use crate::interface::{family_text, texts, Interface, InterfaceModel, MappingModel};
use crate::natural::{lemma_natural_antisymmetric, natural, natural_cmp};
use crate::text::{append_str, string_from};

verus! {

/// A newline.
pub open spec fn nl() -> Seq<char> {
    seq!['\n']
}

/// Each of `ls` followed by a newline.
pub open spec fn lines_block(ls: Seq<Seq<char>>) -> Seq<char>
    decreases ls.len(),
{
    if ls.len() == 0 {
        Seq::empty()
    } else {
        lines_block(ls.drop_last()) + ls.last() + nl()
    }
}

/// One `allow-<tag> <name>` line per tag, in order.
pub open spec fn allow_block(name: Seq<char>, tags: Seq<Seq<char>>) -> Seq<char>
    decreases tags.len(),
{
    if tags.len() == 0 {
        Seq::empty()
    } else {
        allow_block(name, tags.drop_last()) + "allow-"@ + tags.last() + " "@ + name + nl()
    }
}

/// One indented `map` line per entry, in order.
pub open spec fn map_block(maps: Seq<Seq<char>>) -> Seq<char>
    decreases maps.len(),
{
    if maps.len() == 0 {
        Seq::empty()
    } else {
        map_block(maps.drop_last()) + "    map "@ + maps.last() + nl()
    }
}

/// The `mapping` block of an entry, if it has one.
pub open spec fn mapping_block(name: Seq<char>, m: Option<MappingModel>) -> Seq<char> {
    match m {
        None => Seq::empty(),
        Some(m) => "mapping "@ + name + nl() + "    script "@ + m.script + nl() + map_block(m.maps),
    }
}

/// The `iface <name> [<family>] [<method>]` header.
pub open spec fn iface_line(e: InterfaceModel) -> Seq<char> {
    "iface "@ + e.name + match e.family {
        Some(f) => " "@ + family_text(f),
        None => Seq::empty(),
    } + match e.method {
        Some(m) => " "@ + m,
        None => Seq::empty(),
    } + nl()
}

/// One indented `<key> <value>` line per option, in the given order.
pub open spec fn option_block(opts: Seq<(Seq<char>, Seq<char>)>) -> Seq<char>
    decreases opts.len(),
{
    if opts.len() == 0 {
        Seq::empty()
    } else {
        option_block(opts.drop_last()) + "    "@ + opts.last().0 + " "@ + opts.last().1 + nl()
    }
}

/// Code-point lexicographic order; a strict prefix comes first.
pub open spec fn key_cmp(a: Seq<char>, b: Seq<char>) -> Ordering
    decreases a.len(),
{
    if a.len() == 0 && b.len() == 0 {
        Ordering::Equal
    } else if a.len() == 0 {
        Ordering::Less
    } else if b.len() == 0 {
        Ordering::Greater
    } else if a[0] < b[0] {
        Ordering::Less
    } else if a[0] > b[0] {
        Ordering::Greater
    } else {
        key_cmp(a.drop_first(), b.drop_first())
    }
}

/// `s` with `x` inserted after the last option whose key is not greater.
pub open spec fn insert_option(s: Seq<(Seq<char>, Seq<char>)>, x: (Seq<char>, Seq<char>)) -> Seq<
    (Seq<char>, Seq<char>),
>
    decreases s.len(),
{
    if s.len() == 0 {
        seq![x]
    } else if key_cmp(s.last().0, x.0) == Ordering::Greater {
        insert_option(s.drop_last(), x).push(s.last())
    } else {
        s.push(x)
    }
}

/// The options stably sorted by key.
pub open spec fn sort_options(s: Seq<(Seq<char>, Seq<char>)>) -> Seq<(Seq<char>, Seq<char>)>
    decreases s.len(),
{
    if s.len() == 0 {
        s
    } else {
        insert_option(sort_options(s.drop_last()), s.last())
    }
}

/// The order of names in the rendered file: natural order, and between names
/// that natural order ties (`swp1`, `swp01`), code-point order.
pub open spec fn name_cmp(a: Seq<char>, b: Seq<char>) -> Ordering {
    match natural_cmp(a, b) {
        Ordering::Equal => key_cmp(a, b),
        o => o,
    }
}

/// [`name_cmp`] of two names.
fn name_compare(a: &String, b: &String) -> (r: Ordering)
    ensures
        r == name_cmp(a@, b@),
{
    let c = natural(a.as_str(), b.as_str());
    match c {
        Ordering::Equal => {
            let x = chars_of_string(a);
            let y = chars_of_string(b);
            key_compare(x.as_slice(), y.as_slice())
        },
        _ => c,
    }
}

/// `s` with `x` inserted after the last entry whose name is not greater in
/// the order of [`name_cmp`].
pub open spec fn insert_entry(s: Seq<InterfaceModel>, x: InterfaceModel) -> Seq<InterfaceModel>
    decreases s.len(),
{
    if s.len() == 0 {
        seq![x]
    } else if name_cmp(s.last().name, x.name) == Ordering::Greater {
        insert_entry(s.drop_last(), x).push(s.last())
    } else {
        s.push(x)
    }
}

/// The entries sorted by name in the order of [`name_cmp`].
pub open spec fn sort_entries(s: Seq<InterfaceModel>) -> Seq<InterfaceModel>
    decreases s.len(),
{
    if s.len() == 0 {
        s
    } else {
        insert_entry(sort_entries(s.drop_last()), s.last())
    }
}

/// One interface's stanza.
pub open spec fn interface_text(e: InterfaceModel) -> Seq<char> {
    (if e.auto {
        "auto "@ + e.name + nl()
    } else {
        Seq::empty()
    }) + allow_block(e.name, e.allow) + mapping_block(e.name, e.mapping) + iface_line(e)
        + option_block(sort_options(e.options))
}

/// Each entry's stanza after a blank line, in the given order.
pub open spec fn entries_block(es: Seq<InterfaceModel>) -> Seq<char>
    decreases es.len(),
{
    if es.len() == 0 {
        Seq::empty()
    } else {
        entries_block(es.drop_last()) + nl() + interface_text(es.last())
    }
}

/// The whole rendered file.
pub open spec fn render_text(
    comments: Seq<Seq<char>>,
    sources: Seq<Seq<char>>,
    dir: Seq<InterfaceModel>,
) -> Seq<char> {
    lines_block(comments) + lines_block(sources) + entries_block(sort_entries(dir))
}

/// Where the scan from the end stops, `insert_option` inserts.
proof fn lemma_insert_option_at(s: Seq<(Seq<char>, Seq<char>)>, x: (Seq<char>, Seq<char>), k: int)
    requires
        0 <= k <= s.len(),
        forall|j: int| k <= j < s.len() ==> key_cmp(#[trigger] s[j].0, x.0) == Ordering::Greater,
        k == 0 || key_cmp(s[k - 1].0, x.0) != Ordering::Greater,
    ensures
        insert_option(s, x) == s.insert(k, x),
    decreases s.len(),
{
    if s.len() == 0 {
        assert(s.insert(k, x) =~= seq![x]);
    } else if k == s.len() {
        assert(s.insert(k, x) =~= s.push(x));
    } else {
        assert(key_cmp(s.last().0, x.0) == Ordering::Greater);
        let t = s.drop_last();
        assert forall|j: int| k <= j < t.len() implies key_cmp(#[trigger] t[j].0, x.0)
            == Ordering::Greater by {
            assert(t[j] == s[j]);
        }
        if k > 0 {
            assert(t[k - 1] == s[k - 1]);
        }
        lemma_insert_option_at(t, x, k);
        assert(t.insert(k, x).push(s.last()) =~= s.insert(k, x));
    }
}

/// Where the scan from the end stops, `insert_entry` inserts.
proof fn lemma_insert_entry_at(s: Seq<InterfaceModel>, x: InterfaceModel, k: int)
    requires
        0 <= k <= s.len(),
        forall|j: int| k <= j < s.len() ==> name_cmp(#[trigger] s[j].name, x.name) == Ordering::Greater,
        k == 0 || name_cmp(s[k - 1].name, x.name) != Ordering::Greater,
    ensures
        insert_entry(s, x) == s.insert(k, x),
    decreases s.len(),
{
    if s.len() == 0 {
        assert(s.insert(k, x) =~= seq![x]);
    } else if k == s.len() {
        assert(s.insert(k, x) =~= s.push(x));
    } else {
        assert(name_cmp(s.last().name, x.name) == Ordering::Greater);
        let t = s.drop_last();
        assert forall|j: int| k <= j < t.len() implies name_cmp(#[trigger] t[j].name, x.name)
            == Ordering::Greater by {
            assert(t[j] == s[j]);
        }
        if k > 0 {
            assert(t[k - 1] == s[k - 1]);
        }
        lemma_insert_entry_at(t, x, k);
        assert(t.insert(k, x).push(s.last()) =~= s.insert(k, x));
    }
}

/// [`key_cmp`] of two slices.
fn key_compare(a0: &[char], b0: &[char]) -> (r: Ordering)
    ensures
        r == key_cmp(a0@, b0@),
{
    let mut a = a0;
    let mut b = b0;
    loop
        invariant
            key_cmp(a0@, b0@) == key_cmp(a@, b@),
        decreases a@.len(),
    {
        if a.len() == 0 && b.len() == 0 {
            return Ordering::Equal;
        }
        if a.len() == 0 {
            return Ordering::Less;
        }
        if b.len() == 0 {
            return Ordering::Greater;
        }
        if a[0] < b[0] {
            return Ordering::Less;
        }
        if a[0] > b[0] {
            return Ordering::Greater;
        }
        a = &a[1..a.len()];
        b = &b[1..b.len()];
    }
}

/// The options picked out by `order`.
pub open spec fn pick_options(order: Seq<usize>, opts: Seq<(Seq<char>, Seq<char>)>) -> Seq<
    (Seq<char>, Seq<char>),
> {
    order.map_values(|k: usize| opts[k as int])
}

/// The entries picked out by `order`.
pub open spec fn pick_entries(order: Seq<usize>, es: Seq<InterfaceModel>) -> Seq<InterfaceModel> {
    order.map_values(|k: usize| es[k as int])
}

/// The indices of `opts` in the order of [`sort_options`].
fn option_order(opts: &Vec<(String, String)>) -> (r: Vec<usize>)
    ensures
        forall|j: int| 0 <= j < r@.len() ==> r@[j] < opts@.len(),
        pick_options(r@, crate::interface::text_pairs(opts@)) == sort_options(
            crate::interface::text_pairs(opts@),
        ),
{
    let ghost m = crate::interface::text_pairs(opts@);
    let mut order: Vec<usize> = Vec::new();
    let mut i: usize = 0;
    assert(m.subrange(0, 0) =~= Seq::<(Seq<char>, Seq<char>)>::empty());
    assert(pick_options(order@, m) =~= Seq::<(Seq<char>, Seq<char>)>::empty());
    while i < opts.len()
        invariant
            m == crate::interface::text_pairs(opts@),
            i <= opts@.len(),
            forall|j: int| 0 <= j < order@.len() ==> #[trigger] order@[j] < opts@.len(),
            pick_options(order@, m) == sort_options(m.subrange(0, i as int)),
        decreases opts@.len() - i,
    {
        let x = chars_of_string(&opts[i].0);
        assert(m[i as int].0 == opts@[i as int].0@);
        let ghost p = pick_options(order@, m);
        let mut k: usize = order.len();
        while k > 0
            invariant
                k <= order@.len(),
                i < opts@.len(),
                x@ == m[i as int].0,
                m == crate::interface::text_pairs(opts@),
                p == pick_options(order@, m),
                forall|j: int| 0 <= j < order@.len() ==> #[trigger] order@[j] < opts@.len(),
                forall|j: int| k <= j < p.len() ==> key_cmp(#[trigger] p[j].0, m[i as int].0)
                    == Ordering::Greater,
            ensures
                k == 0 || key_cmp(p[k - 1].0, m[i as int].0) != Ordering::Greater,
            decreases k,
        {
            let idx = order[k - 1];
            assert(p[k - 1] == m[idx as int]);
            assert(m[idx as int].0 == opts@[idx as int].0@);
            assert(m[i as int].0 == opts@[i as int].0@);
            let y = chars_of_string(&opts[idx].0);
            let c = key_compare(y.as_slice(), x.as_slice());
            if !matches!(c, Ordering::Greater) {
                break;
            }
            k -= 1;
        }
        proof {
            lemma_insert_option_at(p, m[i as int], k as int);
            let q = m.subrange(0, i as int + 1);
            assert(q.drop_last() =~= m.subrange(0, i as int));
        }
        order.insert(k, i);
        assert(pick_options(order@, m) =~= p.insert(k as int, m[i as int]));
        i += 1;
    }
    assert(m.subrange(0, m.len() as int) =~= m);
    order
}

/// The indices of `es` in the order of [`sort_entries`].
fn entry_order(es: &[Interface]) -> (r: Vec<usize>)
    ensures
        forall|j: int| 0 <= j < r@.len() ==> r@[j] < es@.len(),
        pick_entries(r@, crate::directory::models(es@)) == sort_entries(
            crate::directory::models(es@),
        ),
{
    let ghost m = crate::directory::models(es@);
    let mut order: Vec<usize> = Vec::new();
    let mut i: usize = 0;
    assert(m.subrange(0, 0) =~= Seq::<InterfaceModel>::empty());
    assert(pick_entries(order@, m) =~= Seq::<InterfaceModel>::empty());
    while i < es.len()
        invariant
            m == crate::directory::models(es@),
            i <= es@.len(),
            forall|j: int| 0 <= j < order@.len() ==> #[trigger] order@[j] < es@.len(),
            pick_entries(order@, m) == sort_entries(m.subrange(0, i as int)),
        decreases es@.len() - i,
    {
        let ghost p = pick_entries(order@, m);
        let mut k: usize = order.len();
        while k > 0
            invariant
                k <= order@.len(),
                i < es@.len(),
                m == crate::directory::models(es@),
                p == pick_entries(order@, m),
                forall|j: int| 0 <= j < order@.len() ==> #[trigger] order@[j] < es@.len(),
                forall|j: int| k <= j < p.len() ==> name_cmp(#[trigger] p[j].name, m[i as int].name)
                    == Ordering::Greater,
            ensures
                k == 0 || name_cmp(p[k - 1].name, m[i as int].name) != Ordering::Greater,
            decreases k,
        {
            let idx = order[k - 1];
            assert(p[k - 1] == m[idx as int]);
            assert(m[idx as int] == es@[idx as int]@);
            assert(m[i as int] == es@[i as int]@);
            let c = name_compare(&es[idx].name, &es[i].name);
            if !matches!(c, Ordering::Greater) {
                break;
            }
            k -= 1;
        }
        proof {
            lemma_insert_entry_at(p, m[i as int], k as int);
            let q = m.subrange(0, i as int + 1);
            assert(q.drop_last() =~= m.subrange(0, i as int));
        }
        order.insert(k, i);
        assert(pick_entries(order@, m) =~= p.insert(k as int, m[i as int]));
        i += 1;
    }
    assert(m.subrange(0, m.len() as int) =~= m);
    order
}

fn chars_of_string(s: &String) -> (r: Vec<char>)
    ensures
        r@ == s@,
{
    crate::text::chars_of(s.as_str())
}

/// Appends each of `ls` followed by a newline.
fn write_lines(out: &mut String, ls: &Vec<String>)
    ensures
        final(out)@ == old(out)@ + lines_block(texts(ls@)),
{
    let ghost base = out@;
    let ghost t = texts(ls@);
    let mut i: usize = 0;
    assert(t.subrange(0, 0) =~= Seq::<Seq<char>>::empty());
    assert(out@ =~= base + lines_block(t.subrange(0, 0)));
    while i < ls.len()
        invariant
            t == texts(ls@),
            i <= ls@.len(),
            out@ == base + lines_block(t.subrange(0, i as int)),
        decreases ls@.len() - i,
    {
        let ghost q = t.subrange(0, i as int + 1);
        assert(q.drop_last() =~= t.subrange(0, i as int));
        assert(q.last() == ls@[i as int]@);
        proof {
            lemma_newline();
        }
        let ghost prev = out@;
        append_str(out, ls[i].as_str());
        append_str(out, "\n");
        assert(out@ =~= prev + ls@[i as int]@ + nl());
        assert(out@ =~= base + lines_block(q));
        i += 1;
    }
    assert(t.subrange(0, t.len() as int) =~= t);
}

proof fn lemma_newline()
    ensures
        "\n"@ == nl(),
{
    reveal_strlit("\n");
    assert("\n"@ =~= nl());
}

fn auto_line(name: &str) -> (r: String)
    ensures
        r@ == "auto "@ + name@ + nl(),
{
    proof {
        lemma_newline();
    }
    let mut r = string_from("auto ");
    append_str(&mut r, name);
    append_str(&mut r, "\n");
    r
}

fn allow_line(tag: &str, name: &str) -> (r: String)
    ensures
        r@ == "allow-"@ + tag@ + " "@ + name@ + nl(),
{
    proof {
        lemma_newline();
    }
    let mut r = string_from("allow-");
    append_str(&mut r, tag);
    append_str(&mut r, " ");
    append_str(&mut r, name);
    append_str(&mut r, "\n");
    r
}

fn mapping_head(name: &str, script: &str) -> (r: String)
    ensures
        r@ == "mapping "@ + name@ + nl() + "    script "@ + script@ + nl(),
{
    proof {
        lemma_newline();
    }
    let mut r = string_from("mapping ");
    append_str(&mut r, name);
    append_str(&mut r, "\n");
    append_str(&mut r, "    script ");
    append_str(&mut r, script);
    append_str(&mut r, "\n");
    r
}

fn map_line(m: &str) -> (r: String)
    ensures
        r@ == "    map "@ + m@ + nl(),
{
    proof {
        lemma_newline();
    }
    let mut r = string_from("    map ");
    append_str(&mut r, m);
    append_str(&mut r, "\n");
    r
}

fn option_line(k: &str, v: &str) -> (r: String)
    ensures
        r@ == "    "@ + k@ + " "@ + v@ + nl(),
{
    proof {
        lemma_newline();
    }
    let mut r = string_from("    ");
    append_str(&mut r, k);
    append_str(&mut r, " ");
    append_str(&mut r, v);
    append_str(&mut r, "\n");
    r
}

fn iface_header(e: &Interface) -> (r: String)
    ensures
        r@ == iface_line(e@),
{
    proof {
        lemma_newline();
    }
    let mut r = string_from("iface ");
    append_str(&mut r, e.name.as_str());
    let ghost a = r@;
    let ghost fam = match e.family {
        Some(f) => " "@ + family_text(f),
        None => Seq::<char>::empty(),
    };
    match e.family {
        Some(f) => {
            let mut t = string_from(" ");
            let ft = f.to_string();
            append_str(&mut t, ft.as_str());
            append_str(&mut r, t.as_str());
        },
        None => {
            assert(r@ =~= a + fam);
        },
    }
    let ghost b = r@;
    let ghost meth = match e@.method {
        Some(m) => " "@ + m,
        None => Seq::<char>::empty(),
    };
    match &e.method {
        Some(md) => {
            let mut t = string_from(" ");
            append_str(&mut t, md.as_str());
            append_str(&mut r, t.as_str());
        },
        None => {
            assert(r@ =~= b + meth);
        },
    }
    append_str(&mut r, "\n");
    r
}

/// Appends one interface's stanza.
#[verifier::rlimit(40)]
fn write_interface(out: &mut String, e: &Interface)
    ensures
        final(out)@ == old(out)@ + interface_text(e@),
{
    let ghost base = out@;
    let ghost m = e@;
    let name = e.name.as_str();
    let ghost head = if m.auto {
        "auto "@ + m.name + nl()
    } else {
        Seq::<char>::empty()
    };
    if e.auto {
        let l = auto_line(name);
        append_str(out, l.as_str());
    }
    assert(out@ =~= base + head);
    let mut i: usize = 0;
    let ghost tags = texts(e.allow@);
    assert(tags.subrange(0, 0) =~= Seq::<Seq<char>>::empty());
    assert(out@ =~= base + head + allow_block(m.name, tags.subrange(0, 0)));
    while i < e.allow.len()
        invariant
            tags == texts(e.allow@),
            name@ == m.name,
            m == e@,
            i <= e.allow@.len(),
            out@ == base + head + allow_block(m.name, tags.subrange(0, i as int)),
        decreases e.allow@.len() - i,
    {
        let ghost q = tags.subrange(0, i as int + 1);
        assert(q.drop_last() =~= tags.subrange(0, i as int));
        assert(q.last() == e.allow@[i as int]@);
        let l = allow_line(e.allow[i].as_str(), name);
        append_str(out, l.as_str());
        assert(out@ =~= base + head + allow_block(m.name, q));
        i += 1;
    }
    assert(tags.subrange(0, tags.len() as int) =~= tags);
    let ghost head2 = base + head + allow_block(m.name, m.allow);
    match &e.mapping {
        Some(mp) => {
            let l = mapping_head(name, mp.script.as_str());
            append_str(out, l.as_str());
            let ghost head3 = out@;
            let ghost maps = texts(mp.maps@);
            let mut j: usize = 0;
            assert(maps.subrange(0, 0) =~= Seq::<Seq<char>>::empty());
            assert(out@ =~= head3 + map_block(maps.subrange(0, 0)));
            while j < mp.maps.len()
                invariant
                    maps == texts(mp.maps@),
                    j <= mp.maps@.len(),
                    out@ == head3 + map_block(maps.subrange(0, j as int)),
                decreases mp.maps@.len() - j,
            {
                let ghost q = maps.subrange(0, j as int + 1);
                assert(q.drop_last() =~= maps.subrange(0, j as int));
                assert(q.last() == mp.maps@[j as int]@);
                let l = map_line(mp.maps[j].as_str());
                append_str(out, l.as_str());
                assert(out@ =~= head3 + map_block(q));
                j += 1;
            }
            assert(maps.subrange(0, maps.len() as int) =~= maps);
            assert(out@ =~= head2 + mapping_block(m.name, m.mapping));
        },
        None => {
            assert(out@ =~= head2 + mapping_block(m.name, m.mapping));
        },
    }
    let l = iface_header(e);
    append_str(out, l.as_str());
    let ghost head5 = out@;
    let order = option_order(&e.options);
    let ghost sorted = sort_options(m.options);
    let mut k: usize = 0;
    assert(sorted.subrange(0, 0) =~= Seq::<(Seq<char>, Seq<char>)>::empty());
    assert(out@ =~= head5 + option_block(sorted.subrange(0, 0)));
    while k < order.len()
        invariant
            sorted == pick_options(order@, m.options),
            m == e@,
            forall|j: int| 0 <= j < order@.len() ==> #[trigger] order@[j] < e.options@.len(),
            k <= order@.len(),
            out@ == head5 + option_block(sorted.subrange(0, k as int)),
        decreases order@.len() - k,
    {
        let ghost q = sorted.subrange(0, k as int + 1);
        assert(q.drop_last() =~= sorted.subrange(0, k as int));
        let idx = order[k];
        assert(q.last() == m.options[idx as int]);
        assert(m.options[idx as int] == (e.options@[idx as int].0@, e.options@[idx as int].1@));
        let l = option_line(e.options[idx].0.as_str(), e.options[idx].1.as_str());
        append_str(out, l.as_str());
        assert(out@ =~= head5 + option_block(q));
        k += 1;
    }
    assert(sorted.subrange(0, sorted.len() as int) =~= sorted);
    assert(out@ =~= base + interface_text(m));
}

/// The canonical text of a document: `comments` and `sources` verbatim, one
/// per line, then each interface of `dir` in the order of [`name_cmp`] after a
/// blank line.
pub fn render(comments: &Vec<String>, sources: &Vec<String>, dir: &Directory) -> (r: String)
    ensures
        r@ == render_text(texts(comments@), texts(sources@), dir@),
{
    proof {
        reveal_strlit("\n");
    }
    let mut out = String::new();
    write_lines(&mut out, comments);
    write_lines(&mut out, sources);
    let ghost head = out@;
    let es = dir.entries();
    let order = entry_order(es);
    let ghost m = crate::directory::models(es@);
    let ghost sorted = sort_entries(m);
    let mut k: usize = 0;
    assert(sorted.subrange(0, 0) =~= Seq::<InterfaceModel>::empty());
    assert(out@ =~= head + entries_block(sorted.subrange(0, 0)));
    while k < order.len()
        invariant
            sorted == pick_entries(order@, m),
            m == crate::directory::models(es@),
            forall|j: int| 0 <= j < order@.len() ==> #[trigger] order@[j] < es@.len(),
            k <= order@.len(),
            out@ == head + entries_block(sorted.subrange(0, k as int)),
        decreases order@.len() - k,
    {
        let ghost q = sorted.subrange(0, k as int + 1);
        assert(q.drop_last() =~= sorted.subrange(0, k as int));
        let idx = order[k];
        assert(q.last() == m[idx as int]);
        assert(m[idx as int] == es@[idx as int]@);
        proof {
            lemma_newline();
        }
        append_str(&mut out, "\n");
        write_interface(&mut out, &es[idx]);
        assert(out@ =~= head + entries_block(q));
        k += 1;
    }
    assert(sorted.subrange(0, sorted.len() as int) =~= sorted);
    out
}

pub proof fn lemma_key_antisymmetric(a: Seq<char>, b: Seq<char>)
    ensures
        key_cmp(a, b) == Ordering::Greater <==> key_cmp(b, a) == Ordering::Less,
        key_cmp(a, b) == Ordering::Equal <==> a == b,
    decreases a.len(),
{
    if a.len() > 0 && b.len() > 0 && a[0] == b[0] {
        lemma_key_antisymmetric(a.drop_first(), b.drop_first());
        if a.drop_first() == b.drop_first() {
            assert(a =~= seq![a[0]] + a.drop_first());
            assert(b =~= seq![b[0]] + b.drop_first());
        }
    } else if a.len() > 0 && b.len() > 0 {
        if a == b {
            assert(a[0] == b[0]);
        }
    } else if a.len() == 0 && b.len() == 0 {
        assert(a =~= b);
    }
}

/// The order of names is antisymmetric, and ties only a name with itself.
pub proof fn lemma_name_antisymmetric(a: Seq<char>, b: Seq<char>)
    ensures
        name_cmp(a, b) == Ordering::Greater <==> name_cmp(b, a) == Ordering::Less,
        name_cmp(a, b) == Ordering::Equal <==> a == b,
{
    lemma_natural_antisymmetric(a, b);
    lemma_natural_antisymmetric(b, a);
    lemma_key_antisymmetric(a, b);
    lemma_key_antisymmetric(b, a);
    if a == b {
        assert(natural_cmp(a, b) == Ordering::Equal);
    }
}

/// Each entry's name is not after the next one's in the order of
/// [`name_cmp`].
pub open spec fn sorted_by_name(s: Seq<InterfaceModel>) -> bool {
    forall|i: int, j: int|
        0 <= i && j == i + 1 && j < s.len() ==> name_cmp(#[trigger] s[i].name, #[trigger] s[j].name)
            != Ordering::Greater
}

proof fn lemma_insert_entry(s: Seq<InterfaceModel>, x: InterfaceModel)
    requires
        sorted_by_name(s),
    ensures
        sorted_by_name(insert_entry(s, x)),
        insert_entry(s, x).len() == s.len() + 1,
        insert_entry(s, x).last() == (if s.len() > 0 && name_cmp(s.last().name, x.name)
            == Ordering::Greater {
            s.last()
        } else {
            x
        }),
    decreases s.len(),
{
    if s.len() == 0 {
        assert(seq![x] =~= Seq::<InterfaceModel>::empty().push(x));
    } else if name_cmp(s.last().name, x.name) == Ordering::Greater {
        let t = s.drop_last();
        assert(sorted_by_name(t)) by {
            assert forall|i: int, j: int| 0 <= i && j == i + 1 && j < t.len() implies name_cmp(
                #[trigger] t[i].name,
                #[trigger] t[j].name,
            ) != Ordering::Greater by {
                assert(t[i] == s[i] && t[j] == s[j]);
            }
        }
        lemma_insert_entry(t, x);
        let r = insert_entry(t, x);
        lemma_name_antisymmetric(s.last().name, x.name);
        if t.len() > 0 {
            assert(s[t.len() - 1] == t.last());
        }
        assert(r.last() == x || (t.len() > 0 && r.last() == t.last()));
        let rr = r.push(s.last());
        assert forall|i: int, j: int| 0 <= i && j == i + 1 && j < rr.len() implies name_cmp(
            #[trigger] rr[i].name,
            #[trigger] rr[j].name,
        ) != Ordering::Greater by {
            if j < r.len() {
                assert(rr[i] == r[i] && rr[j] == r[j]);
            } else {
                assert(rr[i] == r.last());
                assert(rr[j] == s.last());
            }
        }
    } else {
        let sx = s.push(x);
        assert forall|i: int, j: int| 0 <= i && j == i + 1 && j < sx.len() implies name_cmp(
            #[trigger] sx[i].name,
            #[trigger] sx[j].name,
        ) != Ordering::Greater by {
            if j < s.len() {
                assert(sx[i] == s[i] && sx[j] == s[j]);
            } else {
                assert(sx[i] == s.last());
            }
        }
    }
}

proof fn lemma_insert_entry_multiset(s: Seq<InterfaceModel>, x: InterfaceModel)
    ensures
        insert_entry(s, x).to_multiset() == s.to_multiset().insert(x),
    decreases s.len(),
{
    broadcast use vstd::seq_lib::group_to_multiset_ensures;

    if s.len() == 0 {
        assert(seq![x] =~= Seq::<InterfaceModel>::empty().push(x));
    } else if name_cmp(s.last().name, x.name) == Ordering::Greater {
        let t = s.drop_last();
        lemma_insert_entry_multiset(t, x);
        assert(t.push(s.last()) =~= s);
        assert(t.to_multiset().insert(x).insert(s.last()) =~= t.to_multiset().insert(s.last()).insert(x));
    }
}

/// Each option's key is not after the next one's in the order of
/// [`key_cmp`].
pub open spec fn sorted_by_key(s: Seq<(Seq<char>, Seq<char>)>) -> bool {
    forall|i: int, j: int|
        0 <= i && j == i + 1 && j < s.len() ==> key_cmp(#[trigger] s[i].0, #[trigger] s[j].0)
            != Ordering::Greater
}

proof fn lemma_insert_option_sorted(s: Seq<(Seq<char>, Seq<char>)>, x: (Seq<char>, Seq<char>))
    requires
        sorted_by_key(s),
    ensures
        sorted_by_key(insert_option(s, x)),
        insert_option(s, x).len() == s.len() + 1,
        insert_option(s, x).last() == (if s.len() > 0 && key_cmp(s.last().0, x.0)
            == Ordering::Greater {
            s.last()
        } else {
            x
        }),
    decreases s.len(),
{
    if s.len() == 0 {
        assert(seq![x] =~= Seq::<(Seq<char>, Seq<char>)>::empty().push(x));
    } else if key_cmp(s.last().0, x.0) == Ordering::Greater {
        let t = s.drop_last();
        assert(sorted_by_key(t)) by {
            assert forall|i: int, j: int| 0 <= i && j == i + 1 && j < t.len() implies key_cmp(
                #[trigger] t[i].0,
                #[trigger] t[j].0,
            ) != Ordering::Greater by {
                assert(t[i] == s[i] && t[j] == s[j]);
            }
        }
        lemma_insert_option_sorted(t, x);
        let r = insert_option(t, x);
        lemma_key_antisymmetric(s.last().0, x.0);
        if t.len() > 0 {
            assert(s[t.len() - 1] == t.last());
        }
        assert(r.last() == x || (t.len() > 0 && r.last() == t.last()));
        let rr = r.push(s.last());
        assert forall|i: int, j: int| 0 <= i && j == i + 1 && j < rr.len() implies key_cmp(
            #[trigger] rr[i].0,
            #[trigger] rr[j].0,
        ) != Ordering::Greater by {
            if j < r.len() {
                assert(rr[i] == r[i] && rr[j] == r[j]);
            } else {
                assert(rr[i] == r.last());
                assert(rr[j] == s.last());
            }
        }
    } else {
        let sx = s.push(x);
        assert forall|i: int, j: int| 0 <= i && j == i + 1 && j < sx.len() implies key_cmp(
            #[trigger] sx[i].0,
            #[trigger] sx[j].0,
        ) != Ordering::Greater by {
            if j < s.len() {
                assert(sx[i] == s[i] && sx[j] == s[j]);
            } else {
                assert(sx[i] == s.last());
            }
        }
    }
}

proof fn lemma_insert_option_multiset(s: Seq<(Seq<char>, Seq<char>)>, x: (Seq<char>, Seq<char>))
    ensures
        insert_option(s, x).to_multiset() == s.to_multiset().insert(x),
    decreases s.len(),
{
    broadcast use vstd::seq_lib::group_to_multiset_ensures;

    if s.len() == 0 {
        assert(seq![x] =~= Seq::<(Seq<char>, Seq<char>)>::empty().push(x));
    } else if key_cmp(s.last().0, x.0) == Ordering::Greater {
        let t = s.drop_last();
        lemma_insert_option_multiset(t, x);
        assert(t.push(s.last()) =~= s);
        assert(t.to_multiset().insert(x).insert(s.last()) =~= t.to_multiset().insert(s.last()).insert(x));
    }
}

/// The options of key `k`, in order.
pub open spec fn with_key(s: Seq<(Seq<char>, Seq<char>)>, k: Seq<char>) -> Seq<
    (Seq<char>, Seq<char>),
>
    decreases s.len(),
{
    if s.len() == 0 {
        s
    } else if s.last().0 == k {
        with_key(s.drop_last(), k).push(s.last())
    } else {
        with_key(s.drop_last(), k)
    }
}

proof fn lemma_insert_option_keys(
    t: Seq<(Seq<char>, Seq<char>)>,
    x: (Seq<char>, Seq<char>),
    k: Seq<char>,
)
    ensures
        with_key(insert_option(t, x), k) == if x.0 == k {
            with_key(t, k).push(x)
        } else {
            with_key(t, k)
        },
    decreases t.len(),
{
    if t.len() == 0 {
        assert(seq![x].drop_last() =~= t);
    } else if key_cmp(t.last().0, x.0) == Ordering::Greater {
        let t0 = t.drop_last();
        lemma_insert_option_keys(t0, x, k);
        lemma_key_antisymmetric(t.last().0, x.0);
        let r = insert_option(t0, x);
        assert(r.push(t.last()).drop_last() =~= r);
    } else {
        assert(t.push(x).drop_last() =~= t);
    }
}

/// Sorting options is stable: the options of any one key keep their order.
pub proof fn lemma_sort_options_stable(s: Seq<(Seq<char>, Seq<char>)>, k: Seq<char>)
    ensures
        with_key(sort_options(s), k) == with_key(s, k),
    decreases s.len(),
{
    if s.len() > 0 {
        lemma_sort_options_stable(s.drop_last(), k);
        lemma_insert_option_keys(sort_options(s.drop_last()), s.last(), k);
    }
}

/// Options are rendered sorted by key, each exactly once.
pub proof fn lemma_sort_options(s: Seq<(Seq<char>, Seq<char>)>)
    ensures
        sorted_by_key(sort_options(s)),
        sort_options(s).to_multiset() == s.to_multiset(),
    decreases s.len(),
{
    if s.len() > 0 {
        lemma_sort_options(s.drop_last());
        lemma_insert_option_sorted(sort_options(s.drop_last()), s.last());
        lemma_insert_option_multiset(sort_options(s.drop_last()), s.last());
        assert(s.drop_last().push(s.last()) =~= s);
        assert(s.drop_last().push(s.last()).to_multiset() == s.drop_last().to_multiset().insert(
            s.last(),
        )) by {
            broadcast use vstd::seq_lib::group_to_multiset_ensures;
        }
    }
}

/// Rendering orders the stanzas by name in the order of [`name_cmp`], and renders each
/// entry of the directory exactly once.
pub proof fn lemma_sort_entries(s: Seq<InterfaceModel>)
    ensures
        sorted_by_name(sort_entries(s)),
        sort_entries(s).to_multiset() == s.to_multiset(),
    decreases s.len(),
{
    if s.len() > 0 {
        lemma_sort_entries(s.drop_last());
        lemma_insert_entry(sort_entries(s.drop_last()), s.last());
        lemma_insert_entry_multiset(sort_entries(s.drop_last()), s.last());
        assert(s.drop_last().push(s.last()) =~= s);
        assert(s.drop_last().push(s.last()).to_multiset() == s.drop_last().to_multiset().insert(
            s.last(),
        )) by {
            broadcast use vstd::seq_lib::group_to_multiset_ensures;
        }
    }
}

impl Interface {
    /// The interface's stanza as it is rendered in the file.
    pub fn to_string(&self) -> (r: String)
        ensures
            r@ == interface_text(self@),
    {
        let mut out = String::new();
        write_interface(&mut out, self);
        assert(out@ =~= interface_text(self@));
        out
    }
}

} // verus!
