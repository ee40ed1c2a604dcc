//! A fluent builder for [`Interface`] values.

use vstd::prelude::*;
use crate::interface::{
    opt_mapping, opt_text, text_pairs, texts, Family, Interface, InterfaceModel, Mapping,
};
use crate::text::string_from;

verus! {

/// Builds an [`Interface`] field by field.
pub struct InterfaceBuilder {
    name: String,
    auto: bool,
    allow: Vec<String>,
    family: Option<Family>,
    method: Option<String>,
    options: Vec<(String, String)>,
    mapping: Option<Mapping>,
}

/// `opts` without the options of key `key`.
pub open spec fn without_key(opts: Seq<(Seq<char>, Seq<char>)>, key: Seq<char>) -> Seq<
    (Seq<char>, Seq<char>),
>
    decreases opts.len(),
{
    if opts.len() == 0 {
        opts
    } else if opts.last().0 == key {
        without_key(opts.drop_last(), key)
    } else {
        without_key(opts.drop_last(), key).push(opts.last())
    }
}

/// `opts` without the options that are exactly `(key, value)`.
pub open spec fn without_pair(
    opts: Seq<(Seq<char>, Seq<char>)>,
    key: Seq<char>,
    value: Seq<char>,
) -> Seq<(Seq<char>, Seq<char>)>
    decreases opts.len(),
{
    if opts.len() == 0 {
        opts
    } else if opts.last().0 == key && opts.last().1 == value {
        without_pair(opts.drop_last(), key, value)
    } else {
        without_pair(opts.drop_last(), key, value).push(opts.last())
    }
}

/// A copy of a list of strings.
fn copy_strings(v: &Vec<String>) -> (r: Vec<String>)
    ensures
        texts(r@) == texts(v@),
{
    let mut r: Vec<String> = Vec::new();
    let mut i: usize = 0;
    while i < v.len()
        invariant
            i <= v@.len(),
            texts(r@) == texts(v@).subrange(0, i as int),
        decreases v@.len() - i,
    {
        let ghost before = r@;
        let s = v[i].clone();
        r.push(s);
        assert(texts(r@) =~= texts(before).push(s@));
        i += 1;
        assert(texts(r@) =~= texts(v@).subrange(0, i as int));
    }
    assert(texts(v@).subrange(0, v@.len() as int) =~= texts(v@));
    r
}

/// A copy of a list of key/value pairs.
fn copy_pairs(v: &Vec<(String, String)>) -> (r: Vec<(String, String)>)
    ensures
        text_pairs(r@) == text_pairs(v@),
{
    let mut r: Vec<(String, String)> = Vec::new();
    let mut i: usize = 0;
    while i < v.len()
        invariant
            i <= v@.len(),
            text_pairs(r@) == text_pairs(v@).subrange(0, i as int),
        decreases v@.len() - i,
    {
        let ghost before = r@;
        let p = (v[i].0.clone(), v[i].1.clone());
        r.push(p);
        assert(text_pairs(r@) =~= text_pairs(before).push((p.0@, p.1@)));
        i += 1;
        assert(text_pairs(r@) =~= text_pairs(v@).subrange(0, i as int));
    }
    assert(text_pairs(v@).subrange(0, v@.len() as int) =~= text_pairs(v@));
    r
}

impl View for InterfaceBuilder {
    type V = InterfaceModel;

    closed spec fn view(&self) -> InterfaceModel {
        InterfaceModel {
            name: self.name@,
            auto: self.auto,
            allow: texts(self.allow@),
            family: self.family,
            method: opt_text(self.method),
            options: text_pairs(self.options@),
            mapping: opt_mapping(self.mapping),
        }
    }
}

impl InterfaceBuilder {
    /// A builder for an interface named `name`: not automatic, with no allow
    /// tags, family, method, options or mapping.
    pub fn new(name: &str) -> (r: InterfaceBuilder)
        ensures
            r@ == crate::interface::fresh_model(name@),
    {
        let r = InterfaceBuilder {
            name: string_from(name),
            auto: false,
            allow: Vec::new(),
            family: None,
            method: None,
            options: Vec::new(),
            mapping: None,
        };
        assert(texts(r.allow@) =~= Seq::<Seq<char>>::empty());
        assert(text_pairs(r.options@) =~= Seq::<(Seq<char>, Seq<char>)>::empty());
        r
    }

    /// Sets whether the interface starts automatically.
    pub fn with_auto(self, auto: bool) -> (r: InterfaceBuilder)
        ensures
            r@ == (InterfaceModel { auto, ..self@ }),
    {
        let mut b = self;
        b.auto = auto;
        b
    }

    /// Appends an allow tag.
    pub fn with_allow(self, allow: &str) -> (r: InterfaceBuilder)
        ensures
            r@ == (InterfaceModel { allow: self@.allow.push(allow@), ..self@ }),
    {
        let mut b = self;
        let ghost before = b.allow@;
        b.allow.push(string_from(allow));
        assert(texts(b.allow@) =~= texts(before).push(allow@));
        b
    }

    /// Sets the address family.
    pub fn with_family(self, family: Family) -> (r: InterfaceBuilder)
        ensures
            r@ == (InterfaceModel { family: Some(family), ..self@ }),
    {
        let mut b = self;
        b.family = Some(family);
        b
    }

    /// Sets the method.
    pub fn with_method(self, method: &str) -> (r: InterfaceBuilder)
        ensures
            r@ == (InterfaceModel { method: Some(method@), ..self@ }),
    {
        let mut b = self;
        b.method = Some(string_from(method));
        b
    }

    /// Appends an option.
    pub fn with_option(self, key: &str, value: &str) -> (r: InterfaceBuilder)
        ensures
            r@ == (InterfaceModel { options: self@.options.push((key@, value@)), ..self@ }),
    {
        let mut b = self;
        let ghost before = b.options@;
        b.options.push((string_from(key), string_from(value)));
        assert(text_pairs(b.options@) =~= text_pairs(before).push((key@, value@)));
        b
    }

    /// Sets the mapping sub-stanza.
    pub fn with_mapping(self, mapping: Mapping) -> (r: InterfaceBuilder)
        ensures
            r@ == (InterfaceModel { mapping: Some(mapping@), ..self@ }),
    {
        let mut b = self;
        b.mapping = Some(mapping);
        b
    }

    /// Removes every option of key `key`.
    pub fn remove_option(self, key: &str) -> (r: InterfaceBuilder)
        ensures
            r@ == (InterfaceModel { options: without_key(self@.options, key@), ..self@ }),
    {
        let mut b = self;
        let ghost src = text_pairs(b.options@);
        let mut kept: Vec<(String, String)> = Vec::new();
        let mut i: usize = 0;
        let k = string_from(key);
        assert(src.subrange(0, 0) =~= Seq::<(Seq<char>, Seq<char>)>::empty());
        while i < b.options.len()
            invariant
                src == text_pairs(b.options@),
                k@ == key@,
                i <= b.options@.len(),
                text_pairs(kept@) == without_key(src.subrange(0, i as int), key@),
            decreases b.options@.len() - i,
        {
            let ghost q = src.subrange(0, i as int + 1);
            assert(q.drop_last() =~= src.subrange(0, i as int));
            assert(q.last() == (b.options@[i as int].0@, b.options@[i as int].1@));
            if b.options[i].0 != k {
                let ghost before = kept@;
                let p = (b.options[i].0.clone(), b.options[i].1.clone());
                kept.push(p);
                assert(text_pairs(kept@) =~= text_pairs(before).push((p.0@, p.1@)));
            }
            i += 1;
        }
        assert(src.subrange(0, src.len() as int) =~= src);
        b.options = kept;
        b
    }

    /// Removes every option that is exactly `key` with `value`.
    pub fn remove_option_value(self, key: &str, value: &str) -> (r: InterfaceBuilder)
        ensures
            r@ == (InterfaceModel {
                options: without_pair(self@.options, key@, value@),
                ..self@
            }),
    {
        let mut b = self;
        let ghost src = text_pairs(b.options@);
        let mut kept: Vec<(String, String)> = Vec::new();
        let mut i: usize = 0;
        let k = string_from(key);
        let v = string_from(value);
        assert(src.subrange(0, 0) =~= Seq::<(Seq<char>, Seq<char>)>::empty());
        while i < b.options.len()
            invariant
                src == text_pairs(b.options@),
                k@ == key@,
                v@ == value@,
                i <= b.options@.len(),
                text_pairs(kept@) == without_pair(src.subrange(0, i as int), key@, value@),
            decreases b.options@.len() - i,
        {
            let ghost q = src.subrange(0, i as int + 1);
            assert(q.drop_last() =~= src.subrange(0, i as int));
            assert(q.last() == (b.options@[i as int].0@, b.options@[i as int].1@));
            if !(b.options[i].0 == k && b.options[i].1 == v) {
                let ghost before = kept@;
                let p = (b.options[i].0.clone(), b.options[i].1.clone());
                kept.push(p);
                assert(text_pairs(kept@) =~= text_pairs(before).push((p.0@, p.1@)));
            }
            i += 1;
        }
        assert(src.subrange(0, src.len() as int) =~= src);
        b.options = kept;
        b
    }

    /// The interface built so far.
    pub fn build(self) -> (r: Interface)
        ensures
            r@ == self@,
    {
        Interface {
            name: self.name,
            auto: self.auto,
            allow: self.allow,
            family: self.family,
            method: self.method,
            options: self.options,
            mapping: self.mapping,
        }
    }
}

impl Interface {
    /// A builder for an interface named `name`.
    pub fn builder(name: &str) -> (r: InterfaceBuilder)
        ensures
            r@ == crate::interface::fresh_model(name@),
    {
        InterfaceBuilder::new(name)
    }

    /// A builder that starts from a copy of this interface.
    pub fn edit(&self) -> (r: InterfaceBuilder)
        ensures
            r@ == self@,
    {
        let mapping = match &self.mapping {
            Some(m) => {
                let c = Mapping { script: m.script.clone(), maps: copy_strings(&m.maps) };
                Some(c)
            },
            None => None,
        };
        let method = match &self.method {
            Some(m) => Some(m.clone()),
            None => None,
        };
        InterfaceBuilder {
            name: self.name.clone(),
            auto: self.auto,
            allow: copy_strings(&self.allow),
            family: self.family,
            method,
            options: copy_pairs(&self.options),
            mapping,
        }
    }
}

} // verus!
