//! The name-keyed directory of interfaces: at most one entry per name.

use vstd::prelude::*;
use crate::interface::{Interface, InterfaceModel};
use crate::text::{chars_of, is_text};

verus! {

/// The values of a sequence of interfaces.
pub open spec fn models(v: Seq<Interface>) -> Seq<InterfaceModel> {
    v.map_values(|e: Interface| e@)
}

/// No two entries of `d` share a name.
pub open spec fn unique_names(d: Seq<InterfaceModel>) -> bool {
    forall|i: int, j: int|
        0 <= i < d.len() && 0 <= j < d.len() && i != j ==> #[trigger] d[i].name != #[trigger] d[j].name
}

/// The index of the last entry of `d` named `name`, or -1 where none is.
pub open spec fn position(d: Seq<InterfaceModel>, name: Seq<char>) -> int
    decreases d.len(),
{
    if d.len() == 0 {
        -1
    } else if d.last().name == name {
        d.len() - 1
    } else {
        position(d.drop_last(), name)
    }
}

/// The entry of `d` named `name`, if any.
pub open spec fn lookup(d: Seq<InterfaceModel>, name: Seq<char>) -> Option<InterfaceModel> {
    if position(d, name) >= 0 {
        Some(d[position(d, name)])
    } else {
        None
    }
}

/// What `position` finds: an entry of that name, and none after it; or no
/// entry of that name at all.
pub proof fn lemma_position(d: Seq<InterfaceModel>, name: Seq<char>)
    ensures
        -1 <= position(d, name) < d.len(),
        position(d, name) >= 0 ==> d[position(d, name)].name == name,
        position(d, name) == -1 ==> forall|j: int| 0 <= j < d.len() ==> d[j].name != name,
        forall|j: int| position(d, name) < j < d.len() ==> d[j].name != name,
    decreases d.len(),
{
    if d.len() > 0 && d.last().name != name {
        lemma_position(d.drop_last(), name);
        assert forall|j: int| position(d, name) < j < d.len() implies d[j].name != name by {
            if j < d.len() - 1 {
                assert(d[j] == d.drop_last()[j]);
            }
        }
    }
}

/// In a directory of unique names, an entry's own index is its position.
pub proof fn lemma_position_unique(d: Seq<InterfaceModel>, i: int)
    requires
        unique_names(d),
        0 <= i < d.len(),
    ensures
        position(d, d[i].name) == i,
{
    lemma_position(d, d[i].name);
}

/// `position` depends on the names alone.
pub proof fn lemma_position_same_names(d: Seq<InterfaceModel>, e: Seq<InterfaceModel>, name: Seq<char>)
    requires
        d.len() == e.len(),
        forall|i: int| 0 <= i < d.len() ==> d[i].name == e[i].name,
    ensures
        position(d, name) == position(e, name),
    decreases d.len(),
{
    if d.len() > 0 {
        lemma_position_same_names(d.drop_last(), e.drop_last(), name);
    }
}

/// Replacing one entry by another of the same name keeps the names unique,
/// and the values follow the replacement.
proof fn lemma_update_models(v: Seq<Interface>, i: int)
    requires
        0 <= i < v.len(),
    ensures
        forall|x: Interface| #[trigger] models(v.update(i, x)) == models(v).update(i, x@),
        forall|x: Interface|
            unique_names(models(v)) && x@.name == models(v)[i].name ==> unique_names(
                #[trigger] models(v.update(i, x)),
            ),
{
    assert forall|x: Interface| #[trigger] models(v.update(i, x)) == models(v).update(i, x@) by {
        assert(models(v.update(i, x)) =~= models(v).update(i, x@));
    }
    assert forall|x: Interface|
        unique_names(models(v)) && x@.name == models(v)[i].name implies unique_names(
            #[trigger] models(v.update(i, x)),
        ) by {
        let d = models(v.update(i, x));
        assert(d =~= models(v).update(i, x@));
        assert forall|a: int, b: int|
            0 <= a < d.len() && 0 <= b < d.len() && a != b implies #[trigger] d[a].name
            != #[trigger] d[b].name by {
            assert(d[a].name == models(v)[a].name);
            assert(d[b].name == models(v)[b].name);
        }
    }
}

/// Whether the interface's name is the characters `name`.
pub(crate) fn name_is(e: &Interface, name: &[char]) -> (r: bool)
    ensures
        r == (e@.name == name@),
{
    is_text(name, e.name.as_str())
}

/// The index of the entry named `name`, as [`position`] gives it.
pub(crate) fn find_index(v: &Vec<Interface>, name: &[char]) -> (r: Option<usize>)
    requires
        unique_names(models(v@)),
    ensures
        match r {
            Some(i) => i < v@.len() && i == position(models(v@), name@),
            None => position(models(v@), name@) == -1,
        },
{
    let ghost d = models(v@);
    proof {
        lemma_position(d, name@);
    }
    let mut i: usize = 0;
    while i < v.len()
        invariant
            d == models(v@),
            unique_names(d),
            i <= v@.len(),
            forall|j: int| 0 <= j < i ==> d[j].name != name@,
        decreases v@.len() - i,
    {
        if name_is(&v[i], name) {
            proof {
                lemma_position_unique(d, i as int);
            }
            return Some(i);
        }
        i += 1;
    }
    None
}

/// The interfaces of one file, at most one per name.
pub struct Directory {
    entries: Vec<Interface>,
}

impl View for Directory {
    type V = Seq<InterfaceModel>;

    closed spec fn view(&self) -> Seq<InterfaceModel> {
        models(self.entries@)
    }
}

impl Directory {
    /// The directory's invariant: names are unique.
    pub open spec fn wf(&self) -> bool {
        unique_names(self@)
    }

    /// An empty directory.
    pub fn new() -> (r: Directory)
        ensures
            r.wf(),
            r@ == Seq::<InterfaceModel>::empty(),
    {
        let r = Directory { entries: Vec::new() };
        assert(r@ =~= Seq::<InterfaceModel>::empty());
        r
    }

    pub(crate) fn from_entries(entries: Vec<Interface>) -> (r: Directory)
        requires
            unique_names(models(entries@)),
        ensures
            r.wf(),
            r@ == models(entries@),
    {
        Directory { entries }
    }

    /// The number of interfaces.
    pub fn len(&self) -> (r: usize)
        ensures
            r == self@.len(),
    {
        self.entries.len()
    }

    /// Whether there are no interfaces.
    pub fn is_empty(&self) -> (r: bool)
        ensures
            r == (self@.len() == 0),
    {
        self.entries.len() == 0
    }

    /// The interfaces, in the directory's order.
    pub fn entries(&self) -> (r: &[Interface])
        ensures
            models(r@) == self@,
    {
        self.entries.as_slice()
    }

    /// The interface named `name`, if any.
    pub fn get(&self, name: &str) -> (r: Option<&Interface>)
        requires
            self.wf(),
        ensures
            match r {
                Some(e) => lookup(self@, name@) == Some(e@),
                None => lookup(self@, name@) is None,
            },
    {
        let t = chars_of(name);
        match find_index(&self.entries, t.as_slice()) {
            Some(i) => Some(&self.entries[i]),
            None => None,
        }
    }

    /// The interface named `name`, if any, for editing in place. The
    /// directory keeps one entry per name as long as the edit keeps the name.
    pub fn get_mut(&mut self, name: &str) -> (r: Option<&mut Interface>)
        requires
            old(self).wf(),
        ensures
            match r {
                Some(e) => {
                    &&& position(old(self)@, name@) >= 0
                    &&& (*e)@ == old(self)@[position(old(self)@, name@)]
                    &&& final(self)@ == old(self)@.update(
                        position(old(self)@, name@),
                        (*final(e))@,
                    )
                    &&& (*final(e))@.name == name@ ==> final(self).wf()
                },
                None => position(old(self)@, name@) == -1 && *final(self) == *old(self),
            },
    {
        let t = chars_of(name);
        let ghost d = self@;
        proof {
            lemma_position(d, name@);
        }
        match find_index(&self.entries, t.as_slice()) {
            Some(i) => {
                proof {
                    lemma_update_models(self.entries@, i as int);
                }
                Some(&mut self.entries[i])
            },
            None => None,
        }
    }

    /// Whether an interface named `name` is present.
    pub fn contains_key(&self, name: &str) -> (r: bool)
        requires
            self.wf(),
        ensures
            r == (lookup(self@, name@) is Some),
    {
        let t = chars_of(name);
        find_index(&self.entries, t.as_slice()).is_some()
    }

    /// Adds `iface`, replacing whole any entry of the same name.
    pub fn insert(&mut self, iface: Interface)
        requires
            old(self).wf(),
        ensures
            final(self).wf(),
            position(old(self)@, iface@.name) >= 0 ==> final(self)@ == old(self)@.update(
                position(old(self)@, iface@.name),
                iface@,
            ),
            position(old(self)@, iface@.name) == -1 ==> final(self)@ == old(self)@.push(iface@),
    {
        let ghost d = self@;
        let t = chars_of(iface.name.as_str());
        proof {
            lemma_position(d, iface@.name);
        }
        match find_index(&self.entries, t.as_slice()) {
            Some(i) => {
                let ghost v0 = self.entries@;
                self.entries.remove(i);
                self.entries.insert(i, iface);
                assert(self.entries@ =~= v0.update(i as int, iface));
                assert(self@ =~= d.update(i as int, iface@));
            },
            None => {
                let ghost v0 = self.entries@;
                self.entries.push(iface);
                assert(self.entries@ =~= v0.push(iface));
                assert(self@ =~= d.push(iface@));
            },
        }
    }

    /// Removes the interface named `name`, if present.
    pub fn remove(&mut self, name: &str)
        requires
            old(self).wf(),
        ensures
            final(self).wf(),
            position(old(self)@, name@) >= 0 ==> final(self)@ == old(self)@.remove(
                position(old(self)@, name@),
            ),
            position(old(self)@, name@) == -1 ==> final(self)@ == old(self)@,
    {
        let ghost d = self@;
        let t = chars_of(name);
        match find_index(&self.entries, t.as_slice()) {
            Some(i) => {
                let ghost v0 = self.entries@;
                self.entries.remove(i);
                assert(self.entries@ =~= v0.remove(i as int));
                assert(self@ =~= d.remove(i as int));
                assert forall|a: int, b: int|
                    0 <= a < self@.len() && 0 <= b < self@.len() && a != b
                        implies #[trigger] self@[a].name != #[trigger] self@[b].name by {
                    let a0 = if a < i { a } else { a + 1 };
                    let b0 = if b < i { b } else { b + 1 };
                    assert(self@[a] == d[a0]);
                    assert(self@[b] == d[b0]);
                }
            },
            None => {},
        }
    }
}

} // verus!
