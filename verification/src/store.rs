use vstd::prelude::*;

use crate::text::str_eq;

verus! {

/// Index of the first entry of `names` equal to `name`.
pub open spec fn first_named(names: Seq<Seq<char>>, name: Seq<char>) -> Option<nat>
    decreases names.len(),
{
    if names.len() == 0 {
        None
    } else {
        match first_named(names.drop_last(), name) {
            Some(i) => Some(i),
            None => if names.last() == name {
                Some((names.len() - 1) as nat)
            } else {
                None
            },
        }
    }
}

/// A shared asset store (skeletons, animation clips, animator controllers):
/// assets are addressed by the id `add` returns and can be looked up by name.
pub struct AssetStore<T> {
    items: Vec<T>,
    names: Vec<String>,
}

impl<T> AssetStore<T> {
    pub closed spec fn items(&self) -> Seq<T> {
        self.items@
    }

    pub closed spec fn names(&self) -> Seq<Seq<char>> {
        self.names@.map_values(|s: String| s@)
    }

    /// One name per asset.
    pub open spec fn wf(&self) -> bool {
        self.items().len() == self.names().len()
    }

    pub fn new() -> (s: Self)
        ensures
            s.wf(),
            s.items().len() == 0,
    {
        AssetStore { items: Vec::new(), names: Vec::new() }
    }

    /// Adds an asset under a name and returns its id (ids are handed out in order).
    pub fn add(&mut self, item: T, name: String) -> (id: usize)
        requires
            old(self).wf(),
        ensures
            final(self).wf(),
            id == old(self).items().len(),
            final(self).items() == old(self).items().push(item),
            final(self).names() == old(self).names().push(name@),
    {
        let id = self.items.len();
        let ghost n = name;
        self.names.push(name);
        self.items.push(item);
        assert(self.names() =~= old(self).names().push(n@));
        id
    }

    pub fn get(&self, id: usize) -> (r: Option<&T>)
        ensures
            r is Some <==> id < self.items().len(),
            r matches Some(x) ==> *x == self.items()[id as int],
    {
        if id < self.items.len() {
            Some(&self.items[id])
        } else {
            None
        }
    }

    /// The id of the first asset with this name.
    pub fn find_by_name(&self, name: &str) -> (r: Option<usize>)
        requires
            self.wf(),
        ensures
            r matches Some(i) ==> first_named(self.names(), name@) == Some(i as nat),
            r is None ==> first_named(self.names(), name@) is None,
    {
        let mut i: usize = 0;
        while i < self.names.len()
            invariant
                i <= self.names.len(),
                first_named(self.names().subrange(0, i as int), name@) is None,
            decreases self.names.len() - i,
        {
            let ghost pre = self.names().subrange(0, i as int);
            assert(self.names().subrange(0, i + 1).drop_last() =~= pre);
            if str_eq(self.names[i].as_str(), name) {
                proof {
                    lemma_first_named_prefix(self.names(), name@, (i + 1) as nat);
                }
                return Some(i);
            }
            i = i + 1;
        }
        assert(self.names().subrange(0, self.names.len() as int) =~= self.names());
        None
    }

    /// The id of the first asset named `name`, adding `item` under that name
    /// when there is none.
    pub fn find_or_add(&mut self, item: T, name: String) -> (id: usize)
        requires
            old(self).wf(),
        ensures
            final(self).wf(),
            match first_named(old(self).names(), name@) {
                Some(i) => id == i && final(self).items() == old(self).items() && final(self).names()
                    == old(self).names(),
                None => id == old(self).items().len() && final(self).items() == old(self).items().push(item)
                    && final(self).names() == old(self).names().push(name@),
            },
    {
        match self.find_by_name(name.as_str()) {
            Some(i) => i,
            None => self.add(item, name),
        }
    }

    pub fn get_name(&self, id: usize) -> (r: Option<&str>)
        requires
            self.wf(),
        ensures
            r is Some <==> id < self.items().len(),
            r matches Some(s) ==> s@ == self.names()[id as int],
    {
        if id < self.names.len() {
            Some(self.names[id].as_str())
        } else {
            None
        }
    }

    pub fn len(&self) -> (n: usize)
        ensures
            n == self.items().len(),
    {
        self.items.len()
    }
}

/// When a prefix already contains the name, the first match lies in that prefix.
proof fn lemma_first_named_prefix(names: Seq<Seq<char>>, name: Seq<char>, n: nat)
    requires
        n <= names.len(),
        first_named(names.subrange(0, n as int), name) is Some,
    ensures
        first_named(names, name) == first_named(names.subrange(0, n as int), name),
    decreases names.len() - n,
{
    if n < names.len() {
        assert(names.subrange(0, (n + 1) as int).drop_last() =~= names.subrange(0, n as int));
        lemma_first_named_prefix(names, name, n + 1);
    } else {
        assert(names.subrange(0, n as int) =~= names);
    }
}

/// A first match is a match, and no earlier entry matches.
pub proof fn lemma_first_named(names: Seq<Seq<char>>, name: Seq<char>)
    ensures
        first_named(names, name) matches Some(i) ==> i < names.len() && names[i as int] == name
            && forall|j: int| 0 <= j < i ==> names[j] != name,
        first_named(names, name) is None ==> forall|j: int| 0 <= j < names.len() ==> names[j] != name,
    decreases names.len(),
{
    if names.len() > 0 {
        let t = names.drop_last();
        lemma_first_named(t, name);
        assert forall|j: int| 0 <= j < t.len() implies t[j] == names[j] by {}
    }
}

/// The id handed out by `add` finds the added asset again, and looking it up
/// by its name yields that id unless an earlier asset already has the name.
pub proof fn law_store_add_then_find(names: Seq<Seq<char>>, name: Seq<char>)
    ensures
        first_named(names.push(name), name) == match first_named(names, name) {
            Some(i) => Some(i),
            None => Some(names.len()),
        },
{
    assert(names.push(name).drop_last() =~= names);
}

/// `first_named` is the first position holding the name: a position whose
/// name matches with no match before it, or `None` when no name matches.
pub proof fn law_find_is_first_match(names: Seq<Seq<char>>, name: Seq<char>)
    ensures
        first_named(names, name) matches Some(i) ==> i < names.len() && names[i as int] == name && forall|j: int|
            0 <= j < i ==> #[trigger] names[j] != name,
        first_named(names, name) is None ==> forall|j: int| 0 <= j < names.len() ==> #[trigger] names[j] != name,
    decreases names.len(),
{
    if names.len() > 0 {
        let t = names.drop_last();
        law_find_is_first_match(t, name);
        assert forall|j: int| 0 <= j < t.len() implies #[trigger] names[j] == t[j] by {}
        if first_named(t, name) is None {
            assert forall|j: int| 0 <= j < names.len() - 1 implies #[trigger] names[j] != name by {
                assert(names[j] == t[j]);
            }
        } else {
            let i = first_named(t, name)->0;
            assert forall|j: int| 0 <= j < i implies #[trigger] names[j] != name by {
                assert(names[j] == t[j]);
            }
        }
    }
}

/// Names and assets after a run of adds: each `add` pushes its asset and its
/// name, so a run of them appends, in order.
pub open spec fn after_adds<T>(s: Seq<T>, added: Seq<T>) -> Seq<T>
    decreases added.len(),
{
    if added.len() == 0 {
        s
    } else {
        after_adds(s, added.drop_last()).push(added.last())
    }
}

/// A run of adds onto a store holding `names`: the `j`-th added asset gets id
/// `names.len() + j`, which then holds it under its name, and looking up a
/// name gives the first id, among the old assets and then the added ones in
/// the order they were added, that carries the name.
pub proof fn law_store_adds<T>(items: Seq<T>, names: Seq<Seq<char>>, added: Seq<T>, added_names: Seq<Seq<char>>, name: Seq<char>)
    requires
        items.len() == names.len(),
        added.len() == added_names.len(),
    ensures
        after_adds(items, added) == items + added,
        after_adds(names, added_names) == names + added_names,
        forall|j: int|
            0 <= j < added.len() ==> #[trigger] after_adds(items, added)[items.len() + j] == added[j]
                && after_adds(names, added_names)[names.len() + j] == added_names[j],
        first_named(after_adds(names, added_names), name) == match first_named(names, name) {
            Some(i) => Some(i),
            None => match first_named(added_names, name) {
                Some(j) => Some(names.len() + j),
                None => None,
            },
        },
    decreases added.len(),
{
    lemma_after_adds(items, added);
    lemma_after_adds(names, added_names);
    if added_names.len() > 0 {
        let t = added.drop_last();
        let tn = added_names.drop_last();
        law_store_adds(items, names, t, tn, name);
        assert((names + added_names).drop_last() =~= names + tn);
        assert((names + added_names).last() == added_names.last());
    }
}

proof fn lemma_after_adds<T>(s: Seq<T>, added: Seq<T>)
    ensures
        after_adds(s, added) == s + added,
    decreases added.len(),
{
    if added.len() > 0 {
        lemma_after_adds(s, added.drop_last());
        assert(s + added =~= (s + added.drop_last()).push(added.last()));
    }
}

} // verus!
