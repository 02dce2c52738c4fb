use vstd::prelude::*;

use crate::entity::EntityId;

verus! {

/// `s` with its first occurrence of `id` removed, or with `id` appended when absent.
pub open spec fn toggled(s: Seq<EntityId>, id: EntityId) -> Seq<EntityId> {
    match s.index_of_first(id) {
        Some(k) => s.remove(k),
        None => s.push(id),
    }
}

/// No entity occurs twice.
pub open spec fn no_duplicates(s: Seq<EntityId>) -> bool {
    forall|a: int, b: int| 0 <= a < s.len() && 0 <= b < s.len() && a != b ==> s[a] != s[b]
}

/// The editor's entity selection, in the order the entities were picked; the
/// first one is the primary selection.
pub struct EditorSelection {
    pub selected_entities: Vec<EntityId>,
}

impl EditorSelection {
    pub fn new() -> (s: Self)
        ensures
            s.selected_entities@.len() == 0,
    {
        EditorSelection { selected_entities: Vec::new() }
    }

    /// Selects exactly one entity.
    pub fn select(&mut self, id: EntityId)
        ensures
            final(self).selected_entities@ == seq![id],
    {
        let mut v: Vec<EntityId> = Vec::new();
        v.push(id);
        self.selected_entities = v;
        assert(self.selected_entities@ =~= seq![id]);
    }

    /// Adds the entity to the selection, or removes it when it is already selected.
    pub fn toggle_select(&mut self, id: EntityId)
        ensures
            final(self).selected_entities@ == toggled(old(self).selected_entities@, id),
    {
        let mut pos: usize = 0;
        let n = self.selected_entities.len();
        while pos < n
            invariant
                n == self.selected_entities.len(),
                self.selected_entities@ == old(self).selected_entities@,
                pos <= n,
                forall|j: int| 0 <= j < pos ==> self.selected_entities@[j] != id,
            decreases n - pos,
        {
            if self.selected_entities[pos] == id {
                proof {
                    let s = self.selected_entities@;
                    assert(s.contains(id));
                    s.index_of_first_ensures(id);
                    assert(s.index_of_first(id) == Some(pos as int)) by {
                        let k = s.index_of_first(id)->0;
                        if k < pos {
                            assert(s[k] != id);
                        }
                        if k > pos {
                            assert(s[pos as int] == id);
                        }
                    }
                }
                self.selected_entities.remove(pos);
                return ;
            }
            pos = pos + 1;
        }
        assert(!self.selected_entities@.contains(id));
        proof {
            self.selected_entities@.index_of_first_ensures(id);
        }
        self.selected_entities.push(id);
    }

    pub fn deselect_all(&mut self)
        ensures
            final(self).selected_entities@.len() == 0,
    {
        self.selected_entities.clear();
    }

    /// The first selected entity.
    pub fn primary_selection(&self) -> (r: Option<EntityId>)
        ensures
            r == if self.selected_entities@.len() > 0 {
                Some(self.selected_entities@[0])
            } else {
                None
            },
    {
        if self.selected_entities.len() > 0 {
            Some(self.selected_entities[0])
        } else {
            None
        }
    }

    pub fn is_selected(&self, id: EntityId) -> (b: bool)
        ensures
            b == self.selected_entities@.contains(id),
    {
        let mut i: usize = 0;
        while i < self.selected_entities.len()
            invariant
                i <= self.selected_entities.len(),
                forall|j: int| 0 <= j < i ==> self.selected_entities@[j] != id,
            decreases self.selected_entities.len() - i,
        {
            if self.selected_entities[i] == id {
                return true;
            }
            i = i + 1;
        }
        false
    }
}

/// Toggling flips membership of exactly that entity and keeps the selection
/// free of duplicates.
pub proof fn law_toggle_flips_membership(s: Seq<EntityId>, id: EntityId)
    requires
        no_duplicates(s),
    ensures
        toggled(s, id).contains(id) == !s.contains(id),
        forall|x: EntityId| x != id ==> toggled(s, id).contains(x) == s.contains(x),
        no_duplicates(toggled(s, id)),
{
    s.index_of_first_ensures(id);
    if s.contains(id) {
        let k = s.index_of_first(id)->0;
        let t = s.remove(k);
        assert(!t.contains(id)) by {
            if t.contains(id) {
                let j = choose|j: int| 0 <= j < t.len() && t[j] == id;
                if j < k {
                    assert(t[j] == s[j]);
                } else {
                    assert(t[j] == s[j + 1]);
                }
            }
        }
        assert forall|x: EntityId| x != id implies t.contains(x) == s.contains(x) by {
            if s.contains(x) {
                let j = choose|j: int| 0 <= j < s.len() && s[j] == x;
                if j < k {
                    assert(t[j] == x);
                } else {
                    assert(j != k);
                    assert(t[j - 1] == x);
                }
            }
            if t.contains(x) {
                let j = choose|j: int| 0 <= j < t.len() && t[j] == x;
                if j < k {
                    assert(s[j] == x);
                } else {
                    assert(s[j + 1] == x);
                }
            }
        }
        assert forall|a: int, b: int| 0 <= a < t.len() && 0 <= b < t.len() && a != b implies t[a]
            != t[b] by {
            let sa = if a < k {
                a
            } else {
                a + 1
            };
            let sb = if b < k {
                b
            } else {
                b + 1
            };
            assert(t[a] == s[sa]);
            assert(t[b] == s[sb]);
        }
    } else {
        let t = s.push(id);
        assert(toggled(s, id) == t);
        assert(t[s.len() as int] == id);
        assert forall|x: EntityId| x != id implies t.contains(x) == s.contains(x) by {
            if s.contains(x) {
                let j = choose|j: int| 0 <= j < s.len() && s[j] == x;
                assert(t[j] == x);
            }
            if t.contains(x) {
                let j = choose|j: int| 0 <= j < t.len() && t[j] == x;
                assert(s[j] == x);
            }
        }
        assert forall|a: int, b: int| 0 <= a < t.len() && 0 <= b < t.len() && a != b implies t[a]
            != t[b] by {
            if a < s.len() && b < s.len() {
                assert(t[a] == s[a] && t[b] == s[b]);
            } else if a < s.len() {
                assert(t[a] == s[a]);
                assert(s.contains(s[a]));
            } else if b < s.len() {
                assert(t[b] == s[b]);
                assert(s.contains(s[b]));
            }
        }
    }
}

/// Toggling an entity that is not selected and toggling it again gives back
/// exactly the selection it started from.
pub proof fn law_toggle_twice(s: Seq<EntityId>, id: EntityId)
    requires
        !s.contains(id),
    ensures
        toggled(toggled(s, id), id) == s,
{
    s.index_of_first_ensures(id);
    let t = s.push(id);
    assert(toggled(s, id) == t);
    assert(t.contains(id)) by {
        assert(t[s.len() as int] == id);
    }
    t.index_of_first_ensures(id);
    let k = t.index_of_first(id)->0;
    assert(k == s.len()) by {
        if k < s.len() {
            assert(t[k] == s[k]);
            assert(s.contains(id));
        }
    }
    assert(t.remove(k) =~= s);
}

} // verus!
