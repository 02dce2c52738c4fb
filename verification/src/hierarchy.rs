use vstd::prelude::*;

use crate::entity::EntityId;
use crate::names::{contains_chars, contains_seq};
use crate::text::{chars_of, to_lowercase, unicode_lower};
use crate::world::World;
use crate::world::{
    law_hierarchy_acyclic, law_set_parent_links, law_destroy_kills, law_spawn_fresh, lemma_ancestor_root, lemma_ancestor_shift, lemma_wf_well_formed, well_formed,
};
use crate::world_model::{remove_id, SnapshotView, WorldView};

verus! {

/// Every handle that some slot lists as a child, slot by slot.
pub open spec fn listed_children(children: Seq<Option<Seq<EntityId>>>) -> Seq<EntityId>
    decreases children.len(),
{
    if children.len() == 0 {
        Seq::empty()
    } else {
        listed_children(children.drop_last()) + match children.last() {
            Some(c) => c,
            None => Seq::empty(),
        }
    }
}

proof fn lemma_listed_children(children: Seq<Option<Seq<EntityId>>>, i: int, c: EntityId)
    requires
        0 <= i < children.len(),
        children[i] is Some,
        children[i]->0.contains(c),
    ensures
        listed_children(children).contains(c),
    decreases children.len(),
{
    let rest = children.drop_last();
    let tail = match children.last() {
        Some(c) => c,
        None => Seq::empty(),
    };
    if i < children.len() - 1 {
        lemma_listed_children(rest, i, c);
        let k = choose|k: int| 0 <= k < listed_children(rest).len() && listed_children(rest)[k] == c;
        assert((listed_children(rest) + tail)[k] == c);
    } else {
        let k = choose|k: int| 0 <= k < tail.len() && tail[k] == c;
        assert((listed_children(rest) + tail)[listed_children(rest).len() + k] == c);
    }
}

/// A handle listed as a child of a live entity is among the listed children.
proof fn lemma_child_listed(v: WorldView, x: EntityId, c: EntityId)
    requires
        well_formed(v),
        v.is_alive(x),
        v.children_of(x).contains(c),
    ensures
        listed_children(v.children).contains(c),
{
    lemma_listed_children(v.children, x.index as int, c);
}

/// A sequence without repeats drawn from `u` is no longer than `u`.
proof fn lemma_distinct_within(s: Seq<EntityId>, u: Seq<EntityId>)
    requires
        s.no_duplicates(),
        forall|i: int| 0 <= i < s.len() ==> u.contains(#[trigger] s[i]),
    ensures
        s.len() <= u.len(),
{
    s.unique_seq_to_set();
    u.lemma_cardinality_of_set();
    assert(s.to_set().subset_of(u.to_set())) by {
        assert forall|x: EntityId| s.to_set().contains(x) implies u.to_set().contains(x) by {
            let i = choose|i: int| 0 <= i < s.len() && s[i] == x;
            assert(u.contains(s[i]));
        }
    }
    vstd::set_lib::lemma_len_subset(s.to_set(), u.to_set());
}

/// The entity at position `k` is a child of an entity at a position in `n..k`.
pub open spec fn found_below(out: Seq<EntityId>, n: int, k: int, v: WorldView) -> bool {
    exists|j: int| n <= j < k && #[trigger] v.children_of(out[j]).contains(out[k])
}

/// `after` is `before` followed by the entities found from `id` through child
/// lists, depth first, each entity once, skipping those already in `before`:
/// nothing is added when `id` is already there; otherwise `id` comes first,
/// every later addition is a child of an earlier one, and every child of an
/// addition is in `after`.
pub open spec fn collected(before: Seq<EntityId>, after: Seq<EntityId>, id: EntityId, v: WorldView) -> bool {
    let n = before.len() as int;
    &&& after.len() >= n
    &&& after.subrange(0, n) == before
    &&& before.contains(id) ==> after == before
    &&& !before.contains(id) ==> after.len() > n && after[n] == id
    &&& forall|k: int| n <= k < after.len() ==> !before.contains(#[trigger] after[k])
    &&& forall|a: int, b: int| n <= a < b < after.len() ==> #[trigger] after[a] != #[trigger] after[b]
    &&& forall|k: int| n < k < after.len() ==> #[trigger] found_below(after, n, k, v)
    &&& forall|k: int, c: EntityId| n <= k < after.len() && #[trigger] v.children_of(after[k]).contains(c) ==> after.contains(c)
}

/// The additions since position `base` are distinct, new, and drawn from `univ`.
spec fn additions_ok(out: Seq<EntityId>, base: nat, univ: Seq<EntityId>) -> bool {
    &&& base <= out.len()
    &&& forall|a: int, b: int| base <= a < b < out.len() ==> #[trigger] out[a] != #[trigger] out[b]
    &&& forall|k: int, j: int| 0 <= j < base <= k < out.len() ==> #[trigger] out[k] != #[trigger] out[j]
    &&& forall|k: int| base <= k < out.len() ==> univ.contains(#[trigger] out[k])
}

proof fn lemma_additions_bound(out: Seq<EntityId>, base: nat, univ: Seq<EntityId>)
    requires
        additions_ok(out, base, univ),
    ensures
        out.len() - base <= univ.len(),
{
    let s = out.subrange(base as int, out.len() as int);
    assert forall|i: int| 0 <= i < s.len() implies univ.contains(#[trigger] s[i]) by {
        assert(s[i] == out[base + i]);
    }
    assert(s.no_duplicates()) by {
        assert forall|i: int, j: int| 0 <= i < s.len() && 0 <= j < s.len() && i != j implies s[i] != s[j] by {
            if i < j {
                assert(out[base + i] != out[base + j]);
            } else {
                assert(out[base + j] != out[base + i]);
            }
        }
    }
    lemma_distinct_within(s, univ);
}

impl World {
    fn collect_rec(&self, id: EntityId, out: &mut Vec<EntityId>, Ghost(base): Ghost<nat>, Ghost(univ): Ghost<Seq<EntityId>>)
        requires
            self.wf(),
            additions_ok(old(out)@, base, univ),
            univ.contains(id),
            forall|x: EntityId, c: EntityId| self@.is_alive(x) && #[trigger] self@.children_of(x).contains(c) ==> univ.contains(c),
        ensures
            collected(old(out)@, final(out)@, id, self@),
            additions_ok(final(out)@, base, univ),
        decreases univ.len() + 1 + base - old(out)@.len(),
    {
        proof {
            lemma_additions_bound(out@, base, univ);
        }
        let ghost before = out@;
        let n = out.len();
        let mut i: usize = 0;
        while i < out.len()
            invariant
                out@ == before,
                before == old(out)@,
                additions_ok(before, base, univ),
                i <= n == before.len(),
                forall|j: int| 0 <= j < i ==> before[j] != id,
            decreases n - i,
        {
            if out[i] == id {
                assert(before.contains(id)) by {
                    assert(before[i as int] == id);
                }
                assert(before.subrange(0, n as int) =~= before);
                return;
            }
            i = i + 1;
        }
        assert(!before.contains(id));
        out.push(id);
        assert(out@.subrange(0, n as int) =~= before);
        let children = self.get_children(id);
        let mut m: usize = 0;
        while m < children.len()
            invariant
                self.wf(),
                forall|x: EntityId, c: EntityId| self@.is_alive(x) && #[trigger] self@.children_of(x).contains(c) ==> univ.contains(c),
                children@ == self@.children_of(id),
                m <= children@.len(),
                !before.contains(id),
                before == old(out)@,
                n == before.len(),
                out@.len() > n,
                out@.subrange(0, n as int) == before,
                out@[n as int] == id,
                additions_ok(out@, base, univ),
                base <= n,
                forall|k: int| n <= k < out@.len() ==> !before.contains(#[trigger] out@[k]),
                forall|k: int| n < k < out@.len() ==> #[trigger] found_below(out@, n as int, k, self@),
                forall|k: int, c: EntityId|
                    n < k < out@.len() && #[trigger] self@.children_of(out@[k]).contains(c) ==> out@.contains(c),
                forall|j: int| 0 <= j < m ==> out@.contains(#[trigger] children@[j]),
            decreases children@.len() - m,
        {
            let c = children[m];
            let ghost mid = out@;
            proof {
                lemma_wf_well_formed(self);
                assert(self@.children_of(id).contains(c)) by {
                    assert(children@[m as int] == c);
                }
                assert(self@.is_alive(id)) by {
                    if !self@.is_alive(id) {
                        assert(self@.children_of(id).len() == 0);
                    }
                }
                assert(univ.contains(c));
                lemma_additions_bound(out@, base, univ);
            }
            self.collect_rec(c, out, Ghost(base), Ghost(univ));
            proof {
                let after = out@;
                let mn = mid.len() as int;
                assert(after.subrange(0, mn) == mid);
                assert forall|k: int| 0 <= k < mn implies after[k] == mid[k] by {
                    assert(after.subrange(0, mn)[k] == mid[k]);
                }
                assert(after.subrange(0, n as int) =~= before) by {
                    assert forall|k: int| 0 <= k < n implies after[k] == before[k] by {
                        assert(mid.subrange(0, n as int)[k] == before[k]);
                    }
                }
                assert forall|k: int| n <= k < after.len() implies !before.contains(#[trigger] after[k]) by {
                    if k >= mn {
                        if before.contains(after[k]) {
                            let j = choose|j: int| 0 <= j < before.len() && before[j] == after[k];
                            assert(mid[j] == before[j]) by {
                                assert(mid.subrange(0, n as int)[j] == before[j]);
                            }
                            assert(mid.contains(after[k]));
                        }
                    }
                }
                assert forall|k: int| n < k < after.len() implies #[trigger] found_below(after, n as int, k, self@) by {
                    if k < mn {
                        assert(found_below(mid, n as int, k, self@));
                        let j = choose|j: int| n <= j < k && #[trigger] self@.children_of(mid[j]).contains(mid[k]);
                        assert(after[j] == mid[j]);
                        assert(after[k] == mid[k]);
                        assert(self@.children_of(after[j]).contains(after[k]));
                    } else if k == mn {
                        assert(after[mn] == c);
                        assert(after[n as int] == id);
                        assert(self@.children_of(after[n as int]).contains(after[k]));
                    } else {
                        assert(found_below(after, mn, k, self@));
                        let j = choose|j: int| mn <= j < k && #[trigger] self@.children_of(after[j]).contains(after[k]);
                        assert(self@.children_of(after[j]).contains(after[k]));
                    }
                }
                assert forall|k: int, x: EntityId|
                    n < k < after.len() && #[trigger] self@.children_of(after[k]).contains(x) implies after.contains(x) by {
                    if k < mn {
                        assert(after[k] == mid[k]);
                        assert(mid.contains(x));
                        let j = choose|j: int| 0 <= j < mid.len() && mid[j] == x;
                        assert(after[j] == x);
                    }
                }
                assert forall|j: int| 0 <= j < m + 1 implies after.contains(#[trigger] children@[j]) by {
                    if j < m {
                        assert(mid.contains(children@[j]));
                        let q = choose|q: int| 0 <= q < mid.len() && mid[q] == children@[j];
                        assert(after[q] == children@[j]);
                    } else {
                        if mid.contains(c) {
                            assert(after == mid);
                        } else {
                            assert(after[mn] == c);
                        }
                    }
                }
            }
            m = m + 1;
        }
        proof {
            let after = out@;
            assert forall|k: int, x: EntityId|
                n <= k < after.len() && #[trigger] self@.children_of(after[k]).contains(x) implies after.contains(x) by {
                if k == n {
                    let q = choose|q: int| 0 <= q < children@.len() && children@[q] == x;
                    assert(after.contains(children@[q]));
                }
            }
            assert forall|a: int, b: int| n <= a < b < after.len() implies #[trigger] after[a] != #[trigger] after[b] by {
                assert(base <= a);
            }
        }
    }

    /// Appends to `out`, depth first and in child-list order, `id` and every
    /// entity reached from it through child lists, each once, skipping the
    /// entities `out` already holds.
    pub fn collect_descendants(&self, id: EntityId, out: &mut Vec<EntityId>)
        requires
            self.wf(),
        ensures
            collected(old(out)@, final(out)@, id, self@),
    {
        let ghost univ = seq![id] + listed_children(self@.children);
        proof {
            lemma_wf_well_formed(self);
            assert(univ[0] == id);
            assert forall|x: EntityId, c: EntityId| self@.is_alive(x) && #[trigger] self@.children_of(x).contains(c) implies univ.contains(c) by {
                lemma_child_listed(self@, x, c);
                let k = choose|k: int| 0 <= k < listed_children(self@.children).len() && listed_children(self@.children)[k] == c;
                assert(univ[k + 1] == c);
            }
        }
        self.collect_rec(id, out, Ghost(out@.len()), Ghost(univ));
    }
}

/// A handle whose slot exists and whose generation that slot has reached.
pub open spec fn handle_not_ahead(v: WorldView, c: EntityId) -> bool {
    (c.index as int) < v.generations.len() && c.generation <= v.generations[c.index as int]
}

/// Parent links and child lists agree on live entities: a live entity with a
/// live parent is in that parent's child list, and a live entity listed under
/// a live entity has it as parent. No child list holds a handle from a
/// generation its slot has not reached.
pub open spec fn links_consistent(v: WorldView) -> bool {
    &&& forall|c: EntityId|
        #![trigger v.parent_of(c)]
        v.is_alive(c) && v.parent_of(c) is Some && v.is_alive(v.parent_of(c)->0) ==> v.children_of(
            v.parent_of(c)->0,
        ).contains(c)
    &&& forall|p: EntityId, c: EntityId|
        v.is_alive(p) && v.is_alive(c) && #[trigger] v.children_of(p).contains(c) ==> v.parent_of(c) == Some(p)
    &&& forall|i: int, j: int|
        0 <= i < v.children.len() && v.children[i] is Some && 0 <= j < v.children[i]->0.len() ==> handle_not_ahead(
            v,
            #[trigger] v.children[i]->0[j],
        )
}

proof fn lemma_remove_id_contains(s: Seq<EntityId>, c: EntityId, x: EntityId)
    ensures
        remove_id(s, c).contains(x) == (s.contains(x) && x != c),
    decreases s.len(),
{
    if s.len() > 0 {
        let t = s.drop_last();
        lemma_remove_id_contains(t, c, x);
        let r = remove_id(t, c);
        if s.contains(x) && x != c {
            let k = choose|k: int| 0 <= k < s.len() && s[k] == x;
            if k < s.len() - 1 {
                assert(t[k] == x);
                let q = choose|q: int| 0 <= q < r.len() && r[q] == x;
                if s.last() != c {
                    assert(r.push(s.last())[q] == x);
                }
            } else {
                assert(r.push(s.last())[r.len() as int] == x);
            }
        }
        if remove_id(s, c).contains(x) {
            let q = choose|q: int| 0 <= q < remove_id(s, c).len() && remove_id(s, c)[q] == x;
            if s.last() != c && q == r.len() {
                assert(s[s.len() - 1] == x);
            } else {
                assert(r[q] == x);
                let k = choose|k: int| 0 <= k < t.len() && t[k] == x;
                assert(s[k] == x);
            }
        }
    }
}

proof fn lemma_remove_id_elems(s: Seq<EntityId>, c: EntityId, j: int)
    requires
        0 <= j < remove_id(s, c).len(),
    ensures
        s.contains(remove_id(s, c)[j]),
{
    let x = remove_id(s, c)[j];
    lemma_remove_id_contains(s, c, x);
}

/// What a live entity's child list holds after `set_parent`.
proof fn lemma_set_parent_children(v: WorldView, child: EntityId, parent: EntityId, x: EntityId, y: EntityId)
    requires
        well_formed(v),
        v.set_parent_applies(child, parent),
        v.is_alive(x),
    ensures
        v.set_parent(child, parent).children_of(x).contains(y) == ((x == parent && y == child) || (
        v.children_of(x).contains(y) && !(v.parents[child.index as int] == Some(x) && y == child))),
{
    let w = v.set_parent(child, parent);
    let ci = child.index as int;
    let pi = parent.index as int;
    let children1 = v.unlink_child(v.children, v.parents[ci], child);
    let xi = x.index as int;
    // the first step only touches the old parent's list
    let l1 = match children1[xi] {
        Some(c) => c,
        None => Seq::<EntityId>::empty(),
    };
    let l0 = v.children_of(x);
    assert(l1.contains(y) == (l0.contains(y) && !(v.parents[ci] == Some(x) && y == child))) by {
        match v.parents[ci] {
            Some(qq) => {
                if v.is_alive(qq) && v.children[qq.index as int] is Some && qq.index == x.index {
                    assert(qq == x);
                    lemma_remove_id_contains(l0, child, y);
                } else if v.is_alive(qq) && v.children[qq.index as int] is Some {
                    assert(children1[xi] == v.children[xi]);
                    assert(qq != x);
                } else {
                    if qq == x {
                        assert(v.children[xi] is None);
                    }
                }
            },
            None => {},
        }
    }
    if x == parent {
        let l2 = w.children_of(x);
        assert(l2 =~= l1.push(child));
        assert(l2[l1.len() as int] == child);
        if l1.contains(y) {
            let k = choose|k: int| 0 <= k < l1.len() && l1[k] == y;
            assert(l2[k] == y);
        }
        if l2.contains(y) && y != child {
            let k = choose|k: int| 0 <= k < l2.len() && l2[k] == y;
            assert(l1[k] == y);
        }
    } else {
        assert(x.index != parent.index);
        assert(w.children_of(x) == l1);
    }
}

/// After a re-parenting that applies, the new parent lists the child and no
/// other live entity does, its old parent included.
pub proof fn law_set_parent_moves_child(v: WorldView, child: EntityId, parent: EntityId, q: EntityId)
    requires
        well_formed(v),
        links_consistent(v),
        v.set_parent_applies(child, parent),
        q != parent,
        v.is_alive(q),
    ensures
        v.set_parent(child, parent).children_of(parent).contains(child),
        !v.set_parent(child, parent).children_of(q).contains(child),
{
    law_set_parent_links(v, child, parent);
    law_set_parent_keeps_links(v, child, parent);
    let w = v.set_parent(child, parent);
    assert(w.is_alive(q) && w.is_alive(child));
}

/// After a re-parenting that applies, the new parent's child list is its old
/// list without the child, followed by the child: the child is listed there
/// exactly once, at the end.
pub proof fn law_set_parent_lists_child_once(v: WorldView, child: EntityId, parent: EntityId)
    requires
        well_formed(v),
        links_consistent(v),
        v.set_parent_applies(child, parent),
    ensures
        ({
            let cs = v.set_parent(child, parent).children_of(parent);
            &&& cs == remove_id(v.children_of(parent), child).push(child)
            &&& forall|k: int| 0 <= k < cs.len() && #[trigger] cs[k] == child ==> k == cs.len() - 1
        }),
{
    let w = v.set_parent(child, parent);
    let ci = child.index as int;
    let pi = parent.index as int;
    let old_parent = v.parents[ci];
    lemma_remove_id_contains(v.children_of(parent), child, child);
    if !v.children_of(parent).contains(child) {
        lemma_remove_id_absent(v.children_of(parent), child);
    }
    match old_parent {
        Some(q) => {
            if q != parent && v.is_alive(q) && q.index == parent.index {
                assert(q.generation != parent.generation);
            }
            if q != parent && v.children_of(parent).contains(child) {
                assert(v.parent_of(child) == Some(parent));
            }
        },
        None => {
            if v.children_of(parent).contains(child) {
                assert(v.parent_of(child) == Some(parent));
            }
        },
    }
    let cs = w.children_of(parent);
    let r = remove_id(v.children_of(parent), child);
    assert(cs == r.push(child));
    assert forall|k: int| 0 <= k < cs.len() && #[trigger] cs[k] == child implies k == cs.len() - 1 by {
        if k < cs.len() - 1 {
            assert(cs[k] == r[k]);
            assert(r.contains(child));
        }
    }
}

proof fn lemma_remove_id_absent(s: Seq<EntityId>, c: EntityId)
    requires
        !s.contains(c),
    ensures
        remove_id(s, c) == s,
    decreases s.len(),
{
    if s.len() > 0 {
        assert(!s.drop_last().contains(c)) by {
            if s.drop_last().contains(c) {
                let k = choose|k: int| 0 <= k < s.drop_last().len() && s.drop_last()[k] == c;
                assert(s[k] == c);
            }
        }
        lemma_remove_id_absent(s.drop_last(), c);
        assert(s.last() != c) by {
            assert(s[s.len() - 1] == s.last());
        }
        assert(s.drop_last().push(s.last()) =~= s);
    }
}

/// `set_parent` keeps parent links and child lists in agreement.
pub proof fn law_set_parent_keeps_links(v: WorldView, child: EntityId, parent: EntityId)
    requires
        well_formed(v),
        links_consistent(v),
    ensures
        links_consistent(v.set_parent(child, parent)),
{
    if v.set_parent_applies(child, parent) {
        let w = v.set_parent(child, parent);
        let ci = child.index as int;
        assert forall|x: EntityId| #[trigger] w.is_alive(x) == v.is_alive(x) by {}
        assert forall|c: EntityId|
            #![trigger w.parent_of(c)]
            w.is_alive(c) && w.parent_of(c) is Some && w.is_alive(w.parent_of(c)->0) implies w.children_of(
                w.parent_of(c)->0,
            ).contains(c) by {
            let p = w.parent_of(c)->0;
            lemma_set_parent_children(v, child, parent, p, c);
            if c != child {
                assert(c.index != child.index);
                assert(v.parent_of(c) == w.parent_of(c));
            }
        }
        assert forall|p: EntityId, c: EntityId|
            w.is_alive(p) && w.is_alive(c) && #[trigger] w.children_of(p).contains(c) implies w.parent_of(c) == Some(p) by {
            lemma_set_parent_children(v, child, parent, p, c);
            if c != child {
                assert(c.index != child.index);
                assert(v.parent_of(c) == Some(p));
            } else if p != parent {
                assert(v.parent_of(c) == Some(p));
            }
        }
        assert forall|i: int, j: int|
            0 <= i < w.children.len() && w.children[i] is Some && 0 <= j < w.children[i]->0.len() implies handle_not_ahead(
            w,
            #[trigger] w.children[i]->0[j],
        ) by {
            let y = w.children[i]->0[j];
            let children1 = v.unlink_child(v.children, v.parents[ci], child);
            let pi = parent.index as int;
            if y != child {
                // y was already listed in slot i
                if i == pi {
                    let l1 = match children1[pi] {
                        Some(c) => c,
                        None => Seq::<EntityId>::empty(),
                    };
                    assert(w.children[i]->0 =~= l1.push(child));
                    assert(l1[j] == y);
                    if children1[i] != v.children[i] {
                        lemma_remove_id_elems(v.children[i]->0, child, j);
                    }
                    let k = choose|k: int| 0 <= k < v.children[i]->0.len() && v.children[i]->0[k] == y;
                    assert(handle_not_ahead(v, v.children[i]->0[k]));
                } else {
                    assert(w.children[i] == children1[i]);
                    if children1[i] != v.children[i] {
                        lemma_remove_id_elems(v.children[i]->0, child, j);
                        let k = choose|k: int| 0 <= k < v.children[i]->0.len() && v.children[i]->0[k] == y;
                        assert(handle_not_ahead(v, v.children[i]->0[k]));
                    } else {
                        assert(handle_not_ahead(v, v.children[i]->0[j]));
                    }
                }
            }
        }
    }
}

/// What a live entity's child list holds once `c` has been unlinked from the
/// list of `q`.
proof fn lemma_unlink_children(v: WorldView, u: WorldView, q: Option<EntityId>, c: EntityId, x: EntityId, y: EntityId)
    requires
        well_formed(v),
        v.is_alive(x),
        u.generations == v.generations,
        u.alive.len() == v.alive.len(),
        forall|e: EntityId| e != x ==> (#[trigger] u.is_alive(e) ==> v.is_alive(e)),
        u.is_alive(x),
    ensures
        ({
            let l1 = match u.unlink_child(v.children, q, c)[x.index as int] {
                Some(l) => l,
                None => Seq::<EntityId>::empty(),
            };
            l1.contains(y) == (v.children_of(x).contains(y) && !(q == Some(x) && y == c))
        }),
{
    let children1 = u.unlink_child(v.children, q, c);
    let xi = x.index as int;
    let l0 = v.children_of(x);
    match q {
        Some(qq) => {
            if u.is_alive(qq) && v.children[qq.index as int] is Some && qq.index == x.index {
                assert(qq == x);
                lemma_remove_id_contains(l0, c, y);
            } else if u.is_alive(qq) && v.children[qq.index as int] is Some {
                assert(children1[xi] == v.children[xi]);
            } else {
                assert(children1 == v.children);
                if qq == x {
                    assert(v.children[xi] is None);
                }
            }
        },
        None => {},
    }
}

/// `remove_parent` keeps parent links and child lists in agreement.
pub proof fn law_remove_parent_keeps_links(v: WorldView, child: EntityId)
    requires
        well_formed(v),
        links_consistent(v),
    ensures
        links_consistent(v.remove_parent(child)),
{
    let w = v.remove_parent(child);
    if v.is_alive(child) && v.parents[child.index as int] is Some {
        let ci = child.index as int;
        let q = v.parents[ci];
        assert forall|x: EntityId| #[trigger] w.is_alive(x) == v.is_alive(x) by {}
        assert forall|x: EntityId, y: EntityId| v.is_alive(x) implies #[trigger] w.children_of(x).contains(y) == (
        v.children_of(x).contains(y) && !(q == Some(x) && y == child)) by {
            lemma_unlink_children(v, v, q, child, x, y);
        }
        assert forall|c: EntityId|
            #![trigger w.parent_of(c)]
            w.is_alive(c) && w.parent_of(c) is Some && w.is_alive(w.parent_of(c)->0) implies w.children_of(
                w.parent_of(c)->0,
            ).contains(c) by {
            assert(c.index != child.index);
            assert(v.parent_of(c) == w.parent_of(c));
            assert(w.children_of(w.parent_of(c)->0).contains(c) == v.children_of(w.parent_of(c)->0).contains(c));
        }
        assert forall|p: EntityId, c: EntityId|
            w.is_alive(p) && w.is_alive(c) && #[trigger] w.children_of(p).contains(c) implies w.parent_of(c) == Some(p) by {
            assert(w.children_of(p).contains(c) == (v.children_of(p).contains(c) && !(q == Some(p) && c == child)));
            if c.index == child.index {
                assert(c == child);
                assert(v.parent_of(c) == Some(p));
            }
        }
        assert forall|i: int, j: int|
            0 <= i < w.children.len() && w.children[i] is Some && 0 <= j < w.children[i]->0.len() implies handle_not_ahead(
            w,
            #[trigger] w.children[i]->0[j],
        ) by {
            if w.children[i] != v.children[i] {
                lemma_remove_id_elems(v.children[i]->0, child, j);
                let k = choose|k: int| 0 <= k < v.children[i]->0.len() && v.children[i]->0[k] == w.children[i]->0[j];
                assert(handle_not_ahead(v, v.children[i]->0[k]));
            } else {
                assert(handle_not_ahead(v, v.children[i]->0[j]));
            }
        }
    }
}

/// `destroy` keeps parent links and child lists in agreement.
pub proof fn law_destroy_keeps_links(v: WorldView, id: EntityId)
    requires
        well_formed(v),
        links_consistent(v),
    ensures
        links_consistent(v.destroy(id)),
{
    law_destroy_kills(v, id);
    if v.is_alive(id) {
        let w = v.destroy(id);
        let i = id.index as int;
        let v1 = WorldView {
            alive: v.alive.update(i, false),
            names: v.names.update(i, Seq::empty()),
            mesh_renderers: v.mesh_renderers.update(i, None),
            ..v
        };
        let q = v.parents[i];
        let children2 = v1.unlink_child(v.children, q, id);
        let kids = match children2[i] {
            Some(k) => k,
            None => Seq::<EntityId>::empty(),
        };
        assert forall|e: EntityId| #[trigger] v1.is_alive(e) == (v.is_alive(e) && e != id) by {}
        assert(kids == v.children_of(id)) by {
            match q {
                Some(qq) => {
                    if v1.is_alive(qq) {
                        assert(qq.index != id.index);
                    }
                },
                None => {},
            }
        }
        assert forall|x: EntityId, y: EntityId| w.is_alive(x) implies #[trigger] w.children_of(x).contains(y) == (
        v.children_of(x).contains(y) && !(q == Some(x) && y == id)) by {
            assert(x.index != id.index);
            lemma_unlink_children(v, v1, q, id, x, y);
        }
        assert forall|c: EntityId|
            #![trigger w.parent_of(c)]
            w.is_alive(c) && w.parent_of(c) is Some && w.is_alive(w.parent_of(c)->0) implies w.children_of(
                w.parent_of(c)->0,
            ).contains(c) by {
            let p = w.parent_of(c)->0;
            assert(c.index != id.index);
            assert(w.parents[c.index as int] == v.parents[c.index as int]);
            assert(v.parent_of(c) == Some(p));
            assert(w.children_of(p).contains(c) == (v.children_of(p).contains(c) && !(q == Some(p) && c == id)));
        }
        assert forall|p: EntityId, c: EntityId|
            w.is_alive(p) && w.is_alive(c) && #[trigger] w.children_of(p).contains(c) implies w.parent_of(c) == Some(p) by {
            assert(w.children_of(p).contains(c) == (v.children_of(p).contains(c) && !(q == Some(p) && c == id)));
            assert(v.parent_of(c) == Some(p));
            assert(c.index != id.index);
            if exists|k: int| 0 <= k < kids.len() && v1.is_alive(#[trigger] kids[k]) && kids[k].index == c.index {
                let k = choose|k: int| 0 <= k < kids.len() && v1.is_alive(#[trigger] kids[k]) && kids[k].index == c.index;
                assert(kids[k] == c);
                assert(v.children_of(id).contains(c));
            }
            assert(w.parents[c.index as int] == v.parents[c.index as int]);
        }
        assert forall|a: int, j: int|
            0 <= a < w.children.len() && w.children[a] is Some && 0 <= j < w.children[a]->0.len() implies handle_not_ahead(
            w,
            #[trigger] w.children[a]->0[j],
        ) by {
            assert(a != i);
            if w.children[a] != v.children[a] {
                lemma_remove_id_elems(v.children[a]->0, id, j);
                let k = choose|k: int| 0 <= k < v.children[a]->0.len() && v.children[a]->0[k] == w.children[a]->0[j];
                assert(handle_not_ahead(v, v.children[a]->0[k]));
            } else {
                assert(handle_not_ahead(v, v.children[a]->0[j]));
            }
        }
    }
}

/// `spawn` keeps parent links and child lists in agreement.
pub proof fn law_spawn_keeps_links(v: WorldView)
    requires
        well_formed(v),
        links_consistent(v),
        v.can_spawn(),
    ensures
        links_consistent(v.spawn().0),
{
    law_spawn_fresh(v);
    let (w, nid) = v.spawn();
    let n = nid.index as int;
    assert(n < v.alive.len() ==> !v.alive[n]) by {
        if v.free_list.len() > 0 {
            assert(v.free_list[v.free_list.len() - 1] == v.free_list.last());
        }
    }
    assert forall|c: EntityId|
        #![trigger w.parent_of(c)]
        w.is_alive(c) && w.parent_of(c) is Some && w.is_alive(w.parent_of(c)->0) implies w.children_of(
            w.parent_of(c)->0,
        ).contains(c) by {
        let p = w.parent_of(c)->0;
        assert(c != nid);
        assert(v.is_alive(c));
        assert(w.parents[c.index as int] == v.parents[c.index as int]);
        assert(p != nid);
        assert(v.is_alive(p));
        assert(v.parent_of(c) == Some(p));
        assert(v.children_of(p).contains(c));
        assert(w.children[p.index as int] == v.children[p.index as int]);
        assert(w.children_of(p) == v.children_of(p));
    }
    assert forall|p: EntityId, c: EntityId|
        w.is_alive(p) && w.is_alive(c) && #[trigger] w.children_of(p).contains(c) implies w.parent_of(c) == Some(p) by {
        assert(p != nid);
        assert(v.is_alive(p));
        assert(w.children[p.index as int] == v.children[p.index as int]);
        assert(v.children_of(p).contains(c));
        let k = choose|k: int| 0 <= k < v.children_of(p).len() && v.children_of(p)[k] == c;
        assert(handle_not_ahead(v, v.children[p.index as int]->0[k]));
        assert(c != nid);
        assert(v.is_alive(c));
        assert(w.parents[c.index as int] == v.parents[c.index as int]);
    }
    assert forall|a: int, j: int|
        0 <= a < w.children.len() && w.children[a] is Some && 0 <= j < w.children[a]->0.len() implies handle_not_ahead(
        w,
        #[trigger] w.children[a]->0[j],
    ) by {
        assert(a != n);
        assert(w.children[a] == v.children[a]);
        assert(handle_not_ahead(v, v.children[a]->0[j]));
    }
}

/// Renaming and mesh changes leave parent links and child lists alone.
pub proof fn law_components_keep_links(v: WorldView, id: EntityId, name: Seq<char>, m: crate::components::MeshRenderer)
    requires
        links_consistent(v),
    ensures
        links_consistent(v.set_name(id, name)),
        links_consistent(v.set_mesh_renderer(id, m)),
        links_consistent(v.remove_mesh_renderer(id)),
{
    let a = v.set_name(id, name);
    let b = v.set_mesh_renderer(id, m);
    let c = v.remove_mesh_renderer(id);
    assert forall|x: EntityId| #[trigger] a.is_alive(x) == v.is_alive(x) by {}
    assert forall|x: EntityId| #[trigger] b.is_alive(x) == v.is_alive(x) by {}
    assert forall|x: EntityId| #[trigger] c.is_alive(x) == v.is_alive(x) by {}
    assert(a.parents == v.parents && a.children == v.children && a.generations == v.generations);
    assert(b.parents == v.parents && b.children == v.children && b.generations == v.generations);
    assert(c.parents == v.parents && c.children == v.children && c.generations == v.generations);
    assert forall|x: EntityId| #[trigger] a.parent_of(x) == v.parent_of(x) by {}
    assert forall|x: EntityId| #[trigger] b.parent_of(x) == v.parent_of(x) by {}
    assert forall|x: EntityId| #[trigger] c.parent_of(x) == v.parent_of(x) by {}
    assert forall|x: EntityId| #[trigger] a.children_of(x) == v.children_of(x) by {}
    assert forall|x: EntityId| #[trigger] b.children_of(x) == v.children_of(x) by {}
    assert forall|x: EntityId| #[trigger] c.children_of(x) == v.children_of(x) by {}
}

/// Restoring a snapshot of a world whose links agreed gives a world whose
/// links agree, whatever happened in between.
pub proof fn law_restore_keeps_links(earlier: WorldView, v: WorldView)
    requires
        well_formed(earlier),
        well_formed(v),
        links_consistent(earlier),
        v.can_restore(earlier.snapshot()),
    ensures
        links_consistent(v.restore(earlier.snapshot())),
{
    let w = v.restore(earlier.snapshot());
    let m = earlier.alive.len();
    assert forall|x: EntityId| #[trigger] w.is_alive(x) == earlier.is_alive(x) by {
        if (x.index as int) < m {
            assert(w.alive[x.index as int] == earlier.alive[x.index as int]);
            assert(w.generations[x.index as int] == earlier.generations[x.index as int]);
        } else if (x.index as int) < w.alive.len() {
            assert(!w.alive[x.index as int]);
        }
    }
    assert forall|x: EntityId| #[trigger] w.parent_of(x) == earlier.parent_of(x) by {
        if w.is_alive(x) {
            assert(w.parents[x.index as int] == earlier.parents[x.index as int]);
        }
    }
    assert forall|x: EntityId| #[trigger] w.children_of(x) == earlier.children_of(x) by {
        if w.is_alive(x) {
            assert(w.children[x.index as int] == earlier.children[x.index as int]);
        }
    }
    assert forall|a: int, j: int|
        0 <= a < w.children.len() && w.children[a] is Some && 0 <= j < w.children[a]->0.len() implies handle_not_ahead(
        w,
        #[trigger] w.children[a]->0[j],
    ) by {
        assert(a < m);
        assert(w.children[a] == earlier.children[a]);
        let c = earlier.children[a]->0[j];
        assert(handle_not_ahead(earlier, c));
        assert(w.generations[c.index as int] == earlier.generations[c.index as int]);
    }
}

/// Destroys the entities of `ids`, in order.
pub open spec fn destroy_all(v: WorldView, ids: Seq<EntityId>) -> WorldView
    decreases ids.len(),
{
    if ids.len() == 0 {
        v
    } else {
        destroy_all(v, ids.drop_last()).destroy(ids.last())
    }
}

/// Every child of an entity of `s` is in `s`.
pub open spec fn closed_under_children(s: Seq<EntityId>, v: WorldView) -> bool {
    forall|k: int, c: EntityId| 0 <= k < s.len() && #[trigger] v.children_of(s[k]).contains(c) ==> s.contains(c)
}

/// The entity at position `k` is one of `roots`, or a child of an entity at
/// a later position.
pub open spec fn reached_from(s: Seq<EntityId>, roots: Seq<EntityId>, k: int, v: WorldView) -> bool {
    roots.contains(s[k]) || exists|j: int| k < j < s.len() && #[trigger] v.children_of(s[j]).contains(s[k])
}

/// An entity below a member of a child-closed list is in the list (parent
/// links and child lists agreeing).
proof fn lemma_below_is_collected(v: WorldView, s: Seq<EntityId>, d: EntityId, x: EntityId, k: nat)
    requires
        links_consistent(v),
        closed_under_children(s, v),
        s.contains(d),
        v.is_alive(d),
        v.is_alive(x),
        k >= 1,
        v.ancestor_at(x, k) == Some(d),
    ensures
        s.contains(x),
    decreases k,
{
    if v.parent_of(x) is None {
        lemma_ancestor_root(v, x, k);
    } else {
        let p = v.parent_of(x)->0;
        lemma_ancestor_shift(v, x, k);
        if k == 1 {
            assert(v.ancestor_at(p, 0) == Some(p));
            assert(p == d);
        } else {
            assert(v.is_alive(p)) by {
                if !v.is_alive(p) {
                    assert(v.parent_of(p) is None);
                    lemma_ancestor_root(v, p, (k - 1) as nat);
                }
            }
            lemma_below_is_collected(v, s, d, p, (k - 1) as nat);
        }
        assert(v.children_of(p).contains(x));
        let j = choose|j: int| 0 <= j < s.len() && s[j] == p;
        assert(v.children_of(s[j]).contains(x));
    }
}

impl World {
    /// Deletes the given entities together with every entity below them: the
    /// entities are collected depth first through child lists (each once)
    /// and destroyed in reverse, deepest first. Returns the destroyed handles
    /// in destruction order. When parent links and child lists agree, every
    /// live entity below a deleted live entity is gone afterwards.
    pub fn delete_with_descendants(&mut self, ids: &Vec<EntityId>) -> (all: Vec<EntityId>)
        requires
            old(self).wf(),
        ensures
            final(self).wf(),
            final(self)@ == destroy_all(old(self)@, all@),
            forall|k: int| 0 <= k < ids@.len() ==> all@.contains(#[trigger] ids@[k]),
            closed_under_children(all@, old(self)@),
            forall|k: int| 0 <= k < all@.len() ==> #[trigger] reached_from(all@, ids@, k, old(self)@),
            all@.no_duplicates(),
            forall|x: EntityId| #[trigger] final(self)@.is_alive(x) == (old(self)@.is_alive(x) && !all@.contains(x)),
            links_consistent(old(self)@) ==> forall|d: EntityId, x: EntityId|
                ids@.contains(d) && old(self)@.is_alive(d) && #[trigger] old(self)@.is_ancestor(d, x) ==> !final(self)@.is_alive(x),
    {
        let ghost v = self@;
        let mut found: Vec<EntityId> = Vec::new();
        let mut i: usize = 0;
        while i < ids.len()
            invariant
                self.wf(),
                self@ == v,
                i <= ids@.len(),
                found@.no_duplicates(),
                closed_under_children(found@, v),
                forall|p: int| 0 <= p < found@.len() ==> #[trigger] reached_from(found@.reverse(), ids@, p, v),
                forall|m: int| 0 <= m < i ==> found@.contains(#[trigger] ids@[m]),
            decreases ids@.len() - i,
        {
            let ghost before = found@;
            self.collect_descendants(ids[i], &mut found);
            proof {
                let after = found@;
                let n = before.len() as int;
                assert forall|k: int| 0 <= k < n implies after[k] == before[k] by {
                    assert(after.subrange(0, n)[k] == before[k]);
                }
                assert forall|x: EntityId| before.contains(x) implies after.contains(x) by {
                    let k = choose|k: int| 0 <= k < n && before[k] == x;
                    assert(after[k] == x);
                }
                assert(after.no_duplicates()) by {
                    assert forall|a: int, b: int| 0 <= a < after.len() && 0 <= b < after.len() && a != b implies after[a] != after[b] by {
                        if a < n && b < n {
                            assert(before[a] != before[b]);
                        } else if a < n {
                            assert(!before.contains(after[b]));
                            assert(before[a] == after[a]);
                        } else if b < n {
                            assert(!before.contains(after[a]));
                            assert(before[b] == after[b]);
                        }
                    }
                }
                assert forall|k: int, c: EntityId| 0 <= k < after.len() && #[trigger] v.children_of(after[k]).contains(c) implies after.contains(c) by {
                    if k < n {
                        assert(v.children_of(before[k]).contains(c));
                        assert(before.contains(c));
                    }
                }
                assert forall|p: int| 0 <= p < after.len() implies #[trigger] reached_from(after.reverse(), ids@, p, v) by {
                    let r = after.reverse();
                    let k = after.len() - 1 - p;
                    assert(r[p] == after[k]);
                    if k < n {
                        let rb = before.reverse();
                        let pb = n - 1 - k;
                        assert(reached_from(rb, ids@, pb, v));
                        assert(rb[pb] == before[k]);
                        if !ids@.contains(before[k]) {
                            let j = choose|j: int| pb < j < rb.len() && #[trigger] v.children_of(rb[j]).contains(rb[pb]);
                            let kk = n - 1 - j;
                            assert(rb[j] == before[kk]);
                            assert(r[after.len() - 1 - kk] == after[kk]);
                            assert(v.children_of(r[after.len() - 1 - kk]).contains(r[p]));
                        }
                    } else if k == n {
                        assert(after[n] == ids@[i as int]);
                        assert(ids@.contains(ids@[i as int]));
                    } else {
                        assert(found_below(after, n, k, v));
                        let j = choose|j: int| n <= j < k && #[trigger] v.children_of(after[j]).contains(after[k]);
                        assert(r[after.len() - 1 - j] == after[j]);
                        assert(v.children_of(r[after.len() - 1 - j]).contains(r[p]));
                    }
                }
                assert(after.contains(ids@[i as int])) by {
                    if before.contains(ids@[i as int]) {
                    } else {
                        assert(after[n] == ids@[i as int]);
                    }
                }
            }
            i = i + 1;
        }
        let mut all: Vec<EntityId> = Vec::new();
        let mut j: usize = found.len();
        while j > 0
            invariant
                j <= found@.len(),
                all@ == found@.subrange(j as int, found@.len() as int).reverse(),
            decreases j,
        {
            j = j - 1;
            all.push(found[j]);
            assert(all@ =~= found@.subrange(j as int, found@.len() as int).reverse());
        }
        assert(found@.subrange(0, found@.len() as int) =~= found@);
        assert(all@.reverse() =~= found@);
        assert(all@ =~= found@.reverse());
        proof {
            assert forall|x: EntityId| all@.contains(x) == found@.contains(x) by {
                if all@.contains(x) {
                    let k = choose|k: int| 0 <= k < all@.len() && all@[k] == x;
                    assert(found@[found@.len() - 1 - k] == x);
                }
                if found@.contains(x) {
                    let k = choose|k: int| 0 <= k < found@.len() && found@[k] == x;
                    assert(all@[all@.len() - 1 - k] == x);
                }
            }
            assert(all@.no_duplicates()) by {
                assert forall|a: int, b: int| 0 <= a < all@.len() && 0 <= b < all@.len() && a != b implies all@[a] != all@[b] by {
                    assert(all@[a] == found@[found@.len() - 1 - a]);
                    assert(all@[b] == found@[found@.len() - 1 - b]);
                }
            }
            assert forall|k: int, c: EntityId| 0 <= k < all@.len() && #[trigger] v.children_of(all@[k]).contains(c) implies all@.contains(c) by {
                assert(all@[k] == found@[found@.len() - 1 - k]);
                assert(found@.contains(c));
            }
            assert forall|k: int| 0 <= k < ids@.len() implies all@.contains(#[trigger] ids@[k]) by {
                assert(found@.contains(ids@[k]));
            }
        }
        let mut k: usize = 0;
        while k < all.len()
            invariant
                self.wf(),
                k <= all@.len(),
                self@ == destroy_all(v, all@.subrange(0, k as int)),
                forall|x: EntityId| #[trigger] self@.is_alive(x) == (v.is_alive(x) && !all@.subrange(0, k as int).contains(x)),
            decreases all@.len() - k,
        {
            proof {
                lemma_wf_well_formed(self);
                law_destroy_kills(self@, all@[k as int]);
                assert(all@.subrange(0, k + 1).drop_last() =~= all@.subrange(0, k as int));
                let s1 = all@.subrange(0, k + 1);
                let s0 = all@.subrange(0, k as int);
                assert forall|x: EntityId| s1.contains(x) == (s0.contains(x) || x == all@[k as int]) by {
                    if s1.contains(x) {
                        let q = choose|q: int| 0 <= q < s1.len() && s1[q] == x;
                        if q < k {
                            assert(s0[q] == x);
                        }
                    }
                    if s0.contains(x) {
                        let q = choose|q: int| 0 <= q < s0.len() && s0[q] == x;
                        assert(s1[q] == x);
                    }
                    if x == all@[k as int] {
                        assert(s1[k as int] == x);
                    }
                }
            }
            self.destroy_entity(all[k]);
            k = k + 1;
        }
        assert(all@.subrange(0, all@.len() as int) =~= all@);
        proof {
            if links_consistent(v) {
                assert forall|d: EntityId, x: EntityId|
                    ids@.contains(d) && v.is_alive(d) && #[trigger] v.is_ancestor(d, x) implies !self@.is_alive(x) by {
                    let kk = choose|kk: nat| kk >= 1 && #[trigger] v.ancestor_at(x, kk) == Some(d);
                    if v.is_alive(x) {
                        let m = choose|m: int| 0 <= m < ids@.len() && ids@[m] == d;
                        assert(all@.contains(ids@[m]));
                        lemma_below_is_collected(v, all@, d, x, kk);
                    }
                }
            }
        }
        all
    }
}

/// The name the hierarchy shows for an entity: its name, or `Entity` when it
/// has none.
pub open spec fn shown_name(v: WorldView, x: EntityId) -> Seq<char> {
    match v.name_of(x) {
        Some(n) => n,
        None => "Entity"@,
    }
}

/// The lower-case form of the shown name of `x` contains `query`.
pub open spec fn name_matches(v: WorldView, x: EntityId, query: Seq<char>) -> bool {
    contains_seq(unicode_lower(shown_name(v, x)), query)
}

/// Each entity of `p` is listed as a child of the one before it.
pub open spec fn child_path(v: WorldView, p: Seq<EntityId>) -> bool {
    &&& p.len() >= 2
    &&& forall|i: int| 0 <= i < p.len() - 1 ==> #[trigger] v.children_of(p[i]).contains(p[i + 1])
}

/// `x` is reached from `a` through one or more child-list steps.
pub open spec fn below(v: WorldView, a: EntityId, x: EntityId) -> bool {
    exists|p: Seq<EntityId>| #[trigger] child_path(v, p) && p[0] == a && p.last() == x
}

/// Some entity below `a`, other than `a` itself, matches `query`.
pub open spec fn subtree_matches(v: WorldView, a: EntityId, query: Seq<char>) -> bool {
    exists|x: EntityId| #[trigger] below(v, a, x) && x != a && name_matches(v, x, query)
}

/// A path from `a` to the `k`-th entity collected from `a`.
proof fn lemma_collected_path(v: WorldView, out: Seq<EntityId>, a: EntityId, k: int) -> (p: Seq<EntityId>)
    requires
        collected(Seq::empty(), out, a, v),
        1 <= k < out.len(),
    ensures
        child_path(v, p),
        p[0] == a,
        p.last() == out[k],
    decreases k,
{
    assert(found_below(out, 0, k, v));
    let j = choose|j: int| 0 <= j < k && #[trigger] v.children_of(out[j]).contains(out[k]);
    if j == 0 {
        let p = seq![a, out[k]];
        assert(v.children_of(p[0]).contains(p[1]));
        p
    } else {
        let q = lemma_collected_path(v, out, a, j);
        let p = q.push(out[k]);
        assert forall|i: int| 0 <= i < p.len() - 1 implies #[trigger] v.children_of(p[i]).contains(p[i + 1]) by {
            if i < q.len() - 1 {
                assert(p[i] == q[i] && p[i + 1] == q[i + 1]);
            } else {
                assert(p[i] == out[j]);
            }
        }
        p
    }
}

/// What was collected from `a`, after `a` itself, is exactly what lies below
/// `a` apart from `a`.
proof fn lemma_collected_below(v: WorldView, out: Seq<EntityId>, a: EntityId)
    requires
        collected(Seq::empty(), out, a, v),
    ensures
        out.len() >= 1,
        out[0] == a,
        forall|k: int| 1 <= k < out.len() ==> below(v, a, #[trigger] out[k]) && out[k] != a,
        forall|x: EntityId| below(v, a, x) && x != a ==> exists|k: int| 1 <= k < out.len() && #[trigger] out[k] == x,
{
    assert(out.subrange(0, 0) =~= Seq::<EntityId>::empty());
    assert forall|k: int| 1 <= k < out.len() implies below(v, a, #[trigger] out[k]) && out[k] != a by {
        let p = lemma_collected_path(v, out, a, k);
        assert(child_path(v, p));
        assert(out[0] != out[k]);
    }
    assert forall|x: EntityId| below(v, a, x) && x != a implies exists|k: int| 1 <= k < out.len() && #[trigger] out[k] == x by {
        let p = choose|p: Seq<EntityId>| #[trigger] child_path(v, p) && p[0] == a && p.last() == x;
        lemma_path_collected(v, out, a, p, p.len() - 1);
        let k = choose|k: int| 0 <= k < out.len() && out[k] == x;
        assert(k != 0);
    }
}

/// Every entity on a path from `a` was collected from `a`.
proof fn lemma_path_collected(v: WorldView, out: Seq<EntityId>, a: EntityId, p: Seq<EntityId>, i: int)
    requires
        collected(Seq::empty(), out, a, v),
        child_path(v, p),
        p[0] == a,
        0 <= i < p.len(),
    ensures
        out.contains(p[i]),
    decreases i,
{
    if i == 0 {
        assert(out[0] == a);
    } else {
        lemma_path_collected(v, out, a, p, i - 1);
        let j = i - 1;
        let m = choose|m: int| 0 <= m < out.len() && out[m] == p[j];
        assert(v.children_of(p[j]).contains(p[j + 1]));
        assert(v.children_of(out[m]).contains(p[i]));
    }
}

impl World {
    /// Whether some entity below `eid` (not `eid` itself) has a shown name
    /// whose lower-case form contains `query`. The query is expected in lower
    /// case already.
    pub fn subtree_matches_search(&self, eid: EntityId, query: &str) -> (b: bool)
        requires
            self.wf(),
        ensures
            b == subtree_matches(self@, eid, query@),
    {
        let mut out: Vec<EntityId> = Vec::new();
        self.collect_descendants(eid, &mut out);
        proof {
            lemma_collected_below(self@, out@, eid);
        }
        let q = chars_of(query);
        let mut k: usize = 1;
        while k < out.len()
            invariant
                self.wf(),
                1 <= k <= out@.len(),
                q@ == query@,
                collected(Seq::empty(), out@, eid, self@),
                forall|j: int| 1 <= j < k ==> !name_matches(self@, #[trigger] out@[j], query@),
            decreases out@.len() - k,
        {
            let name: &str = match self.get_name(out[k]) {
                Some(n) => n,
                None => "Entity",
            };
            assert(name@ == shown_name(self@, out@[k as int]));
            let lower = to_lowercase(name);
            if contains_chars(&chars_of(lower.as_str()), &q) {
                proof {
                    lemma_collected_below(self@, out@, eid);
                    assert(below(self@, eid, out@[k as int]));
                }
                return true;
            }
            k = k + 1;
        }
        proof {
            lemma_collected_below(self@, out@, eid);
            assert forall|x: EntityId| #[trigger] below(self@, eid, x) && x != eid implies !name_matches(self@, x, query@) by {
                let j = choose|j: int| 1 <= j < out@.len() && #[trigger] out@[j] == x;
                assert(!name_matches(self@, out@[j], query@));
            }
        }
        false
    }
}

/// A root entity the hierarchy lists for the (lower-cased) search `query`:
/// with no search, every root; with one, the roots whose shown name or some
/// entity below them matches it.
pub open spec fn listed_root(v: WorldView, x: EntityId, query: Seq<char>) -> bool {
    &&& v.parent_of(x) is None
    &&& (query.len() == 0 || name_matches(v, x, query) || subtree_matches(v, x, query))
}

impl World {
    /// The root entities the hierarchy panel lists for the search text, in
    /// slot order; the search is compared in lower case.
    pub fn hierarchy_roots(&self, search: &str) -> (r: Vec<EntityId>)
        requires
            self.wf(),
        ensures
            r@ == self@.live_ids().filter(|x: EntityId| listed_root(self@, x, unicode_lower(search@))),
    {
        let lowered = to_lowercase(search);
        let query = lowered.as_str();
        let q = chars_of(query);
        let ghost pred = |x: EntityId| listed_root(self@, x, unicode_lower(search@));
        let all = self.iter_entities();
        let mut r: Vec<EntityId> = Vec::new();
        let mut k: usize = 0;
        while k < all.len()
            invariant
                self.wf(),
                k <= all@.len(),
                all@ == self@.live_ids(),
                query@ == unicode_lower(search@),
                q@ == query@,
                pred == (|x: EntityId| listed_root(self@, x, unicode_lower(search@))),
                r@ == all@.subrange(0, k as int).filter(pred),
            decreases all@.len() - k,
        {
            let x = all[k];
            let keep = if self.get_parent(x).is_some() {
                false
            } else if q.len() == 0 {
                true
            } else {
                let name: &str = match self.get_name(x) {
                    Some(n) => n,
                    None => "Entity",
                };
                assert(name@ == shown_name(self@, x));
                let lower = to_lowercase(name);
                contains_chars(&chars_of(lower.as_str()), &q) || self.subtree_matches_search(x, query)
            };
            assert(keep == pred(x));
            proof {
                let s1 = all@.subrange(0, k + 1);
                assert(s1.drop_last() =~= all@.subrange(0, k as int));
                assert(s1.last() == x);
                reveal(Seq::filter);
            }
            if keep {
                r.push(x);
            }
            k = k + 1;
        }
        assert(all@.subrange(0, all@.len() as int) =~= all@);
        r
    }
}

/// Along a path of live entities whose parent links agree with the child
/// lists, climbing `j` steps from the last entity reaches the `j`-th one
/// before it.
proof fn lemma_path_climb(v: WorldView, p: Seq<EntityId>, j: nat)
    requires
        child_path(v, p),
        forall|i: int| 0 <= i < p.len() - 1 ==> #[trigger] v.parent_of(p[i + 1]) == Some(p[i]),
        j < p.len(),
    ensures
        v.ancestor_at(p.last(), j) == Some(p[p.len() - 1 - j]),
    decreases j,
{
    if j > 0 {
        lemma_path_climb(v, p, (j - 1) as nat);
        let i = p.len() - 1 - j;
        assert(v.parent_of(p[i + 1]) == Some(p[i]));
    }
}

/// With parent links and child lists in agreement, no entity lies below
/// itself: following child lists never leads back to where it started.
pub proof fn law_no_child_cycle(w: &World, a: EntityId)
    requires
        w.wf(),
        links_consistent(w@),
    ensures
        !below(w@, a, a),
{
    let v = w@;
    law_hierarchy_acyclic(w);
    if below(v, a, a) {
        let p = choose|p: Seq<EntityId>| #[trigger] child_path(v, p) && p[0] == a && p.last() == a;
        assert forall|i: int| 0 <= i < p.len() - 1 implies #[trigger] v.is_alive(p[i]) by {
            assert(v.children_of(p[i]).contains(p[i + 1]));
        }
        assert(v.is_alive(p[0]));
        assert forall|i: int| 0 <= i < p.len() - 1 implies #[trigger] v.parent_of(p[i + 1]) == Some(p[i]) by {
            assert(v.children_of(p[i]).contains(p[i + 1]));
            if i + 1 < p.len() - 1 {
                assert(v.is_alive(p[i + 1]));
            } else {
                assert(p[i + 1] == p[0]);
            }
        }
        lemma_path_climb(v, p, (p.len() - 1) as nat);
        assert(v.ancestor_at(a, (p.len() - 1) as nat) == Some(a));
    }
}

} // verus!
