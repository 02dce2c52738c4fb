use vstd::prelude::*;

use crate::components::MeshRenderer;
use crate::entity::EntityId;
use crate::hierarchy::links_consistent;
use crate::world_model::{count_true, dead_indices, remove_id, SnapshotView, WorldView};

verus! {

/// Structural well-formedness of a world model: the per-slot tables agree in
/// length, the free list names distinct dead slots, and every stored parent
/// handle points into the world with a generation its slot has reached.
/// No entry of `g` lies past the matching entry of `h`.
pub open spec fn not_past(g: Seq<u32>, h: Seq<u32>) -> bool {
    forall|i: int| 0 <= i < g.len() ==> #[trigger] g[i] <= h[i]
}

pub open spec fn well_formed(v: WorldView) -> bool {
    &&& v.generations.len() == v.alive.len()
    &&& v.issued.len() == v.generations.len()
    &&& not_past(v.generations, v.issued)
    &&& v.generations.len() <= u32::MAX
    &&& v.names.len() == v.alive.len()
    &&& v.mesh_renderers.len() == v.alive.len()
    &&& v.parents.len() == v.alive.len()
    &&& v.children.len() == v.alive.len()
    &&& forall|k: int|
        0 <= k < v.free_list.len() ==> (#[trigger] v.free_list[k] as int) < v.alive.len()
            && !v.alive[v.free_list[k] as int]
    &&& forall|a: int, b: int|
        0 <= a < v.free_list.len() && 0 <= b < v.free_list.len() && a != b ==> #[trigger] v.free_list[a]
            != #[trigger] v.free_list[b]
    &&& forall|i: int|
        0 <= i < v.alive.len() && (#[trigger] v.parents[i]) is Some ==> {
            let p = v.parents[i]->0;
            &&& (p.index as int) < v.alive.len()
            &&& p.generation <= v.generations[p.index as int]
        }
}

/// `rank` strictly decreases along every link from a live slot to a live parent.
pub open spec fn ranked(v: WorldView, rank: Seq<nat>) -> bool {
    &&& rank.len() == v.alive.len()
    &&& forall|i: int|
        0 <= i < v.alive.len() && v.alive[i] && (#[trigger] v.parents[i]) is Some && v.is_alive(
            v.parents[i]->0,
        ) ==> rank[v.parents[i]->0.index as int] < rank[i]
}

impl SnapshotView {
    pub open spec fn as_world(self) -> WorldView {
        WorldView {
            generations: self.generations,
            issued: self.generations,
            alive: self.alive,
            free_list: Seq::empty(),
            names: self.names,
            mesh_renderers: self.mesh_renderers,
            parents: self.parents,
            children: self.children,
        }
    }
}

/// A copy of every per-slot table of a world, taken for play mode and undo.
pub struct WorldSnapshot {
    alive: Vec<bool>,
    names: Vec<String>,
    mesh_renderers: Vec<Option<MeshRenderer>>,
    parents: Vec<Option<EntityId>>,
    children: Vec<Option<Vec<EntityId>>>,
    generations: Vec<u32>,
    rank: Ghost<Seq<nat>>,
}

pub open spec fn children_view(c: Seq<Option<Vec<EntityId>>>) -> Seq<Option<Seq<EntityId>>> {
    c.map_values(|o: Option<Vec<EntityId>>| match o {
        Some(v) => Some(v@),
        None => None,
    })
}

pub open spec fn names_view(n: Seq<String>) -> Seq<Seq<char>> {
    n.map_values(|s: String| s@)
}

impl View for WorldSnapshot {
    type V = SnapshotView;

    closed spec fn view(&self) -> SnapshotView {
        SnapshotView {
            generations: self.generations@,
            alive: self.alive@,
            names: names_view(self.names@),
            mesh_renderers: self.mesh_renderers@,
            parents: self.parents@,
            children: children_view(self.children@),
        }
    }
}

impl WorldSnapshot {
    /// Internal consistency of a snapshot as taken from a well-formed world.
    pub closed spec fn wf(&self) -> bool {
        &&& well_formed(self@.as_world())
        &&& ranked(self@.as_world(), self.rank@)
    }

    /// Number of slots recorded.
    pub fn len(&self) -> (n: usize)
        ensures
            n == self@.alive.len(),
    {
        self.alive.len()
    }
}

/// Generational entity storage with names, mesh renderers and a parent/child
/// hierarchy.
pub struct World {
    generations: Vec<u32>,
    issued: Vec<u32>,
    alive: Vec<bool>,
    free_list: Vec<u32>,
    names: Vec<String>,
    mesh_renderers: Vec<Option<MeshRenderer>>,
    parents: Vec<Option<EntityId>>,
    children: Vec<Option<Vec<EntityId>>>,
    rank: Ghost<Seq<nat>>,
}

impl View for World {
    type V = WorldView;

    closed spec fn view(&self) -> WorldView {
        WorldView {
            generations: self.generations@,
            issued: self.issued@,
            alive: self.alive@,
            free_list: self.free_list@,
            names: names_view(self.names@),
            mesh_renderers: self.mesh_renderers@,
            parents: self.parents@,
            children: children_view(self.children@),
        }
    }
}

/// `v` without any occurrence of `c`.
fn without(v: &Vec<EntityId>, c: EntityId) -> (r: Vec<EntityId>)
    ensures
        r@ == remove_id(v@, c),
{
    let mut r: Vec<EntityId> = Vec::new();
    let mut i: usize = 0;
    while i < v.len()
        invariant
            i <= v.len(),
            r@ == remove_id(v@.subrange(0, i as int), c),
        decreases v.len() - i,
    {
        assert(v@.subrange(0, i + 1).drop_last() =~= v@.subrange(0, i as int));
        if v[i] != c {
            r.push(v[i]);
        }
        i = i + 1;
    }
    assert(v@.subrange(0, v.len() as int) =~= v@);
    r
}

/// Takes the value out of slot `i`, leaving `None`.
fn take_slot<T>(v: &mut Vec<Option<T>>, i: usize) -> (r: Option<T>)
    requires
        i < old(v).len(),
    ensures
        r == old(v)@[i as int],
        final(v)@ == old(v)@.update(i as int, None),
{
    v.push(None);
    let r = v.swap_remove(i);
    r
}

proof fn lemma_dead_indices(s: Seq<bool>)
    requires
        s.len() <= u32::MAX + 1,
    ensures
        forall|k: int|
            0 <= k < dead_indices(s).len() ==> (#[trigger] dead_indices(s)[k] as int) < s.len()
                && !s[dead_indices(s)[k] as int],
        forall|a: int, b: int|
            0 <= a < b < dead_indices(s).len() ==> #[trigger] dead_indices(s)[a]
                < #[trigger] dead_indices(s)[b],
        forall|i: int| 0 <= i < s.len() && !s[i] ==> dead_indices(s).contains(i as u32),
    decreases s.len(),
{
    if s.len() > 0 {
        let t = s.drop_last();
        lemma_dead_indices(t);
        let r = dead_indices(t);
        let d = dead_indices(s);
        assert forall|k: int| 0 <= k < d.len() implies (#[trigger] d[k] as int) < s.len() && !s[d[k] as int] by {
            if k < r.len() {
                assert(d[k] == r[k]);
                assert(t[r[k] as int] == s[r[k] as int]);
            }
        }
        assert forall|a: int, b: int| 0 <= a < b < d.len() implies #[trigger] d[a] < #[trigger] d[b] by {
            if b < r.len() {
                assert(d[a] == r[a] && d[b] == r[b]);
            } else {
                assert(d[a] == r[a]);
            }
        }
        assert forall|i: int| 0 <= i < s.len() && !s[i] implies d.contains(i as u32) by {
            if i < s.len() - 1 {
                assert(t[i] == s[i]);
                let k = choose|k: int| 0 <= k < r.len() && r[k] == i as u32;
                assert(d[k] == i as u32);
            } else {
                assert(d == r.push((s.len() - 1) as u32));
                assert(d[r.len() as int] == i as u32);
            }
        }
    }
}

/// The live handles among the first `n` slots are as many as the live slots there.
proof fn lemma_live_ids_count(v: WorldView, n: nat)
    requires
        n <= v.alive.len(),
    ensures
        v.live_ids_upto(n).len() == count_true(v.alive.subrange(0, n as int)),
    decreases n,
{
    if n > 0 {
        lemma_live_ids_count(v, (n - 1) as nat);
        assert(v.alive.subrange(0, n as int).drop_last() =~= v.alive.subrange(0, n - 1));
    }
}

proof fn lemma_count_true_bound(s: Seq<bool>)
    ensures
        count_true(s) <= s.len(),
    decreases s.len(),
{
    if s.len() > 0 {
        lemma_count_true_bound(s.drop_last());
    }
}

/// The parent chain of a live entity only climbs to live entities of smaller rank.
proof fn lemma_ancestor_rank(v: WorldView, rank: Seq<nat>, id: EntityId, k: nat)
    requires
        well_formed(v),
        ranked(v, rank),
        v.is_alive(id),
        k >= 1,
        v.ancestor_at(id, k) is Some,
        v.is_alive(v.ancestor_at(id, k)->0),
    ensures
        rank[v.ancestor_at(id, k)->0.index as int] < rank[id.index as int],
    decreases k,
{
    let prev = v.ancestor_at(id, (k - 1) as nat);
    let q = v.ancestor_at(id, k)->0;
    assert(prev is Some);
    let r = prev->0;
    assert(v.is_alive(r));
    assert(v.parents[r.index as int] == Some(q));
    if k > 1 {
        lemma_ancestor_rank(v, rank, id, (k - 1) as nat);
    }
}

/// A chain that has ended stays ended.
proof fn lemma_ancestor_none(v: WorldView, id: EntityId, k: nat, j: nat)
    requires
        v.ancestor_at(id, k) is None,
        j >= k,
    ensures
        v.ancestor_at(id, j) is None,
    decreases j,
{
    if j > k {
        lemma_ancestor_none(v, id, k, (j - 1) as nat);
    }
}

/// One step up the chain: the chain above `x` continues with the chain above its parent.
pub(crate) proof fn lemma_ancestor_shift(v: WorldView, x: EntityId, k: nat)
    requires
        k >= 1,
        v.parent_of(x) is Some,
    ensures
        v.ancestor_at(x, k) == v.ancestor_at(v.parent_of(x)->0, (k - 1) as nat),
    decreases k,
{
    assert(v.ancestor_at(x, 0) == Some(x));
    if k > 1 {
        lemma_ancestor_shift(v, x, (k - 1) as nat);
        assert(v.ancestor_at(x, k) == v.ancestor_at(v.parent_of(x)->0, (k - 1) as nat));
    } else {
        assert(v.ancestor_at(v.parent_of(x)->0, 0) == v.parent_of(x));
    }
}

/// The chain above a live entity whose parent link is missing or dead is empty.
pub(crate) proof fn lemma_ancestor_root(v: WorldView, x: EntityId, k: nat)
    requires
        k >= 1,
        v.parent_of(x) is None,
    ensures
        v.ancestor_at(x, k) is None,
    decreases k,
{
    assert(v.ancestor_at(x, 0) == Some(x));
    if k > 1 {
        lemma_ancestor_root(v, x, (k - 1) as nat);
    }
}

/// Every well-formed, ranked world is acyclic.
proof fn lemma_ranked_acyclic(v: WorldView, rank: Seq<nat>)
    requires
        well_formed(v),
        ranked(v, rank),
    ensures
        v.acyclic(),
{
    assert forall|id: EntityId, k: nat| v.is_alive(id) && k >= 1 implies #[trigger] v.ancestor_at(
        id,
        k,
    ) != Some(id) by {
        if v.ancestor_at(id, k) == Some(id) {
            lemma_ancestor_rank(v, rank, id, k);
        }
    }
}

/// Spawning keeps a world structurally well-formed.
pub proof fn lemma_spawn_well_formed(v: WorldView)
    requires
        well_formed(v),
        v.can_spawn(),
    ensures
        well_formed(v.spawn().0),
{
    let (w, id) = v.spawn();
    if v.free_list.len() > 0 {
        assert forall|a: int, b: int|
            0 <= a < w.free_list.len() && 0 <= b < w.free_list.len() && a != b implies #[trigger] w.free_list[a]
            != #[trigger] w.free_list[b] by {
            assert(w.free_list[a] == v.free_list[a]);
            assert(w.free_list[b] == v.free_list[b]);
        }
        assert forall|k: int| 0 <= k < w.free_list.len() implies (#[trigger] w.free_list[k] as int)
            < w.alive.len() && !w.alive[w.free_list[k] as int] by {
            assert(w.free_list[k] == v.free_list[k]);
            assert(v.free_list[k] != v.free_list[v.free_list.len() - 1]);
        }
    } else {
        assert forall|k: int| 0 <= k < w.free_list.len() implies (#[trigger] w.free_list[k] as int)
            < w.alive.len() && !w.alive[w.free_list[k] as int] by {
            assert(w.free_list[k] == v.free_list[k]);
        }
    }
}

proof fn lemma_spawn_wf(v: WorldView, rank: Seq<nat>)
    requires
        well_formed(v),
        ranked(v, rank),
        v.can_spawn(),
    ensures
        well_formed(v.spawn().0),
        ranked(
            v.spawn().0,
            if v.free_list.len() > 0 {
                rank
            } else {
                rank.push(0)
            },
        ),
{
    lemma_spawn_well_formed(v);
    let (w, id) = v.spawn();
    if v.free_list.len() > 0 {
        let i = v.free_list.last() as int;
        assert forall|j: int|
            0 <= j < w.alive.len() && w.alive[j] && (#[trigger] w.parents[j]) is Some && w.is_alive(
                w.parents[j]->0,
            ) implies rank[w.parents[j]->0.index as int] < rank[j] by {
            assert(j != i);
            let p = w.parents[j]->0;
            assert(v.parents[j] == Some(p));
            if p.index as int == i {
                assert(p.generation <= v.generations[i]);
            }
            assert(v.is_alive(p));
        }
    } else {
        assert forall|j: int|
            0 <= j < w.alive.len() && w.alive[j] && (#[trigger] w.parents[j]) is Some && w.is_alive(
                w.parents[j]->0,
            ) implies rank.push(0)[w.parents[j]->0.index as int] < rank.push(0)[j] by {
            assert(j < v.alive.len());
            let p = w.parents[j]->0;
            assert(v.parents[j] == Some(p));
            assert(v.is_alive(p));
        }
    }
}

proof fn lemma_destroy_wf(v: WorldView, rank: Seq<nat>, id: EntityId)
    requires
        well_formed(v),
        ranked(v, rank),
    ensures
        well_formed(v.destroy(id)),
        ranked(v.destroy(id), rank),
{
    if v.is_alive(id) {
        let w = v.destroy(id);
        let i = id.index as int;
        assert forall|k: int| 0 <= k < w.free_list.len() implies (#[trigger] w.free_list[k] as int)
            < w.alive.len() && !w.alive[w.free_list[k] as int] by {
            if k < v.free_list.len() {
                assert(w.free_list[k] == v.free_list[k]);
            }
        }
        assert forall|a: int, b: int|
            0 <= a < w.free_list.len() && 0 <= b < w.free_list.len() && a != b implies #[trigger] w.free_list[a]
            != #[trigger] w.free_list[b] by {
            if a < v.free_list.len() {
                assert(w.free_list[a] == v.free_list[a]);
            }
            if b < v.free_list.len() {
                assert(w.free_list[b] == v.free_list[b]);
            }
        }
        assert forall|j: int| 0 <= j < w.alive.len() && (#[trigger] w.parents[j]) is Some implies {
            let p = w.parents[j]->0;
            &&& (p.index as int) < w.alive.len()
            &&& p.generation <= w.generations[p.index as int]
        } by {
            assert(w.parents[j] == v.parents[j]);
        }
        assert forall|j: int|
            0 <= j < w.alive.len() && w.alive[j] && (#[trigger] w.parents[j]) is Some && w.is_alive(
                w.parents[j]->0,
            ) implies rank[w.parents[j]->0.index as int] < rank[j] by {
            assert(w.parents[j] == v.parents[j]);
            assert(v.is_alive(w.parents[j]->0));
        }
    }
}

/// `x` lies in the subtree rooted at `c` (the chain above `x` reaches `c`, or `x == c`).
pub open spec fn in_subtree(v: WorldView, x: EntityId, c: EntityId) -> bool {
    exists|k: nat| #[trigger] v.ancestor_at(x, k) == Some(c)
}

/// The ranking after attaching `c` under `p`: the whole subtree of `c` is lifted above `p`.
pub open spec fn lifted_rank(v: WorldView, rank: Seq<nat>, c: EntityId, p: EntityId) -> Seq<nat> {
    Seq::new(
        rank.len(),
        |i: int|
            if v.alive[i] && in_subtree(v, v.id_at(i), c) {
                rank[i] + rank[p.index as int] + 1
            } else {
                rank[i]
            },
    )
}

proof fn lemma_set_parent_wf(v: WorldView, rank: Seq<nat>, c: EntityId, p: EntityId)
    requires
        well_formed(v),
        ranked(v, rank),
    ensures
        well_formed(v.set_parent(c, p)),
        ranked(
            v.set_parent(c, p),
            if v.set_parent_applies(c, p) {
                lifted_rank(v, rank, c, p)
            } else {
                rank
            },
        ),
{
    if v.set_parent_applies(c, p) {
        let w = v.set_parent(c, p);
        let r2 = lifted_rank(v, rank, c, p);
        let ci = c.index as int;
        let pi = p.index as int;
        assert(v.id_at(ci) == c);
        assert(v.id_at(pi) == p);
        assert(v.ancestor_at(c, 0) == Some(c));
        assert(in_subtree(v, c, c));
        assert(!in_subtree(v, p, c)) by {
            if in_subtree(v, p, c) {
                let k = choose|k: nat| #[trigger] v.ancestor_at(p, k) == Some(c);
                if k == 0 {
                    assert(v.ancestor_at(p, 0) == Some(p));
                } else {
                    assert(v.is_ancestor(c, p));
                }
            }
        }
        assert forall|j: int| 0 <= j < w.alive.len() && (#[trigger] w.parents[j]) is Some implies {
            let q = w.parents[j]->0;
            &&& (q.index as int) < w.alive.len()
            &&& q.generation <= w.generations[q.index as int]
        } by {
            if j != ci {
                assert(w.parents[j] == v.parents[j]);
            }
        }
        assert forall|j: int|
            0 <= j < w.alive.len() && w.alive[j] && (#[trigger] w.parents[j]) is Some && w.is_alive(
                w.parents[j]->0,
            ) implies r2[w.parents[j]->0.index as int] < r2[j] by {
            let q = w.parents[j]->0;
            if j == ci {
                assert(q == p);
            } else {
                assert(w.parents[j] == v.parents[j]);
                let x = v.id_at(j);
                assert(v.is_alive(x));
                assert(v.parent_of(x) == Some(q));
                assert(v.id_at(q.index as int) == q);
                assert(x != c);
                if in_subtree(v, x, c) {
                    let k = choose|k: nat| #[trigger] v.ancestor_at(x, k) == Some(c);
                    assert(k != 0) by {
                        if k == 0 {
                            assert(v.ancestor_at(x, 0) == Some(x));
                        }
                    }
                    lemma_ancestor_shift(v, x, k);
                    assert(v.ancestor_at(q, (k - 1) as nat) == Some(c));
                    assert(in_subtree(v, q, c));
                }
                if in_subtree(v, q, c) {
                    let k = choose|k: nat| #[trigger] v.ancestor_at(q, k) == Some(c);
                    lemma_ancestor_shift(v, x, k + 1);
                    assert(v.ancestor_at(x, k + 1) == Some(c));
                    assert(in_subtree(v, x, c));
                }
            }
        }
    }
}

/// The ranking of a restored world: the snapshot's, with the slots added
/// since ranked 0 (they are dead).
pub open spec fn restored_rank(rank: Seq<nat>, n: nat) -> Seq<nat> {
    rank + Seq::new((n - rank.len()) as nat, |i: int| 0nat)
}

proof fn lemma_restore_wf(v: WorldView, s: SnapshotView, rank: Seq<nat>)
    requires
        well_formed(v),
        well_formed(s.as_world()),
        v.can_restore(s),
    ensures
        well_formed(v.restore(s)),
        ranked(s.as_world(), rank) ==> ranked(v.restore(s), restored_rank(rank, v.generations.len())),
{
    let w = v.restore(s);
    let a = s.as_world();
    let n = v.generations.len();
    let m = s.alive.len();
    let r2 = restored_rank(rank, n);
    assert(w.alive.len() == n);
    assert(w.generations.len() == n);
    assert forall|i: int| 0 <= i < w.generations.len() implies #[trigger] w.generations[i] <= w.issued[i] by {
        if i < m {
            assert(w.generations[i] == s.generations[i]);
        } else {
            assert(w.generations[i] == v.generations[i]);
        }
    }
    lemma_dead_indices(w.alive);
    assert forall|k: int| 0 <= k < w.free_list.len() implies (#[trigger] w.free_list[k] as int)
        < w.alive.len() && !w.alive[w.free_list[k] as int] by {}
    assert forall|x: int, y: int|
        0 <= x < w.free_list.len() && 0 <= y < w.free_list.len() && x != y implies #[trigger] w.free_list[x]
        != #[trigger] w.free_list[y] by {
        if x < y {
            assert(w.free_list[x] < w.free_list[y]);
        } else {
            assert(w.free_list[y] < w.free_list[x]);
        }
    }
    assert forall|j: int| 0 <= j < w.alive.len() && (#[trigger] w.parents[j]) is Some implies {
        let q = w.parents[j]->0;
        &&& (q.index as int) < w.alive.len()
        &&& q.generation <= w.generations[q.index as int]
    } by {
        assert(j < m);
        assert(a.parents[j] == w.parents[j]);
        let q = w.parents[j]->0;
        assert(w.generations[q.index as int] == s.generations[q.index as int]);
    }
    if ranked(a, rank) {
    assert forall|j: int|
        0 <= j < w.alive.len() && w.alive[j] && (#[trigger] w.parents[j]) is Some && w.is_alive(
            w.parents[j]->0,
        ) implies r2[w.parents[j]->0.index as int] < r2[j] by {
        assert(j < m);
        let q = w.parents[j]->0;
        assert(a.parents[j] == w.parents[j]);
        assert(w.generations[q.index as int] == s.generations[q.index as int]);
        assert(w.alive[q.index as int] == s.alive[q.index as int]);
        assert(a.is_alive(q));
        assert(r2[j] == rank[j]);
        assert(r2[q.index as int] == rank[q.index as int]);
    }
    }
}

impl World {
    /// Well-formedness: the structural invariant together with a ghost ranking
    /// of the slots that decreases along every live parent link.
    pub closed spec fn wf(&self) -> bool {
        &&& well_formed(self@)
        &&& ranked(self@, self.rank@)
    }

    pub fn new() -> (w: Self)
        ensures
            w.wf(),
            w@.len() == 0,
            w@.generations.len() == 0,
            w@.free_list.len() == 0,
            links_consistent(w@),
    {
        let w = World {
            generations: Vec::new(),
            issued: Vec::new(),
            alive: Vec::new(),
            free_list: Vec::new(),
            names: Vec::new(),
            mesh_renderers: Vec::new(),
            parents: Vec::new(),
            children: Vec::new(),
            rank: Ghost(Seq::empty()),
        };
        assert(w@.names =~= Seq::<Seq<char>>::empty());
        assert(w@.children =~= Seq::<Option<Seq<EntityId>>>::empty());
        w
    }

    /// Whether the next `spawn_entity` can hand out a handle without a counter overflowing.
    pub fn can_spawn(&self) -> (b: bool)
        requires
            self.wf(),
        ensures
            b == self@.can_spawn(),
    {
        let n = self.free_list.len();
        if n > 0 {
            let idx = self.free_list[n - 1] as usize;
            idx < self.issued.len() && self.issued[idx] < u32::MAX
        } else {
            self.generations.len() < u32::MAX as usize
        }
    }

    pub fn is_alive(&self, id: EntityId) -> (b: bool)
        requires
            self.wf(),
        ensures
            b == self@.is_alive(id),
    {
        let idx = id.index as usize;
        idx < self.alive.len() && self.generations[idx] == id.generation && self.alive[idx]
    }

    /// Creates an entity, reusing the most recently freed slot when there is one.
    pub fn spawn_entity(&mut self) -> (id: EntityId)
        requires
            old(self).wf(),
            old(self)@.can_spawn(),
        ensures
            final(self).wf(),
            (final(self)@, id) == old(self)@.spawn(),
    {
        proof {
            lemma_spawn_wf(self@, self.rank@);
        }
        let ghost old_v = self@;
        let n = self.free_list.len();
        if n > 0 {
            let index = self.free_list.pop().unwrap();
            let idx = index as usize;
            let g = self.issued[idx] + 1;
            self.generations.set(idx, g);
            self.issued.set(idx, g);
            self.alive.set(idx, true);
            self.names.set(idx, String::new());
            self.mesh_renderers.set(idx, None);
            self.parents.set(idx, None);
            self.children.set(idx, None);
            let id = EntityId::new(index, g);
            assert(self@.names =~= old_v.spawn().0.names);
            assert(self@.children =~= old_v.spawn().0.children);
            assert(self@.free_list =~= old_v.spawn().0.free_list);
            id
        } else {
            let index = self.generations.len() as u32;
            self.generations.push(0);
            self.issued.push(0);
            self.alive.push(true);
            self.names.push(String::new());
            self.mesh_renderers.push(None);
            self.parents.push(None);
            self.children.push(None);
            proof {
                self.rank@ = self.rank@.push(0);
            }
            assert(self@.names =~= old_v.spawn().0.names);
            assert(self@.children =~= old_v.spawn().0.children);
            EntityId::new(index, 0)
        }
    }
}



broadcast proof fn lemma_names_view_update(n: Seq<String>, i: int, x: String)
    requires
        0 <= i < n.len(),
    ensures
        #[trigger] names_view(n.update(i, x)) == names_view(n).update(i, x@),
{
    assert(names_view(n.update(i, x)) =~= names_view(n).update(i, x@));
}

proof fn lemma_children_view_update(c: Seq<Option<Vec<EntityId>>>, i: int, x: Option<Vec<EntityId>>)
    requires
        0 <= i < c.len(),
    ensures
        children_view(c.update(i, x)) == children_view(c).update(
            i,
            match x {
                Some(v) => Some(v@),
                None => None,
            },
        ),
{
    assert(children_view(c.update(i, x)) =~= children_view(c).update(
        i,
        match x {
            Some(v) => Some(v@),
            None => None,
        },
    ));
}

/// Replacing the mesh table (same length) keeps a world well-formed and ranked.
proof fn lemma_mesh_only(v: WorldView, rank: Seq<nat>, m: Seq<Option<MeshRenderer>>)
    requires
        well_formed(v),
        ranked(v, rank),
        m.len() == v.alive.len(),
    ensures
        well_formed(WorldView { mesh_renderers: m, ..v }),
        ranked(WorldView { mesh_renderers: m, ..v }, rank),
{
    let w = WorldView { mesh_renderers: m, ..v };
    assert forall|j: int|
        0 <= j < w.alive.len() && w.alive[j] && (#[trigger] w.parents[j]) is Some && w.is_alive(
            w.parents[j]->0,
        ) implies rank[w.parents[j]->0.index as int] < rank[j] by {
        assert(v.parents[j] == w.parents[j]);
    }
}

/// Replacing the name table (same length) keeps a world well-formed and ranked.
proof fn lemma_names_only(v: WorldView, rank: Seq<nat>, n: Seq<Seq<char>>)
    requires
        well_formed(v),
        ranked(v, rank),
        n.len() == v.alive.len(),
    ensures
        well_formed(WorldView { names: n, ..v }),
        ranked(WorldView { names: n, ..v }, rank),
{
    let w = WorldView { names: n, ..v };
    assert forall|j: int|
        0 <= j < w.alive.len() && w.alive[j] && (#[trigger] w.parents[j]) is Some && w.is_alive(
            w.parents[j]->0,
        ) implies rank[w.parents[j]->0.index as int] < rank[j] by {
        assert(v.parents[j] == w.parents[j]);
    }
}

/// A copy of a vector of plain values.
fn copy_vec<T: Copy>(v: &Vec<T>) -> (r: Vec<T>)
    ensures
        r@ == v@,
{
    let mut r: Vec<T> = Vec::new();
    let mut i: usize = 0;
    while i < v.len()
        invariant
            i <= v.len(),
            r@ == v@.subrange(0, i as int),
        decreases v.len() - i,
    {
        r.push(v[i]);
        i = i + 1;
        assert(r@ =~= v@.subrange(0, i as int));
    }
    assert(v@.subrange(0, v.len() as int) =~= v@);
    r
}

fn copy_names(v: &Vec<String>) -> (r: Vec<String>)
    ensures
        names_view(r@) == names_view(v@),
{
    let mut r: Vec<String> = Vec::new();
    let mut i: usize = 0;
    while i < v.len()
        invariant
            i <= v.len(),
            r@ =~= v@.subrange(0, i as int),
        decreases v.len() - i,
    {
        r.push(v[i].clone());
        i = i + 1;
        assert(r@ =~= v@.subrange(0, i as int));
    }
    assert(v@.subrange(0, v.len() as int) =~= v@);
    assert(r@ == v@);
    r
}

fn copy_children(v: &Vec<Option<Vec<EntityId>>>) -> (r: Vec<Option<Vec<EntityId>>>)
    ensures
        children_view(r@) == children_view(v@),
{
    let mut r: Vec<Option<Vec<EntityId>>> = Vec::new();
    let mut i: usize = 0;
    while i < v.len()
        invariant
            i <= v.len(),
            r.len() == i,
            children_view(r@) =~= children_view(v@.subrange(0, i as int)),
        decreases v.len() - i,
    {
        let item = match &v[i] {
            Some(ch) => Some(copy_vec(ch)),
            None => None,
        };
        let ghost before = r@;
        assert(match item {
            Some(x) => Some(x@),
            None => None,
        } == match v@[i as int] {
            Some(x) => Some(x@),
            None => None,
        });
        let ghost gitem = item;
        assert(before.len() == i);
        r.push(item);
        assert(r@ == before.push(gitem));
        i = i + 1;
        assert forall|k: int| 0 <= k < i implies #[trigger] children_view(r@)[k] == children_view(
            v@.subrange(0, i as int),
        )[k] by {
            assert(v@.subrange(0, i as int)[k] == v@[k]);
            if k < i - 1 {
                assert(children_view(before)[k] == children_view(v@.subrange(0, i - 1))[k]);
                assert(v@.subrange(0, i - 1)[k] == v@[k]);
                assert(r@[k] == before[k]);
            } else {
                assert(r@[k] == gitem);
            }
        }
        assert(children_view(r@) =~= children_view(v@.subrange(0, i as int)));
    }
    assert(v@.subrange(0, v.len() as int) =~= v@);
    r
}

impl World {
    /// Liveness test usable while the other tables are being rewritten.
    fn live(&self, id: EntityId) -> (b: bool)
        requires
            self.generations.len() >= self.alive.len(),
        ensures
            b == self@.is_alive(id),
    {
        let idx = id.index as usize;
        idx < self.alive.len() && self.generations[idx] == id.generation && self.alive[idx]
    }

    /// Removes `c` from the child list of `p` when `p` is live.
    fn unlink_child(&mut self, p: Option<EntityId>, c: EntityId)
        requires
            old(self).generations.len() >= old(self).alive.len(),
            old(self).children.len() == old(self).alive.len(),
            p matches Some(pid) ==> (pid.index as int) < old(self).alive.len(),
        ensures
            final(self)@ == (WorldView {
                children: old(self)@.unlink_child(old(self)@.children, p, c),
                ..old(self)@
            }),
            final(self).rank == old(self).rank,
            final(self).children.len() == old(self).children.len(),
    {
        if let Some(pid) = p {
            if self.live(pid) {
                let pidx = pid.index as usize;
                let updated = match &self.children[pidx] {
                    Some(ch) => Some(without(ch, c)),
                    None => None,
                };
                if updated.is_some() {
                    self.children.set(pidx, updated);
                }
            }
        }
        assert(self@.children =~= old(self)@.unlink_child(old(self)@.children, p, c));
    }

    /// Destroys a live entity; does nothing for a stale or unknown handle.
    pub fn destroy_entity(&mut self, id: EntityId)
        requires
            old(self).wf(),
        ensures
            final(self).wf(),
            final(self)@ == old(self)@.destroy(id),
    {
        proof {
            lemma_destroy_wf(self@, self.rank@, id);
        }
        if !self.is_alive(id) {
            return ;
        }
        let ghost v = self@;
        let idx = id.index as usize;
        self.alive.set(idx, false);
        let empty = String::new();
        let ghost ge = empty;
        self.names.set(idx, empty);
        self.mesh_renderers.set(idx, None);
        proof {
            lemma_names_view_update(old(self).names@, idx as int, ge);
        }
        let ghost v1 = self@;
        assert(v1 == (WorldView {
            alive: v.alive.update(idx as int, false),
            names: v.names.update(idx as int, Seq::empty()),
            mesh_renderers: v.mesh_renderers.update(idx as int, None),
            ..v
        }));
        let old_parent = take_slot(&mut self.parents, idx);
        assert(self@.alive == v1.alive && self@.generations == v1.generations);
        assert(self@.children == v.children);
        self.unlink_child(old_parent, id);
        assert(self@.children == v1.unlink_child(v.children, v.parents[idx as int], id));
        let ghost parents2 = self.parents@;
        let ghost children_mid = self.children@;
        let kids = take_slot(&mut self.children, idx);
        proof {
            lemma_children_view_update(children_mid, idx as int, None);
        }
        let ghost kid_seq = match &kids {
            Some(k) => k@,
            None => Seq::<EntityId>::empty(),
        };
        assert(kid_seq == match v1.unlink_child(v.children, v.parents[idx as int], id)[idx as int] {
            Some(k) => k,
            None => Seq::empty(),
        });
        let ghost pre = *self;
        if let Some(child_ids) = kids {
            let mut j: usize = 0;
            while j < child_ids.len()
                invariant
                    j <= child_ids.len(),
                    child_ids@ == kid_seq,
                    self.generations@ == v1.generations,
                    self.alive@ == v1.alive,
                    self.generations.len() >= self.alive.len(),
                    self.parents.len() == parents2.len(),
                    parents2.len() == self.alive.len(),
                    self.children == pre.children,
                    self.names == pre.names,
                    self.mesh_renderers == pre.mesh_renderers,
                    self.free_list == pre.free_list,
                    self.issued == pre.issued,
                    self.rank == pre.rank,
                    forall|jj: int|
                        0 <= jj < parents2.len() ==> #[trigger] self.parents@[jj] == if exists|
                            k: int,
                        |
                            0 <= k < j && v1.is_alive(#[trigger] kid_seq[k]) && kid_seq[k].index
                                == jj {
                            None
                        } else {
                            parents2[jj]
                        },
                decreases child_ids.len() - j,
            {
                let child_id = child_ids[j];
                if self.live(child_id) {
                    self.parents.set(child_id.index as usize, None);
                }
                j = j + 1;
                assert forall|jj: int| 0 <= jj < parents2.len() implies #[trigger] self.parents@[jj]
                    == if exists|k: int|
                    0 <= k < j && v1.is_alive(#[trigger] kid_seq[k]) && kid_seq[k].index == jj {
                    None
                } else {
                    parents2[jj]
                } by {
                    if v1.is_alive(kid_seq[j - 1]) && kid_seq[j - 1].index == jj {
                        assert(0 <= j - 1 < j && v1.is_alive(kid_seq[j - 1]) && kid_seq[j - 1].index
                            == jj);
                    }
                }
            }
        }
        self.free_list.push(id.index);
        assert(self@.parents =~= v1.detach_kids(parents2, kid_seq));
        assert(self@.children =~= v.destroy(id).children);
    }

    pub fn entity_count(&self) -> (n: usize)
        requires
            self.wf(),
        ensures
            n == self@.entity_count(),
    {
        let mut n: usize = 0;
        let mut i: usize = 0;
        while i < self.alive.len()
            invariant
                i <= self.alive.len(),
                n == count_true(self.alive@.subrange(0, i as int)),
            decreases self.alive.len() - i,
        {
            assert(self.alive@.subrange(0, i + 1).drop_last() =~= self.alive@.subrange(0, i as int));
            proof {
                lemma_count_true_bound(self.alive@.subrange(0, i as int));
            }
            if self.alive[i] {
                n = n + 1;
            }
            i = i + 1;
        }
        assert(self.alive@.subrange(0, self.alive.len() as int) =~= self.alive@);
        n
    }

    /// Renames a live entity; does nothing for a stale handle.
    pub fn set_name(&mut self, id: EntityId, name: &str)
        requires
            old(self).wf(),
        ensures
            final(self).wf(),
            final(self)@ == old(self)@.set_name(id, name@),
    {
        proof {
            lemma_names_only(self@, self.rank@, old(self)@.set_name(id, name@).names);
        }
        if self.is_alive(id) {
            let ghost n0 = self.names@;
            let owned = name.to_string();
            let ghost go = owned;
            self.names.set(id.index as usize, owned);
            proof {
                lemma_names_view_update(n0, id.index as int, go);
            }
            assert(self@.names =~= old(self)@.set_name(id, name@).names);
        }
    }

    /// The name of a live entity, or `None` when it has no name or the handle is stale.
    pub fn get_name(&self, id: EntityId) -> (r: Option<&str>)
        requires
            self.wf(),
        ensures
            r matches Some(s) ==> self@.name_of(id) == Some(s@),
            r is None ==> self@.name_of(id) is None,
    {
        if self.is_alive(id) {
            let name = self.names[id.index as usize].as_str();
            if name.is_empty() {
                None
            } else {
                Some(name)
            }
        } else {
            None
        }
    }

    /// Handles of all live entities, in slot order.
    pub fn iter_entities(&self) -> (r: Vec<EntityId>)
        requires
            self.wf(),
        ensures
            r@ == self@.live_ids(),
            forall|k: int| 0 <= k < r@.len() ==> self@.is_alive(#[trigger] r@[k]),
            forall|a: int, b: int| 0 <= a < b < r@.len() ==> #[trigger] r@[a].index < #[trigger] r@[b].index,
            forall|id: EntityId| self@.is_alive(id) ==> r@.contains(id),
            r@.len() == self@.entity_count(),
    {
        proof {
            lemma_live_ids(self@);
            lemma_live_ids_count(self@, self@.len());
            assert(self@.alive.subrange(0, self@.len() as int) =~= self@.alive);
        }
        let mut r: Vec<EntityId> = Vec::new();
        let mut i: usize = 0;
        while i < self.alive.len()
            invariant
                self.wf(),
                i <= self.alive.len(),
                r@ == self@.live_ids_upto(i as nat),
            decreases self.alive.len() - i,
        {
            if self.alive[i] {
                r.push(EntityId::new(i as u32, self.generations[i]));
            }
            i = i + 1;
        }
        r
    }

    /// The parent of a live entity (possibly a handle that has since gone stale).
    pub fn get_parent(&self, id: EntityId) -> (r: Option<EntityId>)
        requires
            self.wf(),
        ensures
            r == self@.parent_of(id),
    {
        if !self.is_alive(id) {
            return None;
        }
        self.parents[id.index as usize]
    }

    /// The child list of a live entity; empty for a stale handle.
    pub fn get_children(&self, id: EntityId) -> (r: &[EntityId])
        requires
            self.wf(),
        ensures
            r@ == self@.children_of(id),
    {
        if !self.is_alive(id) {
            return &[];
        }
        match &self.children[id.index as usize] {
            Some(ch) => ch.as_slice(),
            None => &[],
        }
    }

    /// Whether `ancestor` occurs in the parent chain above `id`.
    pub fn is_ancestor(&self, ancestor: EntityId, id: EntityId) -> (b: bool)
        requires
            self.wf(),
        ensures
            b == self@.is_ancestor(ancestor, id),
    {
        let mut current = self.get_parent(id);
        let ghost mut k: nat = 1;
        assert(self@.ancestor_at(id, 0) == Some(id));
        while current.is_some()
            invariant
                self.wf(),
                k >= 1,
                current == self@.ancestor_at(id, k),
                forall|j: nat| 1 <= j < k ==> #[trigger] self@.ancestor_at(id, j) != Some(ancestor),
            decreases match current {
                Some(q) => if self@.is_alive(q) {
                    self.rank@[q.index as int] + 2
                } else {
                    1
                },
                None => 0,
            },
        {
            let pid = current.unwrap();
            if pid == ancestor {
                assert(self@.ancestor_at(id, k) == Some(ancestor));
                return true;
            }
            current = self.get_parent(pid);
            proof {
                k = k + 1;
            }
        }
        assert forall|j: nat| j >= 1 implies #[trigger] self@.ancestor_at(id, j) != Some(ancestor) by {
            if j >= k {
                lemma_ancestor_none(self@, id, k, j);
            }
        }
        false
    }

    /// Attaches `child` under `parent`, unless either is stale, they are the
    /// same entity, or `child` is already an ancestor of `parent` (which would
    /// close a cycle).
    pub fn set_parent(&mut self, child: EntityId, parent: EntityId)
        requires
            old(self).wf(),
        ensures
            final(self).wf(),
            final(self)@ == old(self)@.set_parent(child, parent),
    {
        proof {
            lemma_set_parent_wf(self@, self.rank@, child, parent);
        }
        if !self.is_alive(child) || !self.is_alive(parent) {
            return ;
        }
        if child == parent {
            return ;
        }
        if self.is_ancestor(child, parent) {
            return ;
        }
        let ghost v = self@;
        let ghost r2 = lifted_rank(self@, self.rank@, child, parent);
        let ci = child.index as usize;
        let old_parent = self.parents[ci];
        self.unlink_child(old_parent, child);
        self.parents.set(ci, Some(parent));
        let pidx = parent.index as usize;
        let new_list = match take_slot(&mut self.children, pidx) {
            Some(ch) => {
                let mut ch = ch;
                ch.push(child);
                ch
            },
            None => {
                let mut ch: Vec<EntityId> = Vec::new();
                ch.push(child);
                ch
            },
        };
        self.children.set(pidx, Some(new_list));
        proof {
            self.rank@ = r2;
        }
        assert(self@.children =~= v.set_parent(child, parent).children);
        assert(self@ == v.set_parent(child, parent));
    }

    /// Detaches a live entity from its parent; does nothing for a stale handle or a root.
    pub fn remove_parent(&mut self, child: EntityId)
        requires
            old(self).wf(),
        ensures
            final(self).wf(),
            final(self)@ == old(self)@.remove_parent(child),
    {
        if !self.is_alive(child) {
            return ;
        }
        let ghost v = self@;
        let ci = child.index as usize;
        let old_parent = take_slot(&mut self.parents, ci);
        if old_parent.is_some() {
            self.unlink_child(old_parent, child);
        }
        proof {
            let w = v.remove_parent(child);
            assert(self@.parents =~= w.parents);
            assert(self@ == w);
            assert forall|j: int| 0 <= j < w.alive.len() && (#[trigger] w.parents[j]) is Some implies {
                let q = w.parents[j]->0;
                &&& (q.index as int) < w.alive.len()
                &&& q.generation <= w.generations[q.index as int]
            } by {
                assert(w.parents[j] == v.parents[j]);
            }
            assert forall|j: int|
                0 <= j < w.alive.len() && w.alive[j] && (#[trigger] w.parents[j]) is Some
                    && w.is_alive(w.parents[j]->0) implies self.rank@[w.parents[j]->0.index as int]
                < self.rank@[j] by {
                assert(w.parents[j] == v.parents[j]);
            }
        }
    }

    pub fn set_mesh_renderer(&mut self, id: EntityId, m: MeshRenderer)
        requires
            old(self).wf(),
        ensures
            final(self).wf(),
            final(self)@ == old(self)@.set_mesh_renderer(id, m),
    {
        proof {
            lemma_mesh_only(
                self@,
                self.rank@,
                old(self)@.set_mesh_renderer(id, m).mesh_renderers,
            );
        }
        if self.is_alive(id) {
            self.mesh_renderers.set(id.index as usize, Some(m));
        }
    }

    pub fn get_mesh_renderer(&self, id: EntityId) -> (r: Option<&MeshRenderer>)
        requires
            self.wf(),
        ensures
            r matches Some(m) ==> self@.mesh_renderer_of(id) == Some(*m),
            r is None ==> self@.mesh_renderer_of(id) is None,
    {
        if !self.is_alive(id) {
            return None;
        }
        self.mesh_renderers[id.index as usize].as_ref()
    }

    pub fn remove_mesh_renderer(&mut self, id: EntityId)
        requires
            old(self).wf(),
        ensures
            final(self).wf(),
            final(self)@ == old(self)@.remove_mesh_renderer(id),
    {
        proof {
            lemma_mesh_only(self@, self.rank@, old(self)@.remove_mesh_renderer(id).mesh_renderers);
        }
        if self.is_alive(id) {
            self.mesh_renderers.set(id.index as usize, None);
        }
    }

    /// Copies every per-slot table together with the generations, which a
    /// later restore puts back.
    pub fn snapshot(&self) -> (s: WorldSnapshot)
        requires
            self.wf(),
        ensures
            s.wf(),
            s@ == self@.snapshot(),
    {
        let s = WorldSnapshot {
            alive: copy_vec(&self.alive),
            names: copy_names(&self.names),
            mesh_renderers: copy_vec(&self.mesh_renderers),
            parents: copy_vec(&self.parents),
            children: copy_children(&self.children),
            generations: copy_vec(&self.generations),
            rank: Ghost(self.rank@),
        };
        assert(s@.as_world().free_list.len() == 0);
        s
    }

    /// Whether `snap` fits this world: no longer, and none of its generations
    /// past what its slot has handed out.
    pub fn can_restore(&self, snap: &WorldSnapshot) -> (b: bool)
        requires
            self.wf(),
            snap.wf(),
        ensures
            b == self@.can_restore(snap@),
    {
        proof {
            lemma_wf_well_formed(self);
        }
        if snap.generations.len() > self.generations.len() {
            return false;
        }
        let mut i: usize = 0;
        while i < snap.generations.len()
            invariant
                snap.generations.len() <= self.generations.len(),
                i <= snap.generations.len(),
                self.issued@.len() == self.generations@.len(),
                forall|j: int| 0 <= j < i ==> snap.generations@[j] <= self.issued@[j],
            decreases snap.generations.len() - i,
        {
            if snap.generations[i] > self.issued[i] {
                return false;
            }
            i = i + 1;
        }
        true
    }

    /// Puts back the snapshot's tables and the generations of its slots;
    /// slots added since stay, dead and empty; what each slot has handed out
    /// is kept; the free list is rebuilt from the dead slots.
    pub fn restore(&mut self, snap: WorldSnapshot)
        requires
            old(self).wf(),
            snap.wf(),
            old(self)@.can_restore(snap@),
        ensures
            final(self).wf(),
            final(self)@ == old(self)@.restore(snap@),
    {
        let ghost v = self@;
        let ghost sv = snap@;
        proof {
            lemma_restore_wf(v, sv, snap.rank@);
        }
        let n = self.generations.len();
        let m = snap.alive.len();
        let ghost w = v.restore(sv);
        let mut generations = snap.generations;
        let mut alive = snap.alive;
        let mut names = snap.names;
        let mut mesh_renderers = snap.mesh_renderers;
        let mut parents = snap.parents;
        let mut children = snap.children;
        let mut i: usize = m;
        while i < n
            invariant
                m <= i <= n,
                n == v.generations.len(),
                m == sv.alive.len(),
                m == sv.generations.len(),
                self@ == v,
                generations@ == sv.generations + v.generations.subrange(m as int, i as int),
                alive@ == sv.alive + Seq::new((i - m) as nat, |k: int| false),
                names_view(names@) == sv.names + Seq::new((i - m) as nat, |k: int| Seq::<char>::empty()),
                mesh_renderers@ == sv.mesh_renderers + Seq::new((i - m) as nat, |k: int| None::<MeshRenderer>),
                parents@ == sv.parents + Seq::new((i - m) as nat, |k: int| None::<EntityId>),
                children_view(children@) == sv.children + Seq::new(
                    (i - m) as nat,
                    |k: int| None::<Seq<EntityId>>,
                ),
            decreases n - i,
        {
            generations.push(self.generations[i]);
            alive.push(false);
            let e = String::new();
            let ghost ge = e;
            let ghost names_before = names@;
            let ghost children_before = children@;
            names.push(e);
            mesh_renderers.push(None);
            parents.push(None);
            children.push(None);
            proof {
                assert(names@ == names_before.push(ge));
                assert(children@ == children_before.push(None));
                assert(names_view(names@) =~= names_view(names_before).push(Seq::<char>::empty())) by {
                    assert forall|k: int| 0 <= k < names@.len() implies #[trigger] names_view(names@)[k] == names_view(
                        names_before,
                    ).push(Seq::<char>::empty())[k] by {
                        if k < names_before.len() {
                            assert(names@[k] == names_before[k]);
                        }
                    }
                }
                assert(children_view(children@) =~= children_view(children_before).push(None)) by {
                    assert forall|k: int| 0 <= k < children@.len() implies #[trigger] children_view(children@)[k]
                        == children_view(children_before).push(None)[k] by {
                        if k < children_before.len() {
                            assert(children@[k] == children_before[k]);
                        }
                    }
                }
                assert(generations@ =~= sv.generations + v.generations.subrange(m as int, i + 1));
                assert(alive@ =~= sv.alive + Seq::new((i + 1 - m) as nat, |k: int| false));
                assert(names_view(names@) =~= sv.names + Seq::new((i + 1 - m) as nat, |k: int| Seq::<char>::empty()));
                assert(mesh_renderers@ =~= sv.mesh_renderers + Seq::new((i + 1 - m) as nat, |k: int| None::<MeshRenderer>));
                assert(parents@ =~= sv.parents + Seq::new((i + 1 - m) as nat, |k: int| None::<EntityId>));
                assert(children_view(children@) =~= sv.children + Seq::new(
                    (i + 1 - m) as nat,
                    |k: int| None::<Seq<EntityId>>,
                ));
            }
            i = i + 1;
        }
        let mut free: Vec<u32> = Vec::new();
        let mut i: usize = 0;
        while i < alive.len()
            invariant
                i <= alive.len(),
                alive@ == w.alive,
                alive.len() <= u32::MAX + 1,
                free@ == dead_indices(alive@.subrange(0, i as int)),
            decreases alive.len() - i,
        {
            assert(alive@.subrange(0, i + 1).drop_last() =~= alive@.subrange(0, i as int));
            if !alive[i] {
                free.push(i as u32);
            }
            i = i + 1;
        }
        assert(alive@.subrange(0, alive.len() as int) =~= alive@);
        self.generations = generations;
        self.alive = alive;
        self.names = names;
        self.mesh_renderers = mesh_renderers;
        self.parents = parents;
        self.children = children;
        self.free_list = free;
        self.rank = Ghost(restored_rank(snap.rank@, n as nat));
        assert(self@ =~= w);
    }
}


/// The hierarchy of every world is acyclic: no parent chain of a live entity
/// leads back to it.
pub proof fn law_hierarchy_acyclic(w: &World)
    requires
        w.wf(),
    ensures
        w@.acyclic(),
{
    lemma_ranked_acyclic(w@, w.rank@);
}

/// Re-parenting never closes a cycle: whatever `set_parent` is asked to do,
/// the resulting hierarchy is still acyclic.
pub proof fn law_set_parent_keeps_acyclic(w: &World, child: EntityId, parent: EntityId)
    requires
        w.wf(),
    ensures
        w@.set_parent(child, parent).acyclic(),
{
    lemma_set_parent_wf(w@, w.rank@, child, parent);
    let r = if w@.set_parent_applies(child, parent) {
        lifted_rank(w@, w.rank@, child, parent)
    } else {
        w.rank@
    };
    lemma_ranked_acyclic(w@.set_parent(child, parent), r);
}

/// Re-parenting a live entity under another live entity that is not below it
/// makes the parent its parent and lists it among the parent's children; any
/// other request leaves the world unchanged.
pub proof fn law_set_parent_links(v: WorldView, child: EntityId, parent: EntityId)
    requires
        well_formed(v),
    ensures
        v.set_parent_applies(child, parent) ==> {
            let w = v.set_parent(child, parent);
            &&& w.parent_of(child) == Some(parent)
            &&& w.children_of(parent).contains(child)
            &&& forall|x: EntityId| #[trigger] w.is_alive(x) == v.is_alive(x)
        },
        !v.set_parent_applies(child, parent) ==> v.set_parent(child, parent) == v,
        v.is_ancestor(child, parent) ==> v.set_parent(child, parent) == v,
{
    if v.set_parent_applies(child, parent) {
        let w = v.set_parent(child, parent);
        let cs = w.children_of(parent);
        assert(cs[cs.len() - 1] == child);
    }
}

/// After `remove_parent`, a live entity is a root; the set of live entities is unchanged.
pub proof fn law_remove_parent_makes_root(v: WorldView, child: EntityId)
    requires
        well_formed(v),
    ensures
        v.remove_parent(child).parent_of(child) is None,
        forall|x: EntityId| #[trigger] v.remove_parent(child).is_alive(x) == v.is_alive(x),
{
}

/// A spawned handle is new: it was not live before; it is live now, and every
/// other handle keeps its liveness.
pub proof fn law_spawn_fresh(v: WorldView)
    requires
        well_formed(v),
        v.can_spawn(),
    ensures
        !v.is_alive(v.spawn().1),
        v.spawn().0.is_alive(v.spawn().1),
        forall|x: EntityId| x != v.spawn().1 ==> #[trigger] v.spawn().0.is_alive(x) == v.is_alive(x),
        v.spawn().0.name_of(v.spawn().1) is None,
        v.spawn().0.parent_of(v.spawn().1) is None,
        v.spawn().0.children_of(v.spawn().1).len() == 0,
        v.spawn().0.mesh_renderer_of(v.spawn().1) is None,
{
    let (w, id) = v.spawn();
    if v.free_list.len() > 0 {
        let i = v.free_list.last() as int;
        assert(!v.alive[i]);
        assert forall|x: EntityId| x != id implies #[trigger] w.is_alive(x) == v.is_alive(x) by {
            if x.index as int == i {
                assert(x.generation != w.generations[i] || !w.is_alive(x));
            }
        }
    }
}

/// Destroying kills exactly the given handle (when it was live) and clears its
/// name, mesh renderer and parent link; a stale handle leaves the world unchanged.
pub proof fn law_destroy_kills(v: WorldView, id: EntityId)
    requires
        well_formed(v),
    ensures
        !v.destroy(id).is_alive(id),
        forall|x: EntityId| #[trigger] v.destroy(id).is_alive(x) == (v.is_alive(x) && x != id),
        !v.is_alive(id) ==> v.destroy(id) == v,
        v.is_alive(id) ==> v.destroy(id).names[id.index as int].len() == 0,
        v.is_alive(id) ==> v.destroy(id).mesh_renderers[id.index as int] is None,
        v.is_alive(id) ==> v.destroy(id).parents[id.index as int] is None,
        v.is_alive(id) ==> v.destroy(id).entity_count() + 1 == v.entity_count(),
{
    if v.is_alive(id) {
        let w = v.destroy(id);
        assert forall|x: EntityId| #[trigger] w.is_alive(x) == (v.is_alive(x) && x != id) by {}
        lemma_count_true_update(v.alive, id.index as int);
    }
}

/// A handle that was handed out and is no longer live stays dead when an
/// entity is spawned, even when the new entity takes over its slot: the
/// slot's generation moves past the handle's, and the new handle differs.
pub proof fn law_stale_handle_stays_dead(v: WorldView, id: EntityId)
    requires
        well_formed(v),
        v.can_spawn(),
        !v.is_alive(id),
        (id.index as int) < v.generations.len(),
        id.generation <= v.issued[id.index as int],
    ensures
        v.spawn().1 != id,
        !v.spawn().0.is_alive(id),
{
    let (w, new) = v.spawn();
    if v.free_list.len() > 0 {
        let i = v.free_list.last() as int;
        assert(v.free_list[v.free_list.len() - 1] == v.free_list.last());
        if id.index as int == i {
            assert(w.generations[i] == v.issued[i] + 1);
        } else {
            assert(w.generations[id.index as int] == v.generations[id.index as int]);
            assert(w.alive[id.index as int] == v.alive[id.index as int]);
        }
    } else {
        assert(new.index as int == v.generations.len());
        assert(w.generations[id.index as int] == v.generations[id.index as int]);
        assert(w.alive[id.index as int] == v.alive[id.index as int]);
    }
}

/// Destroying an entity and spawning the next one never hands the destroyed
/// handle back, nor makes it live again: the reused slot comes back under a
/// new generation.
pub proof fn law_destroyed_handle_never_returns(v: WorldView, id: EntityId)
    requires
        well_formed(v),
        v.is_alive(id),
    ensures
        !v.destroy(id).is_alive(id),
        v.destroy(id).can_spawn() ==> v.destroy(id).spawn().1 != id && !v.destroy(id).spawn().0.is_alive(id),
{
    let w = v.destroy(id);
    let i = id.index as int;
    assert(w.free_list.last() == id.index);
    assert(w.generations == v.generations && w.issued == v.issued);
    assert(v.generations[i] <= v.issued[i]);
    if w.can_spawn() {
        let (w2, new) = w.spawn();
        assert(new.generation == v.issued[i] + 1);
        assert(w2.generations[i] == new.generation);
    }
}

proof fn lemma_count_true_update(s: Seq<bool>, i: int)
    requires
        0 <= i < s.len(),
        s[i],
    ensures
        count_true(s.update(i, false)) + 1 == count_true(s),
    decreases s.len(),
{
    let t = s.update(i, false);
    if i == s.len() - 1 {
        assert(t.drop_last() =~= s.drop_last());
    } else {
        assert(t.drop_last() =~= s.drop_last().update(i, false));
        lemma_count_true_update(s.drop_last(), i);
    }
}

/// Renaming then reading back gives the new name (or `None` for an empty name
/// or a stale handle).
pub proof fn law_name_roundtrip(v: WorldView, id: EntityId, name: Seq<char>)
    requires
        well_formed(v),
    ensures
        v.set_name(id, name).name_of(id) == if v.is_alive(id) && name.len() > 0 {
            Some(name)
        } else {
            None
        },
{
}

/// A name is what the last rename of that entity since its spawn wrote: a new
/// entity has none, and renaming another handle leaves it unchanged.
pub proof fn law_name_is_last_write(v: WorldView, id: EntityId, other: EntityId, name: Seq<char>)
    requires
        well_formed(v),
        other != id,
    ensures
        v.spawn().0.name_of(v.spawn().1) is None,
        v.set_name(other, name).name_of(id) == v.name_of(id),
{
}

/// What `get_name` returns changes only through renames, spawns, destroys and
/// restores: re-parenting, detaching and mesh changes leave every name as it
/// was; a destroy leaves the destroyed handle without a name and the others
/// as they were; a spawn's new handle has no name and every other handle keeps
/// what it had. With `law_name_roundtrip` and `law_name_is_last_write`, a
/// handle's name is what the last rename since its spawn wrote (none if
/// there was no such rename), as long as it lives.
pub proof fn law_names_frame(v: WorldView, a: EntityId, b: EntityId, m: MeshRenderer, x: EntityId)
    requires
        well_formed(v),
    ensures
        v.set_parent(a, b).name_of(x) == v.name_of(x),
        v.remove_parent(a).name_of(x) == v.name_of(x),
        v.set_mesh_renderer(a, m).name_of(x) == v.name_of(x),
        v.remove_mesh_renderer(a).name_of(x) == v.name_of(x),
        v.destroy(a).name_of(x) == if x == a {
            None
        } else {
            v.name_of(x)
        },
        x != v.spawn().1 ==> v.spawn().0.name_of(x) == v.name_of(x),
        v.spawn().0.name_of(v.spawn().1) is None,
{
    law_destroy_kills(v, a);
    if v.is_alive(x) && v.is_alive(a) && x != a {
        assert(x.index != a.index);
    }
    let (w, id) = v.spawn();
    if v.free_list.len() > 0 {
        assert(v.free_list[v.free_list.len() - 1] == v.free_list.last());
    }
    if x != id && x.index == id.index {
        assert(!w.is_alive(x));
    }
}

/// A snapshot stays restorable whatever is done to the world after it was
/// taken: the world's own snapshot is restorable, and every operation (a spawn
/// within the generation budget, a destroy, a rename, re-parenting,
/// detaching, mesh changes, restoring another restorable snapshot) keeps a
/// restorable snapshot restorable. So every world reached from the
/// snapshotted one can restore it.
pub proof fn law_restore_from_later(
    v: WorldView,
    s: SnapshotView,
    a: EntityId,
    b: EntityId,
    name: Seq<char>,
    m: MeshRenderer,
    other: SnapshotView,
)
    requires
        well_formed(v),
        v.can_restore(s),
    ensures
        v.can_restore(v.snapshot()),
        v.can_spawn() ==> v.spawn().0.can_restore(s),
        v.destroy(a).can_restore(s),
        v.set_name(a, name).can_restore(s),
        v.set_parent(a, b).can_restore(s),
        v.remove_parent(a).can_restore(s),
        v.set_mesh_renderer(a, m).can_restore(s),
        v.remove_mesh_renderer(a).can_restore(s),
        v.can_restore(other) ==> v.restore(other).can_restore(s),
{
    if v.can_spawn() && v.free_list.len() > 0 {
        let i = v.free_list.last() as int;
        assert(v.free_list[v.free_list.len() - 1] == v.free_list.last());
        assert(v.issued[i] < u32::MAX);
    }
    if v.can_restore(other) {
        assert(v.restore(other).generations.len() == v.generations.len());
    }
}

/// Restoring a world's own snapshot is always allowed and brings back exactly
/// the same entities, names, mesh renderers and links.
pub proof fn law_snapshot_restore(v: WorldView)
    requires
        well_formed(v),
    ensures
        v.can_restore(v.snapshot()),
        v.restore(v.snapshot()).same_entities(v),
{
}

/// A spawn brings exactly one more entity to life.
pub proof fn lemma_spawn_count(v: WorldView)
    requires
        well_formed(v),
    ensures
        v.spawn().0.entity_count() == v.entity_count() + 1,
{
    let w = v.spawn().0;
    if v.free_list.len() > 0 {
        let i = v.free_list.last() as int;
        assert(v.free_list[v.free_list.len() - 1] == v.free_list.last());
        assert(!v.alive[i]);
        lemma_count_true_update(w.alive, i);
        assert(w.alive.update(i, false) =~= v.alive);
    } else {
        assert(w.alive.drop_last() =~= v.alive);
    }
}

/// Adding dead slots does not change how many entities live.
proof fn lemma_count_true_falses(s: Seq<bool>, k: nat)
    ensures
        count_true(s + Seq::new(k, |i: int| false)) == count_true(s),
    decreases k,
{
    if k > 0 {
        lemma_count_true_falses(s, (k - 1) as nat);
        let t = s + Seq::new(k, |i: int| false);
        assert(t.drop_last() =~= s + Seq::new((k - 1) as nat, |i: int| false));
    }
}

/// Restoring a snapshot taken earlier brings back the world as it was, whatever
/// happened in between: the same handles are live, with the same names, mesh
/// renderers, parents and children, and as many entities. Slots added since
/// stay dead. What each slot has handed out is kept, so the next spawn gives a
/// live handle that differs from every live one and from every handle handed
/// out before.
pub proof fn law_restore_overwrites(v: WorldView, later: WorldView)
    requires
        well_formed(v),
        well_formed(later),
        later.can_restore(v.snapshot()),
    ensures
        forall|x: EntityId| #[trigger] later.restore(v.snapshot()).is_alive(x) == v.is_alive(x),
        forall|x: EntityId|
            v.is_alive(x) ==> {
                &&& #[trigger] later.restore(v.snapshot()).name_of(x) == v.name_of(x)
                &&& later.restore(v.snapshot()).mesh_renderer_of(x) == v.mesh_renderer_of(x)
                &&& later.restore(v.snapshot()).parent_of(x) == v.parent_of(x)
                &&& later.restore(v.snapshot()).children_of(x) == v.children_of(x)
            },
        later.restore(v.snapshot()).entity_count() == v.entity_count(),
        later.restore(v.snapshot()).issued == later.issued,
        later.restore(v.snapshot()).can_spawn() ==> {
            let w = later.restore(v.snapshot());
            let (w1, id) = w.spawn();
            &&& w1.is_alive(id)
            &&& forall|x: EntityId| #[trigger] w.is_alive(x) ==> x != id
            &&& (id.index as int) < later.issued.len() ==> id.generation > later.issued[id.index as int]
        },
{
    let w = later.restore(v.snapshot());
    let n = later.generations.len();
    let m = v.alive.len();
    assert forall|x: EntityId| #[trigger] w.is_alive(x) == v.is_alive(x) by {
        if (x.index as int) < m {
            assert(w.alive[x.index as int] == v.alive[x.index as int]);
            assert(w.generations[x.index as int] == v.generations[x.index as int]);
        } else if (x.index as int) < n {
            assert(!w.alive[x.index as int]);
        }
    }
    assert forall|x: EntityId| v.is_alive(x) implies {
        &&& #[trigger] w.name_of(x) == v.name_of(x)
        &&& w.mesh_renderer_of(x) == v.mesh_renderer_of(x)
        &&& w.parent_of(x) == v.parent_of(x)
        &&& w.children_of(x) == v.children_of(x)
    } by {
        assert(w.is_alive(x));
        let i = x.index as int;
        assert(w.names[i] == v.names[i]);
        assert(w.mesh_renderers[i] == v.mesh_renderers[i]);
        assert(w.parents[i] == v.parents[i]);
        assert(w.children[i] == v.children[i]);
    }
    lemma_count_true_falses(v.alive, (n - m) as nat);
    lemma_restore_wf_view(later, v);
    if w.can_spawn() {
        law_spawn_fresh(w);
        let (w1, id) = w.spawn();
        if w.free_list.len() > 0 {
            assert(id.generation == w.issued[id.index as int] + 1);
        }
    }
}

/// A restored snapshot of a well-formed world is well-formed.
proof fn lemma_restore_wf_view(later: WorldView, v: WorldView)
    requires
        well_formed(v),
        well_formed(later),
        later.can_restore(v.snapshot()),
    ensures
        well_formed(later.restore(v.snapshot())),
{
    let s = v.snapshot();
    assert(s.as_world().issued == v.generations);
    assert(well_formed(s.as_world())) by {
        assert forall|i: int| 0 <= i < s.generations.len() implies #[trigger] s.generations[i] <= s.as_world().issued[i] by {}
        assert forall|k: int| 0 <= k < s.as_world().free_list.len() implies (#[trigger] s.as_world().free_list[k] as int)
            < s.as_world().alive.len() && !s.as_world().alive[s.as_world().free_list[k] as int] by {}
    }
    lemma_restore_wf(later, s, Seq::new(s.alive.len(), |i: int| 0nat));
}

proof fn lemma_live_ids_upto(v: WorldView, n: nat)
    requires
        well_formed(v),
        n <= v.len(),
    ensures
        forall|k: int| 0 <= k < v.live_ids_upto(n).len() ==> v.is_alive(#[trigger] v.live_ids_upto(n)[k])
            && (v.live_ids_upto(n)[k].index as int) < n,
        forall|a: int, b: int|
            0 <= a < b < v.live_ids_upto(n).len() ==> #[trigger] v.live_ids_upto(n)[a].index
                < #[trigger] v.live_ids_upto(n)[b].index,
        forall|i: int| 0 <= i < n && v.alive[i] ==> v.live_ids_upto(n).contains(v.id_at(i)),
    decreases n,
{
    if n > 0 {
        lemma_live_ids_upto(v, (n - 1) as nat);
        let r = v.live_ids_upto((n - 1) as nat);
        let t = v.live_ids_upto(n);
        assert forall|i: int| 0 <= i < n && v.alive[i] implies t.contains(v.id_at(i)) by {
            if i < n - 1 {
                let k = choose|k: int| 0 <= k < r.len() && r[k] == v.id_at(i);
                assert(t[k] == v.id_at(i));
            } else {
                assert(t[r.len() as int] == v.id_at(i));
            }
        }
        assert forall|k: int| 0 <= k < t.len() implies v.is_alive(#[trigger] t[k]) && (t[k].index as int) < n by {
            if k < r.len() {
                assert(t[k] == r[k]);
            }
        }
        assert forall|a: int, b: int| 0 <= a < b < t.len() implies #[trigger] t[a].index < #[trigger] t[b].index by {
            if b < r.len() {
                assert(t[a] == r[a] && t[b] == r[b]);
            } else {
                assert(t[a] == r[a]);
            }
        }
    }
}

/// The live handles listed by `live_ids` are exactly the live entities, each
/// once, in increasing slot order.
pub proof fn lemma_live_ids(v: WorldView)
    requires
        well_formed(v),
    ensures
        forall|k: int| 0 <= k < v.live_ids().len() ==> v.is_alive(#[trigger] v.live_ids()[k]),
        forall|a: int, b: int|
            0 <= a < b < v.live_ids().len() ==> #[trigger] v.live_ids()[a].index
                < #[trigger] v.live_ids()[b].index,
        forall|i: int| 0 <= i < v.len() && v.alive[i] ==> v.live_ids().contains(v.id_at(i)),
        forall|id: EntityId| v.is_alive(id) ==> v.live_ids().contains(id),
{
    lemma_live_ids_upto(v, v.len());
    assert forall|id: EntityId| v.is_alive(id) implies v.live_ids().contains(id) by {
        assert(v.id_at(id.index as int) == id);
    }
}

impl World {
    /// Number of slots (live or free) in the per-slot tables.
    pub fn slot_count(&self) -> (n: usize)
        requires
            self.wf(),
        ensures
            n == self@.len(),
    {
        self.alive.len()
    }
}

impl World {
    /// Mutable access to the mesh renderer of a live entity.
    #[verifier::spinoff_prover]
    #[verifier::rlimit(60)]
    pub fn get_mesh_renderer_mut(&mut self, id: EntityId) -> (r: Option<&mut MeshRenderer>)
        requires
            old(self).wf(),
        ensures
            r is Some <==> old(self)@.mesh_renderer_of(id) is Some,
            r is Some ==> *r.unwrap() == old(self)@.mesh_renderer_of(id)->0 && final(self)@ == old(
                self,
            )@.set_mesh_renderer(id, *final(r.unwrap())) && final(self).wf(),
            r is None ==> final(self)@ == old(self)@ && final(self).wf(),
    {
        if !self.is_alive(id) || self.mesh_renderers[id.index as usize].is_none() {
            return None;
        }
        self.mesh_renderers[id.index as usize].as_mut()
    }

    /// Mutable access to the name of a live entity.
    #[verifier::spinoff_prover]
    #[verifier::rlimit(60)]
    pub fn get_name_mut(&mut self, id: EntityId) -> (r: Option<&mut String>)
        requires
            old(self).wf(),
        ensures
            r is Some <==> old(self)@.is_alive(id),
            r is Some ==> (*r.unwrap())@ == old(self)@.names[id.index as int] && final(self)@
                == old(self)@.set_name(id, (*final(r.unwrap()))@) && final(self).wf(),
            r is None ==> final(self)@ == old(self)@ && final(self).wf(),
    {
        broadcast use lemma_names_view_update;

        if !self.is_alive(id) {
            return None;
        }
        Some(&mut self.names[id.index as usize])
    }
}

/// A well-formed world's model is structurally well-formed.
pub proof fn lemma_wf_well_formed(w: &World)
    requires
        w.wf(),
    ensures
        well_formed(w@),
{
}

impl World {
    /// Whether `n` entities can be spawned in a row.
    pub fn can_spawn_many(&self, n: usize) -> (b: bool)
        requires
            self.wf(),
        ensures
            b == self@.can_spawn_n(n as nat),
    {
        let mut k: usize = 0;
        while k < self.free_list.len()
            invariant
                self.wf(),
                k <= self.free_list.len(),
                forall|j: int|
                    0 <= j < k ==> (#[trigger] self.free_list@[j] as int) < self.issued@.len()
                        && self.issued@[self.free_list@[j] as int] < u32::MAX,
            decreases self.free_list.len() - k,
        {
            let f = self.free_list[k] as usize;
            if f >= self.issued.len() || self.issued[f] == u32::MAX {
                return false;
            }
            k = k + 1;
        }
        n <= u32::MAX as usize - self.generations.len()
    }
}

/// Climbing from `id`, the first `k` steps each reach a parent without a mesh
/// renderer.
pub open spec fn meshless_climb(v: WorldView, id: EntityId, k: nat) -> bool {
    forall|j: nat| 1 <= j <= k ==> match #[trigger] v.ancestor_at(id, j) {
        Some(a) => v.mesh_renderer_of(a) is None,
        None => false,
    }
}

/// The climb from `id` ends after `k` steps: the entity reached there has no
/// parent, or its parent carries a mesh renderer.
pub open spec fn climb_ends(v: WorldView, id: EntityId, k: nat) -> bool {
    match v.ancestor_at(id, k) {
        Some(e) => match v.parent_of(e) {
            Some(p) => v.mesh_renderer_of(p) is Some,
            None => true,
        },
        None => false,
    }
}

/// The entity a click on `eid` selects: climbing from `eid` through parents
/// that carry no mesh renderer, as far as that goes. A parent with a mesh
/// renderer stops the climb below it.
pub fn resolve_root_parent(eid: EntityId, world: &World) -> (r: EntityId)
    requires
        world.wf(),
    ensures
        exists|k: nat| #![trigger world@.ancestor_at(eid, k)]
            meshless_climb(world@, eid, k) && climb_ends(world@, eid, k) && world@.ancestor_at(eid, k) == Some(r),
{
    let mut current = eid;
    let ghost mut k: nat = 0;
    assert(world@.ancestor_at(eid, 0) == Some(eid));
    loop
        invariant
            world.wf(),
            world@.ancestor_at(eid, k) == Some(current),
            meshless_climb(world@, eid, k),
        decreases if world@.is_alive(current) {
            world.rank@[current.index as int] + 1
        } else {
            0
        },
    {
        match world.get_parent(current) {
            Some(parent) => {
                if world.get_mesh_renderer(parent).is_none() {
                    proof {
                        assert(world@.ancestor_at(eid, k + 1) == Some(parent));
                        assert forall|j: nat| 1 <= j <= k + 1 implies match #[trigger] world@.ancestor_at(eid, j) {
                            Some(a) => world@.mesh_renderer_of(a) is None,
                            None => false,
                        } by {
                            if j <= k {
                                assert(meshless_climb(world@, eid, k));
                            }
                        }
                        k = k + 1;
                    }
                    current = parent;
                } else {
                    assert(climb_ends(world@, eid, k));
                    return current;
                }
            },
            None => {
                assert(climb_ends(world@, eid, k));
                return current;
            },
        }
    }
}
} // verus!
