use vstd::prelude::*;

use vstd::string::StringExecFns;

use crate::components::MeshRenderer;
use crate::entity::EntityId;
use crate::scene::lemma_spawn_budget;
use crate::world::{law_spawn_fresh, lemma_spawn_well_formed, lemma_wf_well_formed, well_formed, World};
use crate::world_model::WorldView;

verus! {

/// The name given to a copy of an entity named `n`.
pub open spec fn copy_name(n: Seq<char>) -> Seq<char> {
    n + " (Copy)"@
}

/// Spawning one copy of each live source, in order: the copy gets the
/// source's name with " (Copy)" appended (when the source is named) and the
/// source's mesh renderer. Returns the world, the copies, and the
/// (source, copy) pairs.
pub open spec fn spawn_copies(v: WorldView, ids: Seq<EntityId>) -> (WorldView, Seq<EntityId>, Seq<(EntityId, EntityId)>)
    decreases ids.len(),
{
    if ids.len() == 0 {
        (v, Seq::empty(), Seq::empty())
    } else {
        let (w, news, pairs) = spawn_copies(v, ids.drop_last());
        let src = ids.last();
        if !w.is_alive(src) {
            (w, news, pairs)
        } else {
            let (w1, nid) = w.spawn();
            let w2 = match w1.name_of(src) {
                Some(n) => w1.set_name(nid, copy_name(n)),
                None => w1,
            };
            let w3 = match w2.mesh_renderer_of(src) {
                Some(m) => w2.set_mesh_renderer(nid, m),
                None => w2,
            };
            (w3, news.push(nid), pairs.push((src, nid)))
        }
    }
}

/// The copy recorded last for `src` among `pairs`.
pub open spec fn copy_of(pairs: Seq<(EntityId, EntityId)>, src: EntityId) -> Option<EntityId>
    decreases pairs.len(),
{
    if pairs.len() == 0 {
        None
    } else if pairs.last().0 == src {
        Some(pairs.last().1)
    } else {
        copy_of(pairs.drop_last(), src)
    }
}

/// Linking, for each of the first `k` sources in order, its copy under the
/// copy of its parent, when both were copied.
pub open spec fn link_copies(w: WorldView, ids: Seq<EntityId>, pairs: Seq<(EntityId, EntityId)>, k: nat) -> WorldView
    decreases k,
{
    if k == 0 {
        w
    } else {
        let w0 = link_copies(w, ids, pairs, (k - 1) as nat);
        match w0.parent_of(ids[k - 1]) {
            Some(p) => match (copy_of(pairs, p), copy_of(pairs, ids[k - 1])) {
                (Some(np), Some(nc)) => w0.set_parent(nc, np),
                _ => w0,
            },
            None => w0,
        }
    }
}

/// The copy recorded last for `src`.
fn find_copy(pairs: &Vec<(EntityId, EntityId)>, src: EntityId) -> (r: Option<EntityId>)
    ensures
        r == copy_of(pairs@, src),
{
    let mut i: usize = pairs.len();
    assert(pairs@.subrange(0, pairs@.len() as int) =~= pairs@);
    while i > 0
        invariant
            i <= pairs@.len(),
            copy_of(pairs@, src) == copy_of(pairs@.subrange(0, i as int), src),
        decreases i,
    {
        let ghost sub = pairs@.subrange(0, i as int);
        assert(sub.drop_last() =~= pairs@.subrange(0, i - 1));
        assert(sub.last() == pairs@[i - 1]);
        if pairs[i - 1].0 == src {
            return Some(pairs[i - 1].1);
        }
        i = i - 1;
    }
    None
}

impl World {
    /// Duplicates the given entities: each live one gets a copy carrying its
    /// name with " (Copy)" appended and its mesh renderer; then every copy
    /// whose source's parent was copied too is put under that parent's copy.
    /// Returns the copies in order and the (source, copy) pairs. Transforms
    /// and other float-valued components are copied by the caller.
    pub fn duplicate_entities(&mut self, ids: &Vec<EntityId>) -> (r: (Vec<EntityId>, Vec<(EntityId, EntityId)>))
        requires
            old(self).wf(),
            old(self)@.can_spawn_n(ids@.len()),
        ensures
            final(self).wf(),
            r.0@ == spawn_copies(old(self)@, ids@).1,
            r.1@ == spawn_copies(old(self)@, ids@).2,
            final(self)@ == link_copies(spawn_copies(old(self)@, ids@).0, ids@, r.1@, ids@.len()),
    {
        let mut news: Vec<EntityId> = Vec::new();
        let mut pairs: Vec<(EntityId, EntityId)> = Vec::new();
        let mut k: usize = 0;
        while k < ids.len()
            invariant
                self.wf(),
                k <= ids@.len(),
                (self@, news@, pairs@) == spawn_copies(old(self)@, ids@.subrange(0, k as int)),
                self@.can_spawn_n((ids@.len() - k) as nat),
            decreases ids@.len() - k,
        {
            let ghost before = self@;
            assert(ids@.subrange(0, k + 1).drop_last() =~= ids@.subrange(0, k as int));
            let src = ids[k];
            if self.is_alive(src) {
                proof {
                    lemma_wf_well_formed(self);
                    lemma_spawn_budget(self@, (ids@.len() - k) as nat);
                }
                let nid = self.spawn_entity();
                let name: Option<String> = match self.get_name(src) {
                    Some(n) => Some(n.to_owned()),
                    None => None,
                };
                match name {
                    Some(n) => {
                        let mut s = n;
                        s.append(" (Copy)");
                        self.set_name(nid, s.as_str());
                    },
                    None => {},
                }
                let mesh: Option<MeshRenderer> = match self.get_mesh_renderer(src) {
                    Some(m) => Some(*m),
                    None => None,
                };
                match mesh {
                    Some(m) => {
                        self.set_mesh_renderer(nid, m);
                    },
                    None => {},
                }
                news.push(nid);
                pairs.push((src, nid));
                proof {
                    let after_spawn = before.spawn().0;
                    assert(self@.free_list == after_spawn.free_list);
                    assert(self@.generations == after_spawn.generations);
                }
            } else {
                proof {
                    lemma_wf_well_formed(self);
                    let v = self@;
                    assert(v.can_spawn_n((ids@.len() - k - 1) as nat));
                }
            }
            k = k + 1;
        }
        assert(ids@.subrange(0, ids@.len() as int) =~= ids@);
        let ghost spawned = self@;
        let mut k: usize = 0;
        while k < ids.len()
            invariant
                self.wf(),
                k <= ids@.len(),
                self@ == link_copies(spawned, ids@, pairs@, k as nat),
            decreases ids@.len() - k,
        {
            match self.get_parent(ids[k]) {
                Some(p) => {
                    let np = find_copy(&pairs, p);
                    let nc = find_copy(&pairs, ids[k]);
                    match (np, nc) {
                        (Some(a), Some(c)) => {
                            self.set_parent(c, a);
                        },
                        _ => {},
                    }
                },
                None => {},
            }
            k = k + 1;
        }
        (news, pairs)
    }
}

/// Duplicating live entities gives each a new, live copy, distinct from the
/// other copies, carrying the source's name with " (Copy)" appended (no name
/// for an unnamed source) and the source's mesh renderer; entities alive
/// before stay alive with their names and meshes.
pub proof fn law_duplicate_copies(v: WorldView, ids: Seq<EntityId>)
    requires
        well_formed(v),
        v.can_spawn_n(ids.len()),
        forall|k: int| 0 <= k < ids.len() ==> v.is_alive(#[trigger] ids[k]),
    ensures
        ({
            let (w, news, pairs) = spawn_copies(v, ids);
            &&& well_formed(w)
            &&& w.generations.len() == w.alive.len()
            &&& w.can_spawn_n(0)
            &&& w.generations.len() <= v.generations.len() + ids.len()
            &&& news.len() == ids.len()
            &&& pairs.len() == ids.len()
            &&& forall|k: int| 0 <= k < ids.len() ==> #[trigger] pairs[k] == (ids[k], news[k])
            &&& forall|k: int| 0 <= k < news.len() ==> w.is_alive(#[trigger] news[k]) && !v.is_alive(news[k])
            &&& forall|a: int, b: int| 0 <= a < b < news.len() ==> #[trigger] news[a] != #[trigger] news[b]
            &&& forall|k: int| 0 <= k < news.len() ==> #[trigger] w.name_of(news[k]) == match v.name_of(ids[k]) {
                Some(n) => Some(copy_name(n)),
                None => None,
            }
            &&& forall|k: int| 0 <= k < news.len() ==> #[trigger] w.mesh_renderer_of(news[k]) == v.mesh_renderer_of(ids[k])
            &&& forall|x: EntityId| #[trigger] v.is_alive(x) ==> w.is_alive(x) && w.name_of(x) == v.name_of(x)
                && w.mesh_renderer_of(x) == v.mesh_renderer_of(x)
        }),
    decreases ids.len(),
{
    if ids.len() == 0 {
    } else {
        let t = ids.drop_last();
        assert(v.can_spawn_n(t.len()));
        law_duplicate_copies(v, t);
        let (w, news, pairs) = spawn_copies(v, t);
        let src = ids.last();
        assert(v.is_alive(ids[ids.len() - 1]));
        assert(w.is_alive(src));
        assert(w.can_spawn_n(1));
        lemma_spawn_budget(w, 1);
        law_spawn_fresh(w);
        lemma_spawn_well_formed(w);
        let (w1, nid) = w.spawn();
        let w2 = match w1.name_of(src) {
            Some(n) => w1.set_name(nid, copy_name(n)),
            None => w1,
        };
        let w3 = match w2.mesh_renderer_of(src) {
            Some(m) => w2.set_mesh_renderer(nid, m),
            None => w2,
        };
        let news2 = news.push(nid);
        let pairs2 = pairs.push((src, nid));
        assert(spawn_copies(v, ids) == (w3, news2, pairs2));
        assert(src != nid);
        assert(src.index != nid.index) by {
            if src.index == nid.index {
                assert(w1.is_alive(src));
            }
        }
        assert forall|x: EntityId| #[trigger] w3.is_alive(x) == (w.is_alive(x) || x == nid) by {}
        // untouched entities keep their name and mesh
        assert forall|x: EntityId| w.is_alive(x) implies w3.name_of(x) == w.name_of(x) && w3.mesh_renderer_of(x)
            == w.mesh_renderer_of(x) by {
            assert(x != nid);
            if x.index == nid.index {
                assert(w1.is_alive(x));
            }
        }
        assert(w1.name_of(src) == w.name_of(src));
        assert(w2.mesh_renderer_of(src) == w.mesh_renderer_of(src));
        assert(w3.name_of(nid) == match w.name_of(src) {
            Some(n) => Some(copy_name(n)),
            None => None,
        }) by {
            match w.name_of(src) {
                Some(n) => {
                    assert(copy_name(n).len() > 0) by {
                        reveal_strlit(" (Copy)");
                    }
                },
                None => {},
            }
        }
        assert forall|k: int| 0 <= k < ids.len() implies #[trigger] pairs2[k] == (ids[k], news2[k]) by {
            if k < t.len() {
                assert(pairs2[k] == pairs[k]);
                assert(t[k] == ids[k]);
            }
        }
        assert forall|k: int| 0 <= k < news2.len() implies w3.is_alive(#[trigger] news2[k]) && !v.is_alive(news2[k]) by {
            if k < news.len() {
                assert(news2[k] == news[k]);
            } else {
                if v.is_alive(nid) {
                    assert(w.is_alive(nid));
                }
            }
        }
        assert forall|a: int, b: int| 0 <= a < b < news2.len() implies #[trigger] news2[a] != #[trigger] news2[b] by {
            if b == news.len() {
                assert(w.is_alive(news2[a]));
            } else {
                assert(news2[a] == news[a] && news2[b] == news[b]);
            }
        }
        assert forall|k: int| 0 <= k < news2.len() implies #[trigger] w3.name_of(news2[k]) == match v.name_of(ids[k]) {
            Some(n) => Some(copy_name(n)),
            None => None,
        } by {
            if k < news.len() {
                assert(news2[k] == news[k]);
                assert(t[k] == ids[k]);
                assert(w.is_alive(news[k]));
            } else {
                assert(v.name_of(src) == w.name_of(src));
            }
        }
        assert forall|k: int| 0 <= k < news2.len() implies #[trigger] w3.mesh_renderer_of(news2[k]) == v.mesh_renderer_of(ids[k]) by {
            if k < news.len() {
                assert(news2[k] == news[k]);
                assert(t[k] == ids[k]);
                assert(w.is_alive(news[k]));
            } else {
                assert(v.mesh_renderer_of(src) == w.mesh_renderer_of(src));
            }
        }
        assert(w3.free_list == w1.free_list && w3.generations == w1.generations);
    }
}

} // verus!
