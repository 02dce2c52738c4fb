use vstd::prelude::*;

use std::collections::HashMap;

use crate::skeleton::{distinct_joints, BoneLink};

verus! {

broadcast use vstd::std_specs::hash::group_hash_axioms;

/// The node graph of a model file: the children of each node, and the root
/// nodes of each scene.
pub struct NodeGraph {
    pub children: Vec<Vec<usize>>,
    pub scenes: Vec<Vec<usize>>,
}

impl NodeGraph {
    pub open spec fn children_view(&self) -> Seq<Seq<usize>> {
        self.children@.map_values(|c: Vec<usize>| c@)
    }

    pub open spec fn scenes_view(&self) -> Seq<Seq<usize>> {
        self.scenes@.map_values(|s: Vec<usize>| s@)
    }
}

/// The children of node `n` (none for an index outside the graph).
pub open spec fn child_list(c: Seq<Seq<usize>>, n: usize) -> Seq<usize> {
    if (n as int) < c.len() {
        c[n as int]
    } else {
        Seq::empty()
    }
}

/// The (parent, child) links met walking depth first below `n`, each link
/// followed by the walk below the child, going at most `depth` levels down.
pub open spec fn links_below(c: Seq<Seq<usize>>, n: usize, depth: nat) -> Seq<(usize, usize)>
    decreases depth, child_list(c, n).len() + 1,
{
    links_among(c, n, child_list(c, n).len(), depth)
}

/// The links met below `n` through its first `k` children.
pub open spec fn links_among(c: Seq<Seq<usize>>, n: usize, k: nat, depth: nat) -> Seq<(usize, usize)>
    decreases depth, k,
{
    if k == 0 || k > child_list(c, n).len() {
        Seq::empty()
    } else {
        let ch = child_list(c, n)[k - 1];
        links_among(c, n, (k - 1) as nat, depth) + seq![(n, ch)] + if depth > 0 {
            links_below(c, ch, (depth - 1) as nat)
        } else {
            Seq::empty()
        }
    }
}

/// The links met walking from the first `k` roots, in order.
pub open spec fn links_from_roots(c: Seq<Seq<usize>>, roots: Seq<usize>, k: nat, depth: nat) -> Seq<(usize, usize)>
    decreases k,
{
    if k == 0 || k > roots.len() {
        Seq::empty()
    } else {
        links_from_roots(c, roots, (k - 1) as nat, depth) + links_below(c, roots[k - 1], depth)
    }
}

/// The links met walking every scene of the first `k`, in order.
pub open spec fn links_of_scenes(c: Seq<Seq<usize>>, scenes: Seq<Seq<usize>>, k: nat, depth: nat) -> Seq<(usize, usize)>
    decreases k,
{
    if k == 0 || k > scenes.len() {
        Seq::empty()
    } else {
        links_of_scenes(c, scenes, (k - 1) as nat, depth) + links_from_roots(
            c,
            scenes[k - 1],
            scenes[k - 1].len(),
            depth,
        )
    }
}

/// Recording each link in turn, the later record of a child replacing the earlier.
pub open spec fn record_links(m: Map<usize, usize>, links: Seq<(usize, usize)>) -> Map<usize, usize>
    decreases links.len(),
{
    if links.len() == 0 {
        m
    } else {
        record_links(m, links.drop_last()).insert(links.last().1, links.last().0)
    }
}

/// The parent recorded for each node reached from a scene: the parent of the
/// link into it met last, walking every scene's roots depth first.
pub open spec fn parent_map_spec(g: &NodeGraph) -> Map<usize, usize> {
    record_links(
        Map::empty(),
        links_of_scenes(g.children_view(), g.scenes_view(), g.scenes_view().len(), g.children_view().len()),
    )
}

proof fn lemma_record_concat(m: Map<usize, usize>, a: Seq<(usize, usize)>, b: Seq<(usize, usize)>)
    ensures
        record_links(m, a + b) == record_links(record_links(m, a), b),
    decreases b.len(),
{
    if b.len() == 0 {
        assert(a + b =~= a);
    } else {
        lemma_record_concat(m, a, b.drop_last());
        assert((a + b).drop_last() =~= a + b.drop_last());
    }
}

impl NodeGraph {
    fn visit(&self, n: usize, depth: usize, map: &mut HashMap<usize, usize>)
        ensures
            final(map)@ == record_links(old(map)@, links_below(self.children_view(), n, depth as nat)),
        decreases depth,
    {
        let ghost c = self.children_view();
        if n < self.children.len() {
            assert(child_list(c, n) == self.children@[n as int]@);
            let mut k: usize = 0;
            while k < self.children[n].len()
                invariant
                    c == self.children_view(),
                    n < self.children@.len(),
                    child_list(c, n) == self.children@[n as int]@,
                    k <= child_list(c, n).len(),
                    map@ == record_links(old(map)@, links_among(c, n, k as nat, depth as nat)),
                decreases child_list(c, n).len() - k,
            {
                let ch = self.children[n][k];
                let ghost before = links_among(c, n, k as nat, depth as nat);
                assert(ch == child_list(c, n)[k as int]);
                assert(links_among(c, n, (k + 1) as nat, depth as nat) == before + seq![(n, ch)] + if depth > 0 {
                    links_below(c, ch, (depth - 1) as nat)
                } else {
                    Seq::empty()
                });
                let ghost prev = map@;
                map.insert(ch, n);
                proof {
                    lemma_record_concat(old(map)@, before, seq![(n, ch)]);
                    let one = seq![(n, ch)];
                    assert(one.drop_last() =~= Seq::<(usize, usize)>::empty());
                    assert(one.last() == (n, ch));
                    assert(record_links(prev, one.drop_last()) == prev);
                    assert(record_links(prev, one) == prev.insert(ch, n));
                    assert(map@ == record_links(old(map)@, before + seq![(n, ch)]));
                }
                if depth > 0 {
                    self.visit(ch, depth - 1, map);
                    proof {
                        lemma_record_concat(old(map)@, before + seq![(n, ch)], links_below(c, ch, (depth - 1) as nat));
                    }
                } else {
                    assert(before + seq![(n, ch)] + Seq::<(usize, usize)>::empty() =~= before + seq![(n, ch)]);
                }
                k = k + 1;
            }
        } else {
            assert(links_below(self.children_view(), n, depth as nat) =~= Seq::<(usize, usize)>::empty());
        }
    }

    /// For every node reached from a scene's roots, the node it is listed
    /// under: walking each scene's roots depth first, every child is recorded
    /// with the node it was met under, a later record replacing an earlier
    /// one. The walk goes no deeper than there are nodes, which it only could
    /// on a cycle of child lists.
    pub fn build_parent_map(&self) -> (r: HashMap<usize, usize>)
        ensures
            r@ == parent_map_spec(self),
    {
        let ghost c = self.children_view();
        let ghost sc = self.scenes_view();
        let depth = self.children.len();
        let mut map: HashMap<usize, usize> = HashMap::new();
        assert(map@ =~= record_links(Map::empty(), links_of_scenes(c, sc, 0, depth as nat)));
        let mut s: usize = 0;
        while s < self.scenes.len()
            invariant
                c == self.children_view(),
                sc == self.scenes_view(),
                depth == self.children@.len(),
                s <= sc.len(),
                sc.len() == self.scenes@.len(),
                map@ == record_links(Map::empty(), links_of_scenes(c, sc, s as nat, depth as nat)),
            decreases sc.len() - s,
        {
            let ghost before_scene = links_of_scenes(c, sc, s as nat, depth as nat);
            assert(sc[s as int] == self.scenes@[s as int]@);
            let mut i: usize = 0;
            while i < self.scenes[s].len()
                invariant
                    c == self.children_view(),
                    sc == self.scenes_view(),
                    depth == self.children@.len(),
                    s < sc.len(),
                    sc.len() == self.scenes@.len(),
                    sc[s as int] == self.scenes@[s as int]@,
                    i <= sc[s as int].len(),
                    before_scene == links_of_scenes(c, sc, s as nat, depth as nat),
                    map@ == record_links(
                        Map::empty(),
                        before_scene + links_from_roots(c, sc[s as int], i as nat, depth as nat),
                    ),
                decreases sc[s as int].len() - i,
            {
                let r = self.scenes[s][i];
                let ghost roots_before = links_from_roots(c, sc[s as int], i as nat, depth as nat);
                self.visit(r, depth, &mut map);
                proof {
                    lemma_record_concat(Map::empty(), before_scene + roots_before, links_below(c, r, depth as nat));
                    assert(before_scene + roots_before + links_below(c, r, depth as nat) =~= before_scene
                        + links_from_roots(c, sc[s as int], (i + 1) as nat, depth as nat));
                }
                i = i + 1;
            }
            s = s + 1;
        }
        map
    }
}

/// Every link of the sequence is a real one: the child is listed under the parent.
pub open spec fn all_listed(c: Seq<Seq<usize>>, links: Seq<(usize, usize)>) -> bool {
    forall|i: int| 0 <= i < links.len() ==> #[trigger] child_list(c, links[i].0).contains(links[i].1)
}

proof fn lemma_concat_listed(c: Seq<Seq<usize>>, a: Seq<(usize, usize)>, b: Seq<(usize, usize)>)
    requires
        all_listed(c, a),
        all_listed(c, b),
    ensures
        all_listed(c, a + b),
{
    assert forall|i: int| 0 <= i < (a + b).len() implies #[trigger] child_list(c, (a + b)[i].0).contains((a + b)[i].1) by {
        if i < a.len() {
            assert((a + b)[i] == a[i]);
        } else {
            assert((a + b)[i] == b[i - a.len()]);
        }
    }
}

proof fn lemma_links_below_listed(c: Seq<Seq<usize>>, n: usize, depth: nat)
    ensures
        all_listed(c, links_below(c, n, depth)),
    decreases depth, child_list(c, n).len() + 1,
{
    lemma_links_among_listed(c, n, child_list(c, n).len(), depth);
}

proof fn lemma_links_among_listed(c: Seq<Seq<usize>>, n: usize, k: nat, depth: nat)
    ensures
        all_listed(c, links_among(c, n, k, depth)),
    decreases depth, k,
{
    if k == 0 || k > child_list(c, n).len() {
    } else {
        let ch = child_list(c, n)[k - 1];
        lemma_links_among_listed(c, n, (k - 1) as nat, depth);
        let one = seq![(n, ch)];
        assert(all_listed(c, one)) by {
            assert(child_list(c, n)[k - 1] == ch);
        }
        lemma_concat_listed(c, links_among(c, n, (k - 1) as nat, depth), one);
        let rest = if depth > 0 {
            links_below(c, ch, (depth - 1) as nat)
        } else {
            Seq::empty()
        };
        if depth > 0 {
            lemma_links_below_listed(c, ch, (depth - 1) as nat);
        }
        lemma_concat_listed(c, links_among(c, n, (k - 1) as nat, depth) + one, rest);
    }
}

proof fn lemma_roots_listed(c: Seq<Seq<usize>>, roots: Seq<usize>, k: nat, depth: nat)
    ensures
        all_listed(c, links_from_roots(c, roots, k, depth)),
    decreases k,
{
    if k > 0 && k <= roots.len() {
        lemma_roots_listed(c, roots, (k - 1) as nat, depth);
        lemma_links_below_listed(c, roots[k - 1], depth);
        lemma_concat_listed(c, links_from_roots(c, roots, (k - 1) as nat, depth), links_below(c, roots[k - 1], depth));
    }
}

proof fn lemma_scenes_listed(c: Seq<Seq<usize>>, scenes: Seq<Seq<usize>>, k: nat, depth: nat)
    ensures
        all_listed(c, links_of_scenes(c, scenes, k, depth)),
    decreases k,
{
    if k > 0 && k <= scenes.len() {
        lemma_scenes_listed(c, scenes, (k - 1) as nat, depth);
        lemma_roots_listed(c, scenes[k - 1], scenes[k - 1].len(), depth);
        lemma_concat_listed(
            c,
            links_of_scenes(c, scenes, (k - 1) as nat, depth),
            links_from_roots(c, scenes[k - 1], scenes[k - 1].len(), depth),
        );
    }
}

/// A child recorded from a sequence of links was recorded from one of them.
proof fn lemma_recorded_from(links: Seq<(usize, usize)>, x: usize)
    ensures
        record_links(Map::empty(), links).contains_key(x) ==> exists|i: int|
            0 <= i < links.len() && #[trigger] links[i] == (record_links(Map::empty(), links)[x], x),
    decreases links.len(),
{
    if links.len() > 0 {
        let t = links.drop_last();
        lemma_recorded_from(t, x);
        let m = record_links(Map::empty(), links);
        if m.contains_key(x) {
            if links.last().1 == x {
                assert(links[links.len() - 1] == (m[x], x));
            } else {
                let i = choose|i: int| 0 <= i < t.len() && #[trigger] t[i] == (record_links(Map::empty(), t)[x], x);
                assert(links[i] == t[i]);
            }
        }
    }
}

/// `x` is listed among the children of `p` and of no other node.
pub open spec fn only_listed_under(c: Seq<Seq<usize>>, x: usize, p: usize) -> bool {
    &&& child_list(c, p).contains(x)
    &&& forall|q: usize| #[trigger] child_list(c, q).contains(x) ==> q == p
}

/// Every parent the map records for a node lists that node among its
/// children; so where each node is listed under at most one node, as the
/// glTF format requires, the map gives exactly that node.
pub proof fn law_parent_map_lists_child(g: &NodeGraph, x: usize, p: usize)
    ensures
        parent_map_spec(g).contains_key(x) ==> child_list(g.children_view(), parent_map_spec(g)[x]).contains(x),
        parent_map_spec(g).contains_key(x) && only_listed_under(g.children_view(), x, p) ==> parent_map_spec(g)[x] == p,
{
    let c = g.children_view();
    let links = links_of_scenes(c, g.scenes_view(), g.scenes_view().len(), c.len());
    lemma_scenes_listed(c, g.scenes_view(), g.scenes_view().len(), c.len());
    lemma_recorded_from(links, x);
    if parent_map_spec(g).contains_key(x) {
        let i = choose|i: int| 0 <= i < links.len() && #[trigger] links[i] == (record_links(Map::empty(), links)[x], x);
        assert(child_list(c, links[i].0).contains(links[i].1));
    }
}

/// The joint position of each node of a skin (the later one, should a node
/// appear twice).
pub open spec fn joint_positions(joints: Seq<usize>) -> Map<usize, usize>
    decreases joints.len(),
{
    if joints.len() == 0 {
        Map::empty()
    } else {
        joint_positions(joints.drop_last()).insert(joints.last(), (joints.len() - 1) as usize)
    }
}

/// The bone of the `j`-th joint: its parent is the joint of the node its own
/// node is recorded under, when that node is one of the skin's joints.
pub open spec fn skin_bone(joints: Seq<usize>, parents: Map<usize, usize>, j: int) -> BoneLink {
    let node = joints[j];
    BoneLink {
        joint: j as usize,
        parent: if parents.contains_key(node) && joint_positions(joints).contains_key(parents[node]) {
            Some(joint_positions(joints)[parents[node]])
        } else {
            None
        },
    }
}

/// The bones of a skin with joints at the given nodes, in joint order, given
/// each node's recorded parent node.
pub fn skin_bone_links(joints: &Vec<usize>, parents: &HashMap<usize, usize>) -> (r: Vec<BoneLink>)
    ensures
        r@.len() == joints@.len(),
        forall|j: int| 0 <= j < r@.len() ==> #[trigger] r@[j] == skin_bone(joints@, parents@, j),
        distinct_joints(r@),
{
    let mut positions: HashMap<usize, usize> = HashMap::new();
    let mut j: usize = 0;
    while j < joints.len()
        invariant
            j <= joints@.len(),
            positions@ == joint_positions(joints@.subrange(0, j as int)),
        decreases joints@.len() - j,
    {
        assert(joints@.subrange(0, j + 1).drop_last() =~= joints@.subrange(0, j as int));
        positions.insert(joints[j], j);
        j = j + 1;
    }
    assert(joints@.subrange(0, joints@.len() as int) =~= joints@);
    let mut r: Vec<BoneLink> = Vec::new();
    let mut j: usize = 0;
    while j < joints.len()
        invariant
            j <= joints@.len(),
            positions@ == joint_positions(joints@),
            r@.len() == j,
            forall|i: int| 0 <= i < j ==> #[trigger] r@[i] == skin_bone(joints@, parents@, i),
        decreases joints@.len() - j,
    {
        let parent = match parents.get(&joints[j]) {
            Some(pn) => match positions.get(pn) {
                Some(pj) => Some(*pj),
                None => None,
            },
            None => None,
        };
        r.push(BoneLink { joint: j, parent });
        j = j + 1;
    }
    r
}

} // verus!
