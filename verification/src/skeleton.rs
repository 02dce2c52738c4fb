use vstd::prelude::*;

use std::collections::HashMap;

use crate::text::str_eq;

verus! {

broadcast use vstd::std_specs::hash::group_hash_axioms;

/// Where a bone of a skin sits: its joint index in the source file and the
/// joint index of its parent, if any.
#[derive(Clone, Copy, Debug, PartialEq, Eq, Structural)]
pub struct BoneLink {
    pub joint: usize,
    pub parent: Option<usize>,
}

/// No two bones share a joint index.
pub open spec fn distinct_joints(b: Seq<BoneLink>) -> bool {
    forall|i: int, j: int| 0 <= i < j < b.len() ==> #[trigger] b[i].joint != #[trigger] b[j].joint
}

/// Positions, in order, among the first `n` bones whose parent is `joint`.
pub open spec fn children_upto(b: Seq<BoneLink>, joint: usize, n: nat) -> Seq<usize>
    decreases n,
{
    if n == 0 {
        Seq::empty()
    } else {
        let r = children_upto(b, joint, (n - 1) as nat);
        if b[n - 1].parent == Some(joint) {
            r.push((n - 1) as usize)
        } else {
            r
        }
    }
}

/// Some bone of the skin has joint index `j`.
pub open spec fn has_joint(b: Seq<BoneLink>, j: usize) -> bool {
    exists|k: int| 0 <= k < b.len() && b[k].joint == j
}

/// Bone `i` starts a tree: it has no parent, or its parent is no bone of the skin.
pub open spec fn starts_tree(b: Seq<BoneLink>, i: int) -> bool {
    match b[i].parent {
        None => true,
        Some(pj) => !has_joint(b, pj),
    }
}

/// Bone `c` names joint `j` as its parent.
pub open spec fn is_child_of(b: Seq<BoneLink>, c: int, j: usize) -> bool {
    b[c].parent == Some(j)
}

/// The position of the parent of bone `i`, where it is a bone of the skin.
pub open spec fn parent_pos(b: Seq<BoneLink>, i: int) -> int {
    choose|k: int| 0 <= k < b.len() && b[k].joint == b[i].parent->0
}

/// Following parent links from bone `i` meets a bone that starts a tree
/// within `fuel` steps.
pub open spec fn leads_to_start(b: Seq<BoneLink>, i: int, fuel: nat) -> bool
    decreases fuel,
{
    starts_tree(b, i) || (fuel > 0 && leads_to_start(b, parent_pos(b, i), (fuel - 1) as nat))
}

/// No bone lies on a cycle of parent links: from every bone, following its
/// parents ends at a bone that starts a tree.
pub open spec fn no_parent_cycle(b: Seq<BoneLink>) -> bool {
    forall|i: int| 0 <= i < b.len() ==> #[trigger] leads_to_start(b, i, b.len())
}

/// Positions, in order, among the first `n` bones that start a tree.
pub open spec fn roots_upto(b: Seq<BoneLink>, n: nat) -> Seq<usize>
    decreases n,
{
    if n == 0 {
        Seq::empty()
    } else {
        let r = roots_upto(b, (n - 1) as nat);
        if starts_tree(b, n - 1) {
            r.push((n - 1) as usize)
        } else {
            r
        }
    }
}

/// Breadth-first traversal from the bones waiting in `queue`: each bone taken
/// from the front is appended to `order` and its children join the back.
pub open spec fn bfs_order(b: Seq<BoneLink>, order: Seq<usize>, queue: Seq<usize>, fuel: nat) -> Seq<usize>
    decreases fuel,
{
    if fuel == 0 || queue.len() == 0 {
        order
    } else {
        let p = queue[0];
        bfs_order(
            b,
            order.push(p),
            queue.drop_first() + children_upto(b, b[p as int].joint, b.len()),
            (fuel - 1) as nat,
        )
    }
}

/// Positions below `n` missing from `order`, in increasing order.
pub open spec fn missing_upto(order: Seq<usize>, n: nat) -> Seq<usize>
    decreases n,
{
    if n == 0 {
        Seq::empty()
    } else {
        let r = missing_upto(order, (n - 1) as nat);
        if order.contains((n - 1) as usize) {
            r
        } else {
            r.push((n - 1) as usize)
        }
    }
}

/// The bones reached from the roots, breadth first.
pub open spec fn reached_order(b: Seq<BoneLink>) -> Seq<usize> {
    bfs_order(b, Seq::empty(), roots_upto(b, b.len()), b.len() + 1)
}

/// The sorted order: the bones reached from the roots, breadth first, then
/// the bones no root reaches, by position.
pub open spec fn sorted_order(b: Seq<BoneLink>) -> Seq<usize> {
    reached_order(b) + missing_upto(reached_order(b), b.len())
}

/// Positions `i` among the first `m` whose new parent is `k`.
pub open spec fn children_of_index(parents: Seq<Option<usize>>, k: usize, m: nat) -> Seq<usize>
    decreases m,
{
    if m == 0 {
        Seq::empty()
    } else {
        let r = children_of_index(parents, k, (m - 1) as nat);
        if parents[m - 1] == Some(k) {
            r.push((m - 1) as usize)
        } else {
            r
        }
    }
}

/// The result of sorting bones: the new order (positions in the input), the
/// joint-to-new-index map, and each bone's new parent and children.
pub struct SortedBones {
    pub order: Vec<usize>,
    pub old_to_new: HashMap<usize, usize>,
    pub parents: Vec<Option<usize>>,
    pub children: Vec<Vec<usize>>,
}

/// A bone of a skeleton, as far as the hierarchy goes: its name and the index
/// of its parent bone (`None` for a root).
pub struct BoneInfo {
    pub name: String,
    pub parent: Option<usize>,
}

/// A skeleton's bones in topological order (a parent's index below its
/// child's) and the index of its root bone.
pub struct SkeletonInfo {
    pub name: String,
    pub bones: Vec<BoneInfo>,
    pub root_bone: usize,
}

impl SkeletonInfo {
    /// The number of bones.
    pub fn bone_count(&self) -> (n: usize)
        ensures
            n == self.bones@.len(),
    {
        self.bones.len()
    }

    /// The index of the first bone named `name`, if any.
    pub fn find_bone(&self, name: &str) -> (r: Option<usize>)
        ensures
            r matches Some(i) ==> i < self.bones@.len() && self.bones@[i as int].name@ == name@ && forall|j: int|
                0 <= j < i ==> #[trigger] self.bones@[j].name@ != name@,
            r is None ==> forall|j: int| 0 <= j < self.bones@.len() ==> #[trigger] self.bones@[j].name@ != name@,
    {
        let mut i: usize = 0;
        while i < self.bones.len()
            invariant
                i <= self.bones@.len(),
                forall|j: int| 0 <= j < i ==> #[trigger] self.bones@[j].name@ != name@,
            decreases self.bones.len() - i,
        {
            if str_eq(self.bones[i].name.as_str(), name) {
                return Some(i);
            }
            i = i + 1;
        }
        None
    }
}

proof fn lemma_children_upto(b: Seq<BoneLink>, joint: usize, n: nat)
    requires
        n <= b.len(),
        b.len() <= usize::MAX,
    ensures
        forall|k: int| 0 <= k < children_upto(b, joint, n).len() ==> {
            let c = #[trigger] children_upto(b, joint, n)[k];
            &&& (c as int) < n
            &&& b[c as int].parent == Some(joint)
        },
        forall|a: int, c: int|
            0 <= a < c < children_upto(b, joint, n).len() ==> #[trigger] children_upto(b, joint, n)[a]
                < #[trigger] children_upto(b, joint, n)[c],
        forall|c: int| 0 <= c < n && #[trigger] is_child_of(b, c, joint) ==> children_upto(b, joint, n).contains(c as usize),
    decreases n,
{
    if n > 0 {
        lemma_children_upto(b, joint, (n - 1) as nat);
        let r = children_upto(b, joint, (n - 1) as nat);
        let t = children_upto(b, joint, n);
        assert forall|c: int| 0 <= c < n && #[trigger] is_child_of(b, c, joint) implies t.contains(c as usize) by {
            if c < n - 1 {
                let k = choose|k: int| 0 <= k < r.len() && r[k] == c as usize;
                assert(t[k] == r[k]);
            } else {
                assert(t[r.len() as int] == c as usize);
            }
        }
        assert forall|k: int| 0 <= k < t.len() implies (#[trigger] t[k] as int) < n && b[t[k] as int].parent == Some(joint) by {
            if k < r.len() {
                assert(t[k] == r[k]);
            }
        }
        assert forall|a: int, c: int| 0 <= a < c < t.len() implies #[trigger] t[a] < #[trigger] t[c] by {
            assert(t[a] == r[a]);
            if c < r.len() {
                assert(t[c] == r[c]);
            }
        }
    }
}

proof fn lemma_roots_upto(b: Seq<BoneLink>, n: nat)
    requires
        n <= b.len(),
        b.len() <= usize::MAX,
    ensures
        forall|k: int| 0 <= k < roots_upto(b, n).len() ==> {
            let c = #[trigger] roots_upto(b, n)[k];
            &&& (c as int) < n
            &&& starts_tree(b, c as int)
        },
        forall|a: int, c: int|
            0 <= a < c < roots_upto(b, n).len() ==> #[trigger] roots_upto(b, n)[a] < #[trigger] roots_upto(b, n)[c],
        forall|c: int| 0 <= c < n && #[trigger] starts_tree(b, c) ==> roots_upto(b, n).contains(c as usize),
    decreases n,
{
    if n > 0 {
        lemma_roots_upto(b, (n - 1) as nat);
        let r = roots_upto(b, (n - 1) as nat);
        let t = roots_upto(b, n);
        assert forall|c: int| 0 <= c < n && #[trigger] starts_tree(b, c) implies t.contains(c as usize) by {
            if c < n - 1 {
                let k = choose|k: int| 0 <= k < r.len() && r[k] == c as usize;
                assert(t[k] == r[k]);
            } else {
                assert(t[r.len() as int] == c as usize);
            }
        }
        assert forall|k: int| 0 <= k < t.len() implies (#[trigger] t[k] as int) < n && starts_tree(b, t[k] as int) by {
            if k < r.len() {
                assert(t[k] == r[k]);
            }
        }
        assert forall|a: int, c: int| 0 <= a < c < t.len() implies #[trigger] t[a] < #[trigger] t[c] by {
            assert(t[a] == r[a]);
            if c < r.len() {
                assert(t[c] == r[c]);
            }
        }
    }
}

/// What the traversal keeps true: the bones handed out or waiting are
/// distinct valid positions, and every one of them with a parent has that
/// parent among the bones handed out.
spec fn traversal_ok(b: Seq<BoneLink>, order: Seq<usize>, pending: Seq<usize>) -> bool {
    let all = order + pending;
    &&& forall|a: int, c: int| 0 <= a < c < all.len() ==> #[trigger] all[a] != #[trigger] all[c]
    &&& forall|k: int| 0 <= k < all.len() ==> (#[trigger] all[k] as int) < b.len()
    &&& forall|k: int|
        0 <= k < all.len() && !starts_tree(b, all[k] as int) ==> #[trigger] parent_handed_out(b, order, all[k])
}

/// Nothing is left behind: every bone that starts a tree, and every child of
/// a bone handed out, is handed out or waiting.
spec fn traversal_complete(b: Seq<BoneLink>, order: Seq<usize>, pending: Seq<usize>) -> bool {
    let all = order + pending;
    &&& forall|c: int| 0 <= c < b.len() && #[trigger] starts_tree(b, c) ==> all.contains(c as usize)
    &&& forall|q: int, c: int|
        0 <= q < order.len() && 0 <= c < b.len() && #[trigger] is_child_of(b, c, b[#[trigger] order[q] as int].joint)
            ==> all.contains(c as usize)
}

/// The parent of bone `x` is among the bones of `order`.
spec fn parent_handed_out(b: Seq<BoneLink>, order: Seq<usize>, x: usize) -> bool {
    exists|q: int| 0 <= q < order.len() && b[order[q] as int].joint == b[x as int].parent->0
}

/// Every bone of `order` whose parent is a bone of the skin comes after that parent.
pub open spec fn parents_first(b: Seq<BoneLink>, order: Seq<usize>) -> bool {
    forall|k: int|
        0 <= k < order.len() && !starts_tree(b, order[k] as int) ==> exists|i: int|
            0 <= i < k && b[order[i] as int].joint == #[trigger] b[order[k] as int].parent->0
}

/// Whether some bone has joint index `j`.
fn joint_present(bones: &Vec<BoneLink>, j: usize) -> (r: bool)
    ensures
        r == has_joint(bones@, j),
{
    let mut i: usize = 0;
    while i < bones.len()
        invariant
            i <= bones@.len(),
            forall|k: int| 0 <= k < i ==> bones@[k].joint != j,
        decreases bones.len() - i,
    {
        if bones[i].joint == j {
            return true;
        }
        i = i + 1;
    }
    false
}

/// Reorders the bones of a skin so that every bone comes after its parent: a
/// bone without a parent, or whose parent is no bone of the skin, starts a
/// tree; the trees are walked breadth first from their first bones (in
/// position order), then the bones on a cycle of parent links follow, by
/// position. Returns the order, the map from joint index to new index, and
/// each bone's new parent (`None` for a bone that starts a tree) and children.
/// Where no bone lies on a cycle, every new parent index is below its child's.
pub fn topological_sort_bones(bones: &Vec<BoneLink>) -> (r: SortedBones)
    requires
        distinct_joints(bones@),
    ensures
        r.order@ == sorted_order(bones@),
        parents_first(bones@, reached_order(bones@)),
        reached_order(bones@).len() <= bones@.len(),
        forall|k: int|
            0 <= k < reached_order(bones@).len() ==> (#[trigger] r.parents@[k] matches Some(q) ==> q < k),
        no_parent_cycle(bones@) ==> reached_order(bones@).len() == bones@.len(),
        r.order@.len() == bones@.len(),
        forall|a: int, c: int| 0 <= a < c < r.order@.len() ==> #[trigger] r.order@[a] != #[trigger] r.order@[c],
        forall|k: int| 0 <= k < r.order@.len() ==> (#[trigger] r.order@[k] as int) < bones@.len(),
        forall|i: int| 0 <= i < bones@.len() ==> #[trigger] r.old_to_new@.contains_key(bones@[i].joint),
        forall|j: usize| #[trigger] r.old_to_new@.contains_key(j) ==> exists|i: int| 0 <= i < bones@.len() && bones@[i].joint == j,
        forall|k: int| 0 <= k < r.order@.len() ==> r.old_to_new@[#[trigger] bones@[r.order@[k] as int].joint] == k,
        r.parents@.len() == bones@.len(),
        forall|k: int| 0 <= k < r.parents@.len() ==> #[trigger] r.parents@[k] == match bones@[r.order@[k] as int].parent {
            Some(pj) => if r.old_to_new@.contains_key(pj) {
                Some(r.old_to_new@[pj])
            } else {
                None
            },
            None => None,
        },
        r.children@.len() == bones@.len(),
        forall|k: int| 0 <= k < r.children@.len() ==> (#[trigger] r.children@[k])@ == children_of_index(r.parents@, k as usize, bones@.len()),
{
    let n = bones.len();
    let ghost b = bones@;
    // the roots, by position
    let mut queue: Vec<usize> = Vec::new();
    let mut pos: usize = 0;
    while pos < n
        invariant
            pos <= n == b.len(),
            b == bones@,
            queue@ == roots_upto(b, pos as nat),
        decreases n - pos,
    {
        let starts = match bones[pos].parent {
            None => true,
            Some(pj) => !joint_present(bones, pj),
        };
        if starts {
            queue.push(pos);
        }
        pos = pos + 1;
    }
    proof {
        lemma_roots_upto(b, n as nat);
        assert(queue@.skip(0) == queue@);
        let all = Seq::<usize>::empty() + queue@;
        assert(all =~= queue@);
    }
    let mut order: Vec<usize> = Vec::new();
    let mut head: usize = 0;
    while head < queue.len()
        invariant
            n == b.len(),
            b == bones@,
            distinct_joints(b),
            head <= queue@.len(),
            order@.len() <= n,
            bfs_order(b, order@, queue@.skip(head as int), (n + 1 - order@.len()) as nat) == reached_order(b),
            traversal_ok(b, order@, queue@.skip(head as int)),
            traversal_complete(b, order@, queue@.skip(head as int)),
            parents_first(b, order@),
        decreases n + 1 - order@.len(),
    {
        let ghost pending = queue@.skip(head as int);
        let ghost old_order = order@;
        let p = queue[head];
        head = head + 1;
        assert(pending[0] == p);
        proof {
            let all = old_order + pending;
            assert(all[old_order.len() as int] == p);
        }
        assert(pending.drop_first() =~= queue@.skip(head as int));
        order.push(p);
        let pj = bones[p].joint;
        let ghost base_queue = queue@;
        let mut c: usize = 0;
        while c < n
            invariant
                n == b.len(),
                b == bones@,
                c <= n,
                (p as int) < n,
                pj == b[p as int].joint,
                queue@ == base_queue + children_upto(b, pj, c as nat),
            decreases n - c,
        {
            let is_child = match bones[c].parent {
                Some(x) => x == pj,
                None => false,
            };
            if is_child {
                queue.push(c);
            }
            c = c + 1;
            assert(queue@ =~= base_queue + children_upto(b, pj, c as nat));
        }
        proof {
            let kids = children_upto(b, pj, n as nat);
            lemma_children_upto(b, pj, n as nat);
            let new_pending = queue@.skip(head as int);
            assert(new_pending =~= pending.drop_first() + kids);
            // the traversal step
            assert((n + 1 - old_order.len()) as nat > 0);
            assert(bfs_order(b, old_order, pending, (n + 1 - old_order.len()) as nat) == bfs_order(
                b,
                order@,
                new_pending,
                (n + 1 - order@.len()) as nat,
            ));
            lemma_traversal_step(b, old_order, pending, p, kids);
            lemma_distinct_within_n(order@ + new_pending, n as nat);
        }
    }
    assert(queue@.skip(head as int) =~= Seq::<usize>::empty());
    let ghost reached = order@;
    assert(reached == reached_order(b));
    proof {
        assert(reached + Seq::<usize>::empty() =~= reached);
        lemma_distinct_within_n(reached, n as nat);
        if no_parent_cycle(b) {
            lemma_all_reached(b, reached);
        }
    }
    // the bones no root reaches, by position
    let mut pos: usize = 0;
    while pos < n
        invariant
            n == b.len(),
            b == bones@,
            pos <= n,
            order@ == reached + missing_upto(reached, pos as nat),
            forall|k: int| 0 <= k < missing_upto(reached, pos as nat).len() ==> (#[trigger] missing_upto(reached, pos as nat)[k] as int) < pos,
        decreases n - pos,
    {
        let mut found = false;
        let mut k: usize = 0;
        while k < order.len()
            invariant
                k <= order@.len(),
                found == order@.subrange(0, k as int).contains(pos),
            decreases order@.len() - k,
        {
            if order[k] == pos {
                found = true;
            }
            proof {
                let s1 = order@.subrange(0, k + 1);
                let s0 = order@.subrange(0, k as int);
                assert(s1 =~= s0.push(order@[k as int]));
                assert(s1.contains(pos) == (s0.contains(pos) || order@[k as int] == pos)) by {
                    if s1.contains(pos) && !s0.contains(pos) {
                        let q = choose|q: int| 0 <= q < s1.len() && s1[q] == pos;
                        if q < k {
                            assert(s0[q] == pos);
                        }
                    }
                    if s0.contains(pos) {
                        let q = choose|q: int| 0 <= q < s0.len() && s0[q] == pos;
                        assert(s1[q] == pos);
                    }
                    if order@[k as int] == pos {
                        assert(s1[k as int] == pos);
                    }
                }
            }
            k = k + 1;
        }
        proof {
            assert(order@.subrange(0, order@.len() as int) =~= order@);
            let m = missing_upto(reached, pos as nat);
            assert(order@.contains(pos) == reached.contains(pos)) by {
                if order@.contains(pos) && !reached.contains(pos) {
                    let q = choose|q: int| 0 <= q < order@.len() && order@[q] == pos;
                    assert(q >= reached.len());
                    assert(m[q - reached.len()] == pos);
                }
                if reached.contains(pos) {
                    let q = choose|q: int| 0 <= q < reached.len() && reached[q] == pos;
                    assert(order@[q] == pos);
                }
            }
        }
        if !found {
            order.push(pos);
        }
        pos = pos + 1;
        assert(order@ =~= reached + missing_upto(reached, pos as nat));
    }
    proof {
        lemma_sorted_facts(b, reached);
    }
    // joint index -> new index
    let mut old_to_new: HashMap<usize, usize> = HashMap::new();
    let mut i: usize = 0;
    while i < n
        invariant
            n == b.len(),
            b == bones@,
            distinct_joints(b),
            order@ == sorted_order(b),
            order@.len() == n,
            forall|a: int, c: int| 0 <= a < c < order@.len() ==> #[trigger] order@[a] != #[trigger] order@[c],
            forall|k: int| 0 <= k < order@.len() ==> (#[trigger] order@[k] as int) < n,
            i <= n,
            forall|k: int| 0 <= k < i ==> #[trigger] old_to_new@.contains_key(b[order@[k] as int].joint),
            forall|k: int| 0 <= k < i ==> old_to_new@[#[trigger] b[order@[k] as int].joint] == k,
            forall|j: usize| #[trigger] old_to_new@.contains_key(j) ==> exists|k: int| 0 <= k < i && b[order@[k] as int].joint == j,
        decreases n - i,
    {
        let j = bones[order[i]].joint;
        old_to_new.insert(j, i);
        proof {
            assert forall|k: int| 0 <= k < i implies old_to_new@[#[trigger] b[order@[k] as int].joint] == k by {
                assert(order@[k] != order@[i as int]);
                if b[order@[k] as int].joint == j {
                    if (order@[k] as int) < (order@[i as int] as int) {
                        assert(b[order@[k] as int].joint != b[order@[i as int] as int].joint);
                    } else {
                        assert(b[order@[i as int] as int].joint != b[order@[k] as int].joint);
                    }
                }
            }
        }
        i = i + 1;
    }
    proof {
        assert forall|x: int| 0 <= x < b.len() implies #[trigger] old_to_new@.contains_key(b[x].joint) by {
            assert(order@.contains(x as usize));
            let k = choose|k: int| 0 <= k < order@.len() && order@[k] == x as usize;
            assert(old_to_new@.contains_key(b[order@[k] as int].joint));
        }
    }
    // new parents
    let mut parents: Vec<Option<usize>> = Vec::new();
    let mut i: usize = 0;
    while i < n
        invariant
            n == b.len(),
            b == bones@,
            order@.len() == n,
            forall|k: int| 0 <= k < order@.len() ==> (#[trigger] order@[k] as int) < n,
            i <= n,
            parents@.len() == i,
            forall|k: int| 0 <= k < i ==> #[trigger] parents@[k] == match b[order@[k] as int].parent {
                Some(pj) => if old_to_new@.contains_key(pj) {
                    Some(old_to_new@[pj])
                } else {
                    None
                },
                None => None,
            },
        decreases n - i,
    {
        let np = match bones[order[i]].parent {
            Some(pj) => match old_to_new.get(&pj) {
                Some(v) => Some(*v),
                None => None,
            },
            None => None,
        };
        parents.push(np);
        i = i + 1;
    }
    proof {
        assert forall|k: int| 0 <= k < reached.len() implies (#[trigger] parents@[k] matches Some(q) ==> q < k) by {
            assert(order@[k] == reached[k]);
            if let Some(q) = parents@[k] {
                let pj = b[order@[k] as int].parent->0;
                assert(old_to_new@.contains_key(pj));
                let w = choose|w: int| 0 <= w < n && b[order@[w] as int].joint == pj;
                assert(has_joint(b, pj)) by {
                    assert(b[order@[w] as int].joint == pj);
                }
                assert(!starts_tree(b, reached[k] as int));
                let i = choose|i: int| 0 <= i < k && b[reached[i] as int].joint == #[trigger] b[reached[k] as int].parent->0;
                assert(order@[i] == reached[i]);
                assert(old_to_new@[b[order@[i] as int].joint] == i);
            }
        }
    }
    // new children
    let mut children: Vec<Vec<usize>> = Vec::new();
    let mut k: usize = 0;
    while k < n
        invariant
            n == b.len(),
            parents@.len() == n,
            k <= n,
            children@.len() == k,
            forall|q: int| 0 <= q < k ==> (#[trigger] children@[q])@ == children_of_index(parents@, q as usize, n as nat),
        decreases n - k,
    {
        let mut ch: Vec<usize> = Vec::new();
        let mut i: usize = 0;
        while i < n
            invariant
                n == parents@.len(),
                i <= n,
                ch@ == children_of_index(parents@, k, i as nat),
            decreases n - i,
        {
            let is_child = match parents[i] {
                Some(x) => x == k,
                None => false,
            };
            if is_child {
                ch.push(i);
            }
            i = i + 1;
        }
        children.push(ch);
        k = k + 1;
    }
    SortedBones { order, old_to_new, parents, children }
}

proof fn lemma_distinct_within_n(s: Seq<usize>, n: nat)
    requires
        forall|a: int, c: int| 0 <= a < c < s.len() ==> #[trigger] s[a] != #[trigger] s[c],
        forall|k: int| 0 <= k < s.len() ==> (#[trigger] s[k] as int) < n,
    ensures
        s.len() <= n,
{
    let u = Seq::new(n, |i: int| i as usize);
    assert(s.no_duplicates()) by {
        assert forall|a: int, c: int| 0 <= a < s.len() && 0 <= c < s.len() && a != c implies s[a] != s[c] by {
            if a < c {
                assert(s[a] != s[c]);
            } else {
                assert(s[c] != s[a]);
            }
        }
    }
    s.unique_seq_to_set();
    u.lemma_cardinality_of_set();
    assert(s.to_set().subset_of(u.to_set())) by {
        assert forall|x: usize| s.to_set().contains(x) implies u.to_set().contains(x) by {
            let k = choose|k: int| 0 <= k < s.len() && s[k] == x;
            assert(u[x as int] == x);
        }
    }
    vstd::set_lib::lemma_len_subset(s.to_set(), u.to_set());
}

/// One traversal step keeps the traversal invariant and the parents-first property.
proof fn lemma_traversal_step(b: Seq<BoneLink>, order: Seq<usize>, pending: Seq<usize>, p: usize, kids: Seq<usize>)
    requires
        distinct_joints(b),
        pending.len() > 0,
        pending[0] == p,
        traversal_ok(b, order, pending),
        traversal_complete(b, order, pending),
        parents_first(b, order),
        forall|k: int| 0 <= k < kids.len() ==> {
            let c = #[trigger] kids[k];
            &&& (c as int) < b.len()
            &&& b[c as int].parent == Some(b[p as int].joint)
        },
        forall|a: int, c: int| 0 <= a < c < kids.len() ==> #[trigger] kids[a] < #[trigger] kids[c],
        forall|c: int| 0 <= c < b.len() && #[trigger] is_child_of(b, c, b[p as int].joint) ==> kids.contains(c as usize),
    ensures
        traversal_ok(b, order.push(p), pending.drop_first() + kids),
        traversal_complete(b, order.push(p), pending.drop_first() + kids),
        parents_first(b, order.push(p)),
{
    let all = order + pending;
    let o2 = order.push(p);
    let p2 = pending.drop_first() + kids;
    let all2 = o2 + p2;
    assert(all[order.len() as int] == p);
    assert((p as int) < b.len());
    assert(has_joint(b, b[p as int].joint));
    let pl = pending.len() as int;
    // the old part of the new sequence is the old sequence
    assert forall|k: int| 0 <= k < all.len() implies all2[k] == all[k] by {
        if k < order.len() {
        } else if k == order.len() {
        } else {
            assert(all2[k] == p2[k - order.len() - 1]);
            assert(p2[k - order.len() - 1] == pending[k - order.len()]);
        }
    }
    assert(all2.len() == all.len() + kids.len());
    // a child of p was not handed out or waiting before: its parent is p, which was only waiting
    assert forall|k: int, x: int| 0 <= k < kids.len() && 0 <= x < all.len() implies #[trigger] kids[k] != #[trigger] all[x] by {
        if kids[k] == all[x] {
            assert(!starts_tree(b, all[x] as int));
            assert(parent_handed_out(b, order, all[x]));
            let q = choose|q: int| 0 <= q < order.len() && b[order[q] as int].joint == b[all[x] as int].parent->0;
            assert(b[order[q] as int].joint == b[p as int].joint);
            assert(all[q] == order[q]);
            assert((order[q] as int) < b.len());
            assert((p as int) < b.len());
            if order[q] != p {
                if (order[q] as int) < (p as int) {
                    assert(b[order[q] as int].joint != b[p as int].joint);
                } else {
                    assert(b[p as int].joint != b[order[q] as int].joint);
                }
            }
            assert(all[q] == all[order.len() as int]);
        }
    }
    assert forall|a: int, c: int| 0 <= a < c < all2.len() implies #[trigger] all2[a] != #[trigger] all2[c] by {
        if c < all.len() {
            assert(all[a] != all[c]);
        } else if a < all.len() {
            assert(all2[c] == kids[c - all.len()]);
            assert(kids[c - all.len()] != all[a]);
        } else {
            assert(all2[a] == kids[a - all.len()] && all2[c] == kids[c - all.len()]);
        }
    }
    assert forall|k: int| 0 <= k < all2.len() implies (#[trigger] all2[k] as int) < b.len() by {
        if k < all.len() {
            assert((all[k] as int) < b.len());
        } else {
            assert(all2[k] == kids[k - all.len()]);
        }
    }
    // whatever was handed out or waiting still is
    assert forall|x: usize| all.contains(x) implies all2.contains(x) by {
        let k = choose|k: int| 0 <= k < all.len() && all[k] == x;
        assert(all2[k] == all[k]);
    }
    assert forall|c: int| 0 <= c < b.len() && #[trigger] starts_tree(b, c) implies all2.contains(c as usize) by {
        assert(all.contains(c as usize));
    }
    assert forall|q: int, c: int|
        0 <= q < o2.len() && 0 <= c < b.len() && #[trigger] is_child_of(b, c, b[#[trigger] o2[q] as int].joint)
            implies all2.contains(c as usize) by {
        if q < order.len() {
            assert(o2[q] == order[q]);
            assert(all.contains(c as usize));
        } else {
            assert(o2[q] == p);
            assert(kids.contains(c as usize));
            let k = choose|k: int| 0 <= k < kids.len() && kids[k] == c as usize;
            assert(all2[all.len() + k] == kids[k]);
        }
    }
    assert forall|k: int|
        0 <= k < all2.len() && !starts_tree(b, all2[k] as int) implies #[trigger] parent_handed_out(b, o2, all2[k]) by {
        if k < all.len() {
            assert(parent_handed_out(b, order, all[k]));
            let q = choose|q: int| 0 <= q < order.len() && b[order[q] as int].joint == b[all[k] as int].parent->0;
            assert(o2[q] == order[q]);
        } else {
            assert(all2[k] == kids[k - all.len()]);
            assert(o2[order.len() as int] == p);
        }
    }
    assert forall|k: int|
        0 <= k < o2.len() && !starts_tree(b, o2[k] as int) implies exists|i: int|
            0 <= i < k && b[o2[i] as int].joint == #[trigger] b[o2[k] as int].parent->0 by {
        if k < order.len() {
            assert(o2[k] == order[k]);
            let i = choose|i: int| 0 <= i < k && b[order[i] as int].joint == #[trigger] b[order[k] as int].parent->0;
            assert(o2[i] == order[i]);
        } else {
            assert(o2[k] == p);
            assert(parent_handed_out(b, order, all[order.len() as int]));
            let q = choose|q: int| 0 <= q < order.len() && b[order[q] as int].joint == b[p as int].parent->0;
            assert(o2[q] == order[q]);
        }
    }
}

/// A finished traversal that left nothing behind holds every bone from which
/// following parents leads to a bone that starts a tree.
proof fn lemma_reached_from(b: Seq<BoneLink>, order: Seq<usize>, i: int, fuel: nat)
    requires
        traversal_complete(b, order, Seq::empty()),
        b.len() <= usize::MAX,
        0 <= i < b.len(),
        leads_to_start(b, i, fuel),
    ensures
        order.contains(i as usize),
    decreases fuel,
{
    assert(order + Seq::<usize>::empty() =~= order);
    if !starts_tree(b, i) {
        let pj = b[i].parent->0;
        let k = parent_pos(b, i);
        assert(has_joint(b, pj));
        assert(0 <= k < b.len() && b[k].joint == pj);
        lemma_reached_from(b, order, k, (fuel - 1) as nat);
        let q = choose|q: int| 0 <= q < order.len() && order[q] == k as usize;
        assert(is_child_of(b, i, b[order[q] as int].joint));
    }
}

/// Without a cycle of parent links, the traversal reaches every bone.
proof fn lemma_all_reached(b: Seq<BoneLink>, reached: Seq<usize>)
    requires
        no_parent_cycle(b),
        b.len() <= usize::MAX,
        traversal_complete(b, reached, Seq::empty()),
        forall|a: int, c: int| 0 <= a < c < reached.len() ==> #[trigger] reached[a] != #[trigger] reached[c],
        forall|k: int| 0 <= k < reached.len() ==> (#[trigger] reached[k] as int) < b.len(),
    ensures
        reached.len() == b.len(),
{
    assert forall|x: usize| (x as int) < b.len() implies #[trigger] reached.contains(x) by {
        assert(leads_to_start(b, x as int, b.len()));
        lemma_reached_from(b, reached, x as int, b.len());
    }
    lemma_missing_upto(reached, b.len());
    let m = missing_upto(reached, b.len());
    if m.len() > 0 {
        assert(!reached.contains(m[0]));
    }
    assert(reached + m =~= reached);
    lemma_sorted_facts(b, reached);
}

proof fn lemma_missing_upto(order: Seq<usize>, m: nat)
    requires
        m <= usize::MAX,
    ensures
        forall|k: int| 0 <= k < missing_upto(order, m).len() ==> {
            let x = #[trigger] missing_upto(order, m)[k];
            &&& (x as int) < m
            &&& !order.contains(x)
        },
        forall|a: int, c: int|
            0 <= a < c < missing_upto(order, m).len() ==> #[trigger] missing_upto(order, m)[a]
                < #[trigger] missing_upto(order, m)[c],
        forall|x: usize| (x as int) < m && !order.contains(x) ==> #[trigger] missing_upto(order, m).contains(x),
    decreases m,
{
    if m > 0 {
        lemma_missing_upto(order, (m - 1) as nat);
        let r = missing_upto(order, (m - 1) as nat);
        let t = missing_upto(order, m);
        assert forall|k: int| 0 <= k < t.len() implies (#[trigger] t[k] as int) < m && !order.contains(t[k]) by {
            if k < r.len() {
                assert(t[k] == r[k]);
            }
        }
        assert forall|a: int, c: int| 0 <= a < c < t.len() implies #[trigger] t[a] < #[trigger] t[c] by {
            assert(t[a] == r[a]);
            if c < r.len() {
                assert(t[c] == r[c]);
            }
        }
        assert forall|x: usize| (x as int) < m && !order.contains(x) implies #[trigger] missing_upto(order, m).contains(x) by {
            if (x as int) < m - 1 {
                assert(r.contains(x));
                let k = choose|k: int| 0 <= k < r.len() && r[k] == x;
                assert(missing_upto(order, m)[k] == x);
            } else {
                assert(missing_upto(order, m)[r.len() as int] == x);
            }
        }
    }
}

/// The reached bones followed by the missing ones list every position once.
proof fn lemma_sorted_facts(b: Seq<BoneLink>, reached: Seq<usize>)
    requires
        b.len() <= usize::MAX,
        forall|a: int, c: int| 0 <= a < c < reached.len() ==> #[trigger] reached[a] != #[trigger] reached[c],
        forall|k: int| 0 <= k < reached.len() ==> (#[trigger] reached[k] as int) < b.len(),
    ensures
        ({
            let s = reached + missing_upto(reached, b.len());
            &&& forall|a: int, c: int| 0 <= a < c < s.len() ==> #[trigger] s[a] != #[trigger] s[c]
            &&& forall|k: int| 0 <= k < s.len() ==> (#[trigger] s[k] as int) < b.len()
            &&& forall|x: usize| (x as int) < b.len() ==> #[trigger] s.contains(x)
            &&& s.len() == b.len()
        }),
{
    let n = b.len();
    let m = missing_upto(reached, n);
    lemma_missing_upto(reached, n);
    let s = reached + m;
    assert forall|a: int, c: int| 0 <= a < c < s.len() implies #[trigger] s[a] != #[trigger] s[c] by {
        if c < reached.len() {
        } else if a < reached.len() {
            assert(s[c] == m[c - reached.len()]);
            assert(!reached.contains(m[c - reached.len()]));
            assert(s[a] == reached[a]);
        } else {
            assert(s[a] == m[a - reached.len()] && s[c] == m[c - reached.len()]);
        }
    }
    assert forall|k: int| 0 <= k < s.len() implies (#[trigger] s[k] as int) < n by {
        if k >= reached.len() {
            assert(s[k] == m[k - reached.len()]);
        }
    }
    assert forall|x: usize| (x as int) < n implies #[trigger] s.contains(x) by {
        if reached.contains(x) {
            let k = choose|k: int| 0 <= k < reached.len() && reached[k] == x;
            assert(s[k] == x);
        } else {
            assert(m.contains(x));
            let k = choose|k: int| 0 <= k < m.len() && m[k] == x;
            assert(s[reached.len() + k] == x);
        }
    }
    lemma_distinct_within_n(s, n);
    // every position is covered, so the length is at least n
    let u = Seq::new(n, |i: int| i as usize);
    assert(u.no_duplicates()) by {
        assert forall|a: int, c: int| 0 <= a < u.len() && 0 <= c < u.len() && a != c implies u[a] != u[c] by {
            assert(u[a] == a as usize && u[c] == c as usize);
        }
    }
    u.unique_seq_to_set();
    assert(s.no_duplicates()) by {
        assert forall|a: int, c: int| 0 <= a < s.len() && 0 <= c < s.len() && a != c implies s[a] != s[c] by {
            if a < c {
                assert(s[a] != s[c]);
            } else {
                assert(s[c] != s[a]);
            }
        }
    }
    s.unique_seq_to_set();
    assert(u.to_set().subset_of(s.to_set())) by {
        assert forall|x: usize| u.to_set().contains(x) implies s.to_set().contains(x) by {
            let k = choose|k: int| 0 <= k < u.len() && u[k] == x;
            assert(s.contains(x));
        }
    }
    vstd::set_lib::lemma_len_subset(u.to_set(), s.to_set());
}

} // verus!
