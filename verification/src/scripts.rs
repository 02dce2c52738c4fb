use vstd::prelude::*;

use crate::entity::EntityId;
use crate::names::{is_listed, string_views};
use crate::text::str_eq;

verus! {

/// An attached script as plain values: its entity and its name.
pub open spec fn attached(s: (EntityId, String)) -> (EntityId, Seq<char>) {
    (s.0, s.1@)
}

/// The attached scripts as plain values.
pub open spec fn attached_view(scripts: Seq<(EntityId, String)>) -> Seq<(EntityId, Seq<char>)> {
    scripts.map_values(|s: (EntityId, String)| attached(s))
}

/// Position of the first script named `name` attached to `id`.
pub open spec fn first_script(scripts: Seq<(EntityId, Seq<char>)>, id: EntityId, name: Seq<char>) -> Option<nat>
    decreases scripts.len(),
{
    if scripts.len() == 0 {
        None
    } else {
        match first_script(scripts.drop_last(), id, name) {
            Some(i) => Some(i),
            None => if scripts.last() == (id, name) {
                Some((scripts.len() - 1) as nat)
            } else {
                None
            },
        }
    }
}

/// Removing the first script named `name` from `id`, if it has one.
pub open spec fn without_script(scripts: Seq<(EntityId, Seq<char>)>, id: EntityId, name: Seq<char>) -> Seq<(EntityId, Seq<char>)> {
    match first_script(scripts, id, name) {
        Some(i) => scripts.remove(i as int),
        None => scripts,
    }
}

proof fn lemma_first_script_prefix(s: Seq<(EntityId, Seq<char>)>, id: EntityId, name: Seq<char>, n: nat)
    requires
        n <= s.len(),
        first_script(s.subrange(0, n as int), id, name) is Some,
    ensures
        first_script(s, id, name) == first_script(s.subrange(0, n as int), id, name),
    decreases s.len() - n,
{
    if n < s.len() {
        assert(s.subrange(0, (n + 1) as int).drop_last() =~= s.subrange(0, n as int));
        lemma_first_script_prefix(s, id, name, n + 1);
    } else {
        assert(s.subrange(0, n as int) =~= s);
    }
}

/// Detaches the first script named `name` from `id`; nothing changes when
/// there is none.
pub fn remove_script(scripts: &mut Vec<(EntityId, String)>, id: EntityId, name: &str)
    ensures
        attached_view(final(scripts)@) == without_script(attached_view(old(scripts)@), id, name@),
{
    let ghost s = attached_view(scripts@);
    let mut i: usize = 0;
    while i < scripts.len()
        invariant
            i <= scripts@.len(),
            s == attached_view(scripts@),
            s == attached_view(old(scripts)@),
            first_script(s.subrange(0, i as int), id, name@) is None,
        decreases scripts@.len() - i,
    {
        assert(s.subrange(0, i + 1).drop_last() =~= s.subrange(0, i as int));
        assert(s[i as int] == attached(scripts@[i as int]));
        if scripts[i].0 == id && str_eq(scripts[i].1.as_str(), name) {
            proof {
                assert(s.subrange(0, i + 1).last() == (id, name@));
                assert(first_script(s.subrange(0, i + 1), id, name@) == Some(i as nat));
                lemma_first_script_prefix(s, id, name@, (i + 1) as nat);
            }
            scripts.remove(i);
            assert(attached_view(scripts@) =~= s.remove(i as int));
            return;
        }
        i = i + 1;
    }
    assert(s.subrange(0, s.len() as int) =~= s);
}

/// Names, in order, of the scripts attached to `id`.
pub open spec fn scripts_of_spec(scripts: Seq<(EntityId, Seq<char>)>, id: EntityId) -> Seq<Seq<char>>
    decreases scripts.len(),
{
    if scripts.len() == 0 {
        Seq::empty()
    } else {
        let r = scripts_of_spec(scripts.drop_last(), id);
        if scripts.last().0 == id {
            r.push(scripts.last().1)
        } else {
            r
        }
    }
}

/// The names of the scripts attached to `id`, in the order they were attached.
pub fn scripts_of(scripts: &Vec<(EntityId, String)>, id: EntityId) -> (r: Vec<String>)
    ensures
        r@.map_values(|n: String| n@) == scripts_of_spec(attached_view(scripts@), id),
{
    let ghost s = attached_view(scripts@);
    let mut r: Vec<String> = Vec::new();
    let mut i: usize = 0;
    while i < scripts.len()
        invariant
            i <= scripts@.len(),
            s == attached_view(scripts@),
            r@.map_values(|n: String| n@) == scripts_of_spec(s.subrange(0, i as int), id),
        decreases scripts@.len() - i,
    {
        assert(s.subrange(0, i + 1).drop_last() =~= s.subrange(0, i as int));
        assert(s[i as int] == attached(scripts@[i as int]));
        if scripts[i].0 == id {
            let ghost before = r@;
            r.push(scripts[i].1.clone());
            assert(r@.map_values(|n: String| n@) =~= before.map_values(|n: String| n@).push(scripts@[i as int].1@));
        }
        i = i + 1;
    }
    assert(s.subrange(0, s.len() as int) =~= s);
    r
}

/// Whether `ids` holds `id`.
fn holds(ids: &Vec<EntityId>, id: EntityId) -> (b: bool)
    ensures
        b == ids@.contains(id),
{
    let mut i: usize = 0;
    while i < ids.len()
        invariant
            i <= ids@.len(),
            forall|j: int| 0 <= j < i ==> ids@[j] != id,
        decreases ids@.len() - i,
    {
        if ids[i] == id {
            assert(ids@[i as int] == id);
            return true;
        }
        i = i + 1;
    }
    false
}

/// Detaches every script of the entities in `gone`, keeping the others in order.
pub fn drop_scripts_of(scripts: &mut Vec<(EntityId, String)>, gone: &Vec<EntityId>)
    ensures
        attached_view(final(scripts)@) == attached_view(old(scripts)@).filter(|s: (EntityId, Seq<char>)| !gone@.contains(s.0)),
{
    let ghost s = attached_view(scripts@);
    let ghost pred = |s: (EntityId, Seq<char>)| !gone@.contains(s.0);
    let mut kept: Vec<(EntityId, String)> = Vec::new();
    let mut i: usize = 0;
    while i < scripts.len()
        invariant
            i <= scripts@.len(),
            s == attached_view(scripts@),
            s == attached_view(old(scripts)@),
            pred == (|s: (EntityId, Seq<char>)| !gone@.contains(s.0)),
            attached_view(kept@) == s.subrange(0, i as int).filter(pred),
        decreases scripts@.len() - i,
    {
        proof {
            let s1 = s.subrange(0, i + 1);
            assert(s1.drop_last() =~= s.subrange(0, i as int));
            assert(s1.last() == attached(scripts@[i as int]));
            reveal(Seq::filter);
        }
        if !holds(gone, scripts[i].0) {
            let ghost before = kept@;
            kept.push((scripts[i].0, scripts[i].1.clone()));
            assert(attached_view(kept@) =~= attached_view(before).push(attached(scripts@[i as int])));
        }
        i = i + 1;
    }
    assert(s.subrange(0, s.len() as int) =~= s);
    *scripts = kept;
}

/// The scripts of `s` whose name the registry knows, in order.
pub open spec fn registered_scripts(s: Seq<(EntityId, Seq<char>)>, registry: Seq<Seq<char>>) -> Seq<(EntityId, Seq<char>)>
    decreases s.len(),
{
    if s.len() == 0 {
        Seq::empty()
    } else {
        let r = registered_scripts(s.drop_last(), registry);
        if registry.contains(s.last().1) {
            r.push(s.last())
        } else {
            r
        }
    }
}

/// The scripts a loaded scene or prefab attaches that the script registry
/// knows by name, in order; a script the registry does not know is skipped.
pub fn resolve_scripts(attached: &Vec<(EntityId, String)>, registry: &Vec<String>) -> (r: Vec<(EntityId, String)>)
    ensures
        attached_view(r@) == registered_scripts(attached_view(attached@), string_views(registry@)),
{
    let ghost s = attached_view(attached@);
    let ghost reg = string_views(registry@);
    let mut r: Vec<(EntityId, String)> = Vec::new();
    let mut i: usize = 0;
    while i < attached.len()
        invariant
            i <= attached@.len(),
            s == attached_view(attached@),
            reg == string_views(registry@),
            attached_view(r@) == registered_scripts(s.subrange(0, i as int), reg),
        decreases attached.len() - i,
    {
        let ghost before = attached_view(r@);
        assert(s.subrange(0, i + 1).drop_last() =~= s.subrange(0, i as int));
        assert(s[i as int] == (attached@[i as int].0, attached@[i as int].1@));
        if is_listed(registry, attached[i].1.as_str()) {
            let item = (attached[i].0, attached[i].1.clone());
            r.push(item);
            assert(attached_view(r@) =~= before.push(s[i as int]));
        }
        i = i + 1;
    }
    assert(s.subrange(0, s.len() as int) =~= s);
    r
}

} // verus!
