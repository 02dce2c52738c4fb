use vstd::prelude::*;

use crate::names::{contains_chars, contains_seq};
use crate::text::{chars_of, to_lowercase, unicode_lower};

verus! {

broadcast use {vstd::seq_lib::to_multiset_insert, vstd::seq_lib::to_multiset_build};

/// An entry of the asset browser.
#[derive(Clone, Debug)]
pub enum AssetEntry {
    Folder(String),
    File(String),
}

impl AssetEntry {
    /// Whether the entry is a folder, and its name.
    pub open spec fn key(self) -> (bool, Seq<char>) {
        match self {
            AssetEntry::Folder(n) => (true, n@),
            AssetEntry::File(n) => (false, n@),
        }
    }
}

/// Lexicographic order of names, character by character (which is the byte
/// order of their UTF-8 encodings); a proper prefix comes first.
pub open spec fn name_lt(a: Seq<char>, b: Seq<char>) -> bool
    decreases a.len(),
{
    if b.len() == 0 {
        false
    } else if a.len() == 0 {
        true
    } else if a[0] != b[0] {
        (a[0] as int) < (b[0] as int)
    } else {
        name_lt(a.drop_first(), b.drop_first())
    }
}

/// `x` may stand before `y`: folders before files, then by name.
pub open spec fn entry_before(x: (bool, Seq<char>), y: (bool, Seq<char>)) -> bool {
    (x.0 && !y.0) || (x.0 == y.0 && !name_lt(y.1, x.1))
}

pub open spec fn listing_sorted(keys: Seq<(bool, Seq<char>)>) -> bool {
    forall|i: int, j: int| 0 <= i < j < keys.len() ==> entry_before(#[trigger] keys[i], #[trigger] keys[j])
}

/// Names starting with a dot are not shown.
pub open spec fn hidden(name: Seq<char>) -> bool {
    name.len() > 0 && name[0] == '.'
}

/// The (is folder, name) keys of the shown entries of a directory listing
/// given as (name, is directory) pairs, in listing order.
pub open spec fn shown(raw: Seq<(Seq<char>, bool)>) -> Seq<(bool, Seq<char>)>
    decreases raw.len(),
{
    if raw.len() == 0 {
        Seq::empty()
    } else {
        let rest = shown(raw.drop_last());
        let e = raw.last();
        if hidden(e.0) {
            rest
        } else {
            rest.push((e.1, e.0))
        }
    }
}

proof fn lemma_name_lt_order(a: Seq<char>, b: Seq<char>)
    ensures
        !name_lt(a, a),
        !(name_lt(a, b) && name_lt(b, a)),
        a != b ==> name_lt(a, b) || name_lt(b, a),
    decreases a.len(),
{
    if a.len() > 0 {
        lemma_name_lt_order(a.drop_first(), a.drop_first());
        if b.len() > 0 {
            lemma_name_lt_order(a.drop_first(), b.drop_first());
            if a[0] == b[0] && a.drop_first() == b.drop_first() {
                assert(a =~= seq![a[0]] + a.drop_first());
                assert(b =~= seq![b[0]] + b.drop_first());
            }
        }
    } else if b.len() == 0 {
        assert(a =~= b);
    }
}

proof fn lemma_name_lt_trans(a: Seq<char>, b: Seq<char>, c: Seq<char>)
    requires
        name_lt(a, b),
        name_lt(b, c),
    ensures
        name_lt(a, c),
    decreases a.len(),
{
    if a.len() > 0 && b.len() > 0 && c.len() > 0 && a[0] == b[0] && b[0] == c[0] {
        lemma_name_lt_trans(a.drop_first(), b.drop_first(), c.drop_first());
    }
}

proof fn lemma_entry_total(x: (bool, Seq<char>), y: (bool, Seq<char>))
    ensures
        entry_before(x, y) || entry_before(y, x),
{
    lemma_name_lt_order(x.1, y.1);
}

proof fn lemma_entry_trans(x: (bool, Seq<char>), y: (bool, Seq<char>), z: (bool, Seq<char>))
    requires
        entry_before(x, y),
        entry_before(y, z),
    ensures
        entry_before(x, z),
{
    if x.0 == y.0 && y.0 == z.0 {
        lemma_name_lt_order(x.1, y.1);
        lemma_name_lt_order(y.1, z.1);
        lemma_name_lt_order(x.1, z.1);
        lemma_name_lt_order(x.1, x.1);
        if name_lt(z.1, x.1) {
            if x.1 != y.1 && y.1 != z.1 {
                lemma_name_lt_trans(x.1, y.1, z.1);
            }
        }
    }
}

/// Compares two names in `name_lt` order.
fn name_less(a: &Vec<char>, b: &Vec<char>) -> (r: bool)
    ensures
        r == name_lt(a@, b@),
{
    let mut i: usize = 0;
    assert(a@.skip(0) =~= a@ && b@.skip(0) =~= b@);
    while i < a.len() && i < b.len() && a[i] == b[i]
        invariant
            i <= a@.len(),
            i <= b@.len(),
            name_lt(a@, b@) == name_lt(a@.skip(i as int), b@.skip(i as int)),
        decreases a@.len() - i,
    {
        assert(a@.skip(i as int).drop_first() =~= a@.skip(i + 1));
        assert(b@.skip(i as int).drop_first() =~= b@.skip(i + 1));
        i = i + 1;
    }
    if i == b.len() {
        false
    } else if i == a.len() {
        true
    } else {
        a[i] < b[i]
    }
}

fn entry_goes_before(x: bool, xn: &String, y: bool, yn: &String) -> (r: bool)
    ensures
        r == entry_before((x, xn@), (y, yn@)),
{
    if x && !y {
        true
    } else if x == y {
        !name_less(&chars_of(yn.as_str()), &chars_of(xn.as_str()))
    } else {
        false
    }
}

pub open spec fn pair_keys(v: Seq<(bool, String)>) -> Seq<(bool, Seq<char>)> {
    v.map_values(|e: (bool, String)| (e.0, e.1@))
}

pub open spec fn entry_keys(v: Seq<AssetEntry>) -> Seq<(bool, Seq<char>)> {
    v.map_values(|e: AssetEntry| e.key())
}

/// The asset browser's entries for a directory listing of (name, is
/// directory) pairs: names starting with a dot are left out, folders come
/// before files, and each group is in name order.
pub fn asset_listing(raw: &Vec<(String, bool)>) -> (r: Vec<AssetEntry>)
    ensures
        listing_sorted(entry_keys(r@)),
        entry_keys(r@).to_multiset() == shown(raw@.map_values(|e: (String, bool)| (e.0@, e.1))).to_multiset(),
{
    let ghost raw_keys = raw@.map_values(|e: (String, bool)| (e.0@, e.1));
    let mut sorted: Vec<(bool, String)> = Vec::new();
    let mut k: usize = 0;
    assert(raw_keys.subrange(0, 0) =~= Seq::<(Seq<char>, bool)>::empty());
    assert(pair_keys(sorted@) =~= Seq::<(bool, Seq<char>)>::empty());
    while k < raw.len()
        invariant
            k <= raw@.len(),
            raw_keys == raw@.map_values(|e: (String, bool)| (e.0@, e.1)),
            listing_sorted(pair_keys(sorted@)),
            pair_keys(sorted@).to_multiset() == shown(raw_keys.subrange(0, k as int)).to_multiset(),
        decreases raw@.len() - k,
    {
        let ghost prefix = raw_keys.subrange(0, k + 1);
        assert(prefix.drop_last() =~= raw_keys.subrange(0, k as int));
        assert(prefix.last() == raw_keys[k as int]);
        let name = &raw[k].0;
        let is_dir = raw[k].1;
        let cs = chars_of(name.as_str());
        let hide = cs.len() > 0 && cs[0] == '.';
        assert(raw_keys[k as int] == (name@, is_dir));
        assert(hide == hidden(name@));
        if !hide {
            let ghost x = (is_dir, name@);
            let mut p: usize = 0;
            while p < sorted.len() && entry_goes_before(sorted[p].0, &sorted[p].1, is_dir, name)
                invariant
                    p <= sorted@.len(),
                    x == (is_dir, name@),
                    forall|i: int| 0 <= i < p ==> entry_before(#[trigger] pair_keys(sorted@)[i], x),
                decreases sorted@.len() - p,
            {
                assert(pair_keys(sorted@)[p as int] == (sorted@[p as int].0, sorted@[p as int].1@));
                p = p + 1;
            }
            let ghost before = pair_keys(sorted@);
            sorted.insert(p, (is_dir, name.clone()));
            proof {
                let after = pair_keys(sorted@);
                assert(after =~= before.insert(p as int, x));
                assert(shown(prefix) == shown(raw_keys.subrange(0, k as int)).push(x));
                if p < before.len() {
                    lemma_entry_total(before[p as int], x);
                }
                assert forall|i: int, j: int| 0 <= i < j < after.len() implies entry_before(
                    #[trigger] after[i],
                    #[trigger] after[j],
                ) by {
                    if i < p && j == p {
                    } else if i == p {
                        if j > p + 1 {
                            lemma_entry_trans(x, before[p as int], before[j - 1]);
                        }
                    } else if j > p && i < p {
                        assert(after[i] == before[i] && after[j] == before[j - 1]);
                    } else if i > p {
                        assert(after[i] == before[i - 1] && after[j] == before[j - 1]);
                    }
                }
            }
        } else {
            assert(shown(prefix) == shown(raw_keys.subrange(0, k as int)));
        }
        k = k + 1;
    }
    assert(raw_keys.subrange(0, raw@.len() as int) =~= raw_keys);
    let mut r: Vec<AssetEntry> = Vec::new();
    let mut i: usize = 0;
    while i < sorted.len()
        invariant
            i <= sorted@.len(),
            r@.len() == i,
            entry_keys(r@) == pair_keys(sorted@).subrange(0, i as int),
        decreases sorted@.len() - i,
    {
        let name = sorted[i].1.clone();
        if sorted[i].0 {
            r.push(AssetEntry::Folder(name));
        } else {
            r.push(AssetEntry::File(name));
        }
        assert(r@[i as int].key() == pair_keys(sorted@)[i as int]);
        i = i + 1;
        assert(entry_keys(r@) =~= pair_keys(sorted@).subrange(0, i as int));
    }
    assert(pair_keys(sorted@).subrange(0, sorted@.len() as int) =~= pair_keys(sorted@));
    r
}

/// Whether the asset browser shows `entry` for the search text `search`: with
/// no search, always; with one, when the entry's name contains the search,
/// both in lower case.
pub open spec fn matches_asset_search(entry: AssetEntry, search: Seq<char>) -> bool {
    search.len() == 0 || contains_seq(unicode_lower(entry.key().1), unicode_lower(search))
}

fn copy_entry(e: &AssetEntry) -> (r: AssetEntry)
    ensures
        r == *e,
{
    match e {
        AssetEntry::Folder(n) => AssetEntry::Folder(n.clone()),
        AssetEntry::File(n) => AssetEntry::File(n.clone()),
    }
}

/// The entries the asset browser shows for the search text, in order.
pub fn filter_assets(entries: &Vec<AssetEntry>, search: &str) -> (r: Vec<AssetEntry>)
    ensures
        r@ == entries@.filter(|e: AssetEntry| matches_asset_search(e, search@)),
{
    let ghost pred = |e: AssetEntry| matches_asset_search(e, search@);
    let lowered = to_lowercase(search);
    let q = chars_of(lowered.as_str());
    let sc = chars_of(search);
    let mut r: Vec<AssetEntry> = Vec::new();
    let mut k: usize = 0;
    while k < entries.len()
        invariant
            k <= entries@.len(),
            q@ == unicode_lower(search@),
            sc@ == search@,
            pred == (|e: AssetEntry| matches_asset_search(e, search@)),
            r@ == entries@.subrange(0, k as int).filter(pred),
        decreases entries@.len() - k,
    {
        let name: &String = match &entries[k] {
            AssetEntry::Folder(n) => n,
            AssetEntry::File(n) => n,
        };
        assert(name@ == entries@[k as int].key().1);
        let keep = if sc.len() == 0 {
            true
        } else {
            let lower = to_lowercase(name.as_str());
            contains_chars(&chars_of(lower.as_str()), &q)
        };
        assert(keep == pred(entries@[k as int]));
        proof {
            let s1 = entries@.subrange(0, k + 1);
            assert(s1.drop_last() =~= entries@.subrange(0, k as int));
            assert(s1.last() == entries@[k as int]);
            reveal(Seq::filter);
        }
        if keep {
            r.push(copy_entry(&entries[k]));
        }
        k = k + 1;
    }
    assert(entries@.subrange(0, entries@.len() as int) =~= entries@);
    r
}

} // verus!
