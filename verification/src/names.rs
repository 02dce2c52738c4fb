use vstd::prelude::*;

use crate::text::{chars_of, push_char, str_eq, string_from_chars, to_lowercase, unicode_lower};

verus! {

/// Unicode alphanumeric property of a character (`char::is_alphanumeric`):
/// a function of the character alone, given by the Unicode tables.
pub uninterp spec fn unicode_alphanumeric(c: char) -> bool;

/// `char::is_alphanumeric`.
#[verifier::external_body]
pub(crate) fn is_alphanumeric(c: char) -> (r: bool)
    ensures
        r == unicode_alphanumeric(c),
{
    c.is_alphanumeric()
}

/// `s` starts with `p`.
pub open spec fn has_prefix(s: Seq<char>, p: Seq<char>) -> bool {
    p.len() <= s.len() && s.subrange(0, p.len() as int) == p
}

/// `s` ends with `p`.
pub open spec fn has_suffix(s: Seq<char>, p: Seq<char>) -> bool {
    p.len() <= s.len() && s.subrange(s.len() - p.len(), s.len() as int) == p
}

/// `p` occurs in `s` starting at position `i`.
pub open spec fn occurs_at(s: Seq<char>, p: Seq<char>, i: int) -> bool {
    0 <= i && i + p.len() <= s.len() && s.subrange(i, i + p.len()) == p
}

/// `p` occurs somewhere in `s`.
pub open spec fn contains_seq(s: Seq<char>, p: Seq<char>) -> bool {
    exists|i: int| #[trigger] occurs_at(s, p, i)
}

/// Whether `p` occurs in `cs` at position `i`.
pub fn matches_at(cs: &Vec<char>, p: &Vec<char>, i: usize) -> (b: bool)
    ensures
        b == occurs_at(cs@, p@, i as int),
{
    if i > cs.len() || p.len() > cs.len() - i {
        return false;
    }
    let mut j: usize = 0;
    while j < p.len()
        invariant
            i + p.len() <= cs.len(),
            j <= p.len(),
            forall|k: int| 0 <= k < j ==> cs@[i + k] == p@[k],
        decreases p.len() - j,
    {
        if cs[i + j] != p[j] {
            assert(cs@.subrange(i as int, i + p.len())[j as int] != p@[j as int]);
            return false;
        }
        j = j + 1;
    }
    assert(cs@.subrange(i as int, i + p.len()) =~= p@);
    true
}

/// Whether `p` occurs anywhere in `cs`.
pub fn contains_chars(cs: &Vec<char>, p: &Vec<char>) -> (b: bool)
    ensures
        b == contains_seq(cs@, p@),
{
    if p.len() == 0 {
        assert(occurs_at(cs@, p@, 0)) by {
            assert(cs@.subrange(0, 0) =~= p@);
        }
        return true;
    }
    if p.len() > cs.len() {
        assert forall|k: int| !occurs_at(cs@, p@, k) by {}
        return false;
    }
    let mut i: usize = 0;
    while i <= cs.len() - p.len()
        invariant
            1 <= p.len() <= cs.len(),
            i <= cs.len() - p.len() + 1,
            forall|k: int| 0 <= k < i ==> !occurs_at(cs@, p@, k),
        decreases cs.len() - i,
    {
        if matches_at(cs, p, i) {
            return true;
        }
        i = i + 1;
    }
    assert forall|k: int| !occurs_at(cs@, p@, k) by {}
    false
}

pub fn starts_with_chars(cs: &Vec<char>, p: &Vec<char>) -> (b: bool)
    ensures
        b == has_prefix(cs@, p@),
{
    matches_at(cs, p, 0)
}

pub fn ends_with_chars(cs: &Vec<char>, p: &Vec<char>) -> (b: bool)
    ensures
        b == has_suffix(cs@, p@),
{
    if p.len() > cs.len() {
        return false;
    }
    matches_at(cs, p, cs.len() - p.len())
}

/// A character allowed in an asset (folder or script) name.
pub open spec fn asset_name_char(c: char) -> bool {
    unicode_alphanumeric(c) || c == '_' || c == '-' || c == ' ' || c == '.'
}

/// An asset name is non-empty, at most 255 bytes of UTF-8, has no `..`, does not
/// start with `.`, and only uses letters, digits, `_`, `-`, space and `.`.
pub open spec fn valid_asset_name(s: Seq<char>, byte_len: nat) -> bool {
    &&& s.len() > 0
    &&& byte_len <= 255
    &&& !contains_seq(s, seq!['.', '.'])
    &&& s[0] != '.'
    &&& forall|i: int| 0 <= i < s.len() ==> asset_name_char(#[trigger] s[i])
}

/// Whether a user-typed name may be used for a new asset folder or script.
pub fn is_valid_asset_name(name: &str) -> (b: bool)
    ensures
        b == valid_asset_name(name@, name.len() as nat),
{
    let cs = chars_of(name);
    if cs.len() == 0 || name.len() > 255 {
        return false;
    }
    let mut dots: Vec<char> = Vec::new();
    dots.push('.');
    dots.push('.');
    assert(dots@ =~= seq!['.', '.']);
    if contains_chars(&cs, &dots) || cs[0] == '.' {
        return false;
    }
    let mut i: usize = 0;
    while i < cs.len()
        invariant
            cs@ == name@,
            i <= cs.len(),
            forall|k: int| 0 <= k < i ==> asset_name_char(#[trigger] cs@[k]),
        decreases cs.len() - i,
    {
        let c = cs[i];
        if !(is_alphanumeric(c) || c == '_' || c == '-' || c == ' ' || c == '.') {
            return false;
        }
        i = i + 1;
    }
    true
}

/// The character kept in a file name: letters, digits, `-` and `_` stay, the rest becomes `_`.
pub open spec fn file_name_char(c: char) -> char {
    if unicode_alphanumeric(c) || c == '-' || c == '_' {
        c
    } else {
        '_'
    }
}

/// Index of the first character that is not `_` (the length when there is none).
pub open spec fn first_non_underscore(s: Seq<char>) -> nat
    decreases s.len(),
{
    if s.len() == 0 || s[0] != '_' {
        0
    } else {
        1 + first_non_underscore(s.drop_first())
    }
}

/// Length of `s` once its trailing `_` are dropped.
pub open spec fn end_non_underscore(s: Seq<char>) -> nat
    decreases s.len(),
{
    if s.len() == 0 || s.last() != '_' {
        s.len()
    } else {
        end_non_underscore(s.drop_last())
    }
}

/// `s` with leading and trailing `_` removed.
pub open spec fn trim_underscores(s: Seq<char>) -> Seq<char> {
    let e = end_non_underscore(s);
    let t = s.subrange(0, e as int);
    t.subrange(first_non_underscore(t) as int, t.len() as int)
}

/// A file-name-safe form of an asset name: unsafe characters become `_`,
/// surrounding `_` are trimmed, and an empty result becomes `unnamed`.
pub open spec fn sanitized(s: Seq<char>) -> Seq<char> {
    let t = trim_underscores(Seq::new(s.len(), |i: int| file_name_char(s[i])));
    if t.len() == 0 {
        seq!['u', 'n', 'n', 'a', 'm', 'e', 'd']
    } else {
        t
    }
}

proof fn lemma_first_non_underscore(s: Seq<char>)
    ensures
        first_non_underscore(s) <= s.len(),
        forall|i: int| 0 <= i < first_non_underscore(s) ==> s[i] == '_',
        first_non_underscore(s) < s.len() ==> s[first_non_underscore(s) as int] != '_',
    decreases s.len(),
{
    if s.len() > 0 && s[0] == '_' {
        lemma_first_non_underscore(s.drop_first());
        assert forall|i: int| 0 <= i < first_non_underscore(s) implies s[i] == '_' by {
            if i > 0 {
                assert(s[i] == s.drop_first()[i - 1]);
            }
        }
    }
}

proof fn lemma_end_non_underscore(s: Seq<char>)
    ensures
        end_non_underscore(s) <= s.len(),
        forall|i: int| end_non_underscore(s) <= i < s.len() ==> s[i] == '_',
        end_non_underscore(s) > 0 ==> s[end_non_underscore(s) - 1] != '_',
    decreases s.len(),
{
    if s.len() > 0 && s.last() == '_' {
        lemma_end_non_underscore(s.drop_last());
        assert forall|i: int| 0 <= i < s.len() - 1 implies s.drop_last()[i] == s[i] by {}
    }
}

/// A file-name-safe form of an asset name (see `sanitized`).
pub fn sanitize_name(name: &str) -> (r: String)
    ensures
        r@ == sanitized(name@),
{
    let cs = chars_of(name);
    let mut mapped: Vec<char> = Vec::new();
    let mut i: usize = 0;
    while i < cs.len()
        invariant
            cs@ == name@,
            i <= cs.len(),
            mapped@ =~= Seq::new(i as nat, |k: int| file_name_char(cs@[k])),
        decreases cs.len() - i,
    {
        let c = cs[i];
        let keep = is_alphanumeric(c) || c == '-' || c == '_';
        mapped.push(if keep {
            c
        } else {
            '_'
        });
        i = i + 1;
    }
    let ghost m = mapped@;
    assert(m =~= Seq::new(name@.len(), |k: int| file_name_char(name@[k])));
    let mut end: usize = mapped.len();
    assert(m.subrange(0, end as int) =~= m);
    while end > 0 && mapped[end - 1] == '_'
        invariant
            end <= mapped.len(),
            mapped@ == m,
            end_non_underscore(m) == end_non_underscore(m.subrange(0, end as int)),
        decreases end,
    {
        assert(m.subrange(0, end as int).drop_last() =~= m.subrange(0, end - 1));
        end = end - 1;
    }
    let ghost t = m.subrange(0, end as int);
    assert(end_non_underscore(t) == end) by {
        if end > 0 {
            assert(t.last() == m[end - 1]);
        }
    }
    let mut start: usize = 0;
    assert(t.subrange(0, t.len() as int) =~= t);
    while start < end && mapped[start] == '_'
        invariant
            start <= end,
            end <= mapped.len(),
            mapped@ == m,
            t == m.subrange(0, end as int),
            first_non_underscore(t) == start + first_non_underscore(t.subrange(start as int, t.len() as int)),
        decreases end - start,
    {
        assert(t.subrange(start as int, t.len() as int).drop_first() =~= t.subrange(start + 1, t.len() as int));
        start = start + 1;
    }
    assert(first_non_underscore(t.subrange(start as int, t.len() as int)) == 0);
    let mut out: Vec<char> = Vec::new();
    let mut j: usize = start;
    while j < end
        invariant
            start <= j <= end,
            end <= mapped.len(),
            mapped@ == m,
            out@ =~= m.subrange(start as int, j as int),
        decreases end - j,
    {
        out.push(mapped[j]);
        j = j + 1;
    }
    assert(out@ =~= trim_underscores(m));
    if out.len() == 0 {
        let mut u: Vec<char> = Vec::new();
        u.push('u');
        u.push('n');
        u.push('n');
        u.push('a');
        u.push('m');
        u.push('e');
        u.push('d');
        assert(u@ =~= seq!['u', 'n', 'n', 'a', 'm', 'e', 'd']);
        string_from_chars(&u)
    } else {
        string_from_chars(&out)
    }
}

/// Sanitizing never produces an empty name, never produces a name that starts
/// or ends with `_`, and only ever produces letters, digits, `-` and `_`.
pub proof fn law_sanitized_is_safe(s: Seq<char>)
    ensures
        sanitized(s).len() > 0,
        sanitized(s)[0] != '_',
        sanitized(s).last() != '_',
        forall|i: int|
            0 <= i < sanitized(s).len() ==> unicode_alphanumeric(#[trigger] sanitized(s)[i])
                || sanitized(s)[i] == '-' || sanitized(s)[i] == '_' || seq![
                'u',
                'n',
                'n',
                'a',
                'm',
                'e',
                'd',
            ].contains(sanitized(s)[i]),
{
    let m = Seq::new(s.len(), |i: int| file_name_char(s[i]));
    let e = end_non_underscore(m);
    lemma_end_non_underscore(m);
    let t = m.subrange(0, e as int);
    lemma_first_non_underscore(t);
    let r = trim_underscores(m);
    if r.len() > 0 {
        let f = first_non_underscore(t);
        assert(r[0] == t[f as int]);
        assert(r.last() == t[t.len() - 1]);
        assert forall|i: int| 0 <= i < r.len() implies unicode_alphanumeric(#[trigger] r[i])
            || r[i] == '-' || r[i] == '_' by {
            assert(r[i] == m[f + i]);
        }
    } else {
        let u = seq!['u', 'n', 'n', 'a', 'm', 'e', 'd'];
        assert forall|i: int| 0 <= i < u.len() implies u.contains(#[trigger] u[i]) by {}
    }
}

/// The name given when nothing usable is left.
pub open spec fn unnamed() -> Seq<char> {
    seq!['u', 'n', 'n', 'a', 'm', 'e', 'd']
}

/// The letters of `unnamed` count as alphanumeric.
pub open spec fn unnamed_is_alphanumeric() -> bool {
    forall|i: int| 0 <= i < unnamed().len() ==> unicode_alphanumeric(#[trigger] unnamed()[i])
}

/// A name made only of letters, digits, `-` and `_`, neither starting nor
/// ending with `_`, is its own sanitized form.
proof fn lemma_sanitized_fixed(r: Seq<char>)
    requires
        r.len() > 0,
        r[0] != '_',
        r.last() != '_',
        forall|i: int| 0 <= i < r.len() ==> unicode_alphanumeric(#[trigger] r[i]) || r[i] == '-' || r[i] == '_',
    ensures
        sanitized(r) == r,
{
    let m = Seq::new(r.len(), |i: int| file_name_char(r[i]));
    assert(m =~= r);
    assert(end_non_underscore(r) == r.len());
    assert(r.subrange(0, r.len() as int) =~= r);
    assert(first_non_underscore(r) == 0);
    assert(trim_underscores(r) =~= r);
}

/// Sanitizing a sanitized name changes nothing. When nothing usable was left
/// the result is `unnamed`, which stays as it is since its letters are
/// alphanumeric.
pub proof fn law_sanitize_idempotent(s: Seq<char>)
    ensures
        sanitized(s) != unnamed() ==> sanitized(sanitized(s)) == sanitized(s),
        unnamed_is_alphanumeric() ==> sanitized(sanitized(s)) == sanitized(s),
{
    law_sanitized_is_safe(s);
    let r = sanitized(s);
    let m = Seq::new(s.len(), |i: int| file_name_char(s[i]));
    let t = trim_underscores(m);
    if t.len() > 0 {
        law_sanitized_is_safe(s);
        let e = end_non_underscore(m);
        lemma_end_non_underscore(m);
        let t0 = m.subrange(0, e as int);
        lemma_first_non_underscore(t0);
        let f = first_non_underscore(t0);
        assert forall|i: int| 0 <= i < r.len() implies unicode_alphanumeric(#[trigger] r[i]) || r[i] == '-' || r[i]
            == '_' by {
            assert(r[i] == m[f + i]);
        }
        lemma_sanitized_fixed(r);
    } else {
        assert(r == unnamed());
        if unnamed_is_alphanumeric() {
            assert forall|i: int| 0 <= i < r.len() implies unicode_alphanumeric(#[trigger] r[i]) || r[i] == '-'
                || r[i] == '_' by {
                assert(r[i] == unnamed()[i]);
            }
            lemma_sanitized_fixed(r);
        }
    }
}

/// Decimal digits of `n`, most significant first.
pub open spec fn decimal(n: nat) -> Seq<char>
    decreases n,
{
    if n < 10 {
        seq![digit_char(n)]
    } else {
        decimal(n / 10).push(digit_char(n % 10))
    }
}

pub open spec fn digit_char(d: nat) -> char {
    if d == 0 {
        '0'
    } else if d == 1 {
        '1'
    } else if d == 2 {
        '2'
    } else if d == 3 {
        '3'
    } else if d == 4 {
        '4'
    } else if d == 5 {
        '5'
    } else if d == 6 {
        '6'
    } else if d == 7 {
        '7'
    } else if d == 8 {
        '8'
    } else {
        '9'
    }
}

fn digit(d: u64) -> (c: char)
    requires
        d < 10,
    ensures
        c == digit_char(d as nat),
{
    if d == 0 {
        '0'
    } else if d == 1 {
        '1'
    } else if d == 2 {
        '2'
    } else if d == 3 {
        '3'
    } else if d == 4 {
        '4'
    } else if d == 5 {
        '5'
    } else if d == 6 {
        '6'
    } else if d == 7 {
        '7'
    } else if d == 8 {
        '8'
    } else {
        '9'
    }
}

/// Appends the decimal form of `n` (as `{}` formats it).
pub fn push_decimal(s: &mut String, n: u64)
    ensures
        final(s)@ == old(s)@ + decimal(n as nat),
    decreases n,
{
    if n < 10 {
        push_char(s, digit(n));
        assert(old(s)@ + decimal(n as nat) =~= old(s)@.push(digit_char(n as nat)));
    } else {
        push_decimal(s, n / 10);
        push_char(s, digit(n % 10));
        assert(old(s)@ + decimal(n as nat) =~= old(s)@ + decimal((n / 10) as nat) + seq![
            digit_char((n % 10) as nat),
        ]);
    }
}

/// `base (i)`: the `i`-th alternative name tried for a scene whose name is taken.
pub open spec fn numbered_scene_name_spec(base: Seq<char>, i: nat) -> Seq<char> {
    base + seq![' ', '('] + decimal(i) + seq![')']
}

pub fn numbered_scene_name(base: &str, i: u64) -> (r: String)
    ensures
        r@ == numbered_scene_name_spec(base@, i as nat),
{
    let mut s = base.to_string();
    push_char(&mut s, ' ');
    push_char(&mut s, '(');
    push_decimal(&mut s, i);
    push_char(&mut s, ')');
    assert(s@ =~= numbered_scene_name_spec(base@, i as nat));
    s
}

proof fn lemma_decimal_len(n: nat)
    ensures
        decimal(n).len() >= 1,
        n >= 10 ==> decimal(n).len() >= 2,
    decreases n,
{
    if n >= 10 {
        lemma_decimal_len(n / 10);
    }
}

/// Different numbers have different decimal forms.
proof fn lemma_decimal_injective(a: nat, b: nat)
    requires
        decimal(a) == decimal(b),
    ensures
        a == b,
    decreases a,
{
    lemma_decimal_len(a);
    lemma_decimal_len(b);
    if a >= 10 && b >= 10 {
        assert(decimal(a).drop_last() =~= decimal(a / 10));
        assert(decimal(b).drop_last() =~= decimal(b / 10));
        lemma_decimal_injective(a / 10, b / 10);
        assert(decimal(a).last() == digit_char(a % 10));
        assert(decimal(b).last() == digit_char(b % 10));
    } else if a < 10 && b < 10 {
        assert(decimal(a)[0] == digit_char(a));
        assert(decimal(b)[0] == digit_char(b));
    }
}

/// Different numbers give different alternative scene names.
proof fn lemma_numbered_scene_name_injective(base: Seq<char>, i: nat, j: nat)
    requires
        numbered_scene_name_spec(base, i) == numbered_scene_name_spec(base, j),
    ensures
        i == j,
{
    let si = numbered_scene_name_spec(base, i);
    let sj = numbered_scene_name_spec(base, j);
    assert(si.subrange(base.len() + 2int, si.len() - 1) =~= decimal(i));
    assert(sj.subrange(base.len() + 2int, sj.len() - 1) =~= decimal(j));
    lemma_decimal_injective(i, j);
}

/// The names of a list of strings.
pub open spec fn string_views(v: Seq<String>) -> Seq<Seq<char>> {
    v.map_values(|s: String| s@)
}

/// When `base (1)` up to `base (i)` are all taken, there are at least `i` taken names.
proof fn lemma_taken_candidates(base: Seq<char>, taken: Seq<Seq<char>>, i: nat)
    requires
        forall|j: nat| 1 <= j <= i ==> #[trigger] taken.contains(numbered_scene_name_spec(base, j)),
    ensures
        i <= taken.len(),
{
    let cands = Seq::new(i, |k: int| numbered_scene_name_spec(base, (k + 1) as nat));
    assert(cands.no_duplicates()) by {
        assert forall|a: int, c: int| 0 <= a < cands.len() && 0 <= c < cands.len() && a != c implies cands[a]
            != cands[c] by {
            if cands[a] == cands[c] {
                lemma_numbered_scene_name_injective(base, (a + 1) as nat, (c + 1) as nat);
            }
        }
    }
    cands.unique_seq_to_set();
    taken.lemma_cardinality_of_set();
    assert(cands.to_set().subset_of(taken.to_set())) by {
        assert forall|x: Seq<char>| cands.to_set().contains(x) implies taken.to_set().contains(x) by {
            let k = choose|k: int| 0 <= k < cands.len() && cands[k] == x;
            assert(taken.contains(numbered_scene_name_spec(base, (k + 1) as nat)));
        }
    }
    vstd::set_lib::lemma_len_subset(cands.to_set(), taken.to_set());
}

/// Whether `name` is among `names`.
pub fn is_listed(names: &Vec<String>, name: &str) -> (r: bool)
    ensures
        r == string_views(names@).contains(name@),
{
    let ghost sv = string_views(names@);
    let mut i: usize = 0;
    while i < names.len()
        invariant
            i <= names@.len(),
            sv == string_views(names@),
            forall|k: int| 0 <= k < i ==> #[trigger] sv[k] != name@,
        decreases names.len() - i,
    {
        if str_eq(names[i].as_str(), name) {
            assert(sv[i as int] == name@);
            return true;
        }
        i = i + 1;
    }
    false
}

/// The name to save a scene under when the scenes in `taken` already exist:
/// `base` itself if it is free, else the first free one of `base (1)`,
/// `base (2)`, and so on.
pub fn deduplicate_scene_name(base: &str, taken: &Vec<String>) -> (r: String)
    requires
        taken@.len() < usize::MAX,
    ensures
        !string_views(taken@).contains(r@),
        !string_views(taken@).contains(base@) ==> r@ == base@,
        string_views(taken@).contains(base@) ==> exists|i: nat|
            1 <= i && r@ == #[trigger] numbered_scene_name_spec(base@, i) && forall|j: nat|
                1 <= j < i ==> string_views(taken@).contains(#[trigger] numbered_scene_name_spec(base@, j)),
{
    let ghost sv = string_views(taken@);
    if !is_listed(taken, base) {
        return base.to_string();
    }
    let mut i: usize = 1;
    loop
        invariant
            1 <= i <= taken@.len() + 1,
            taken@.len() < usize::MAX,
            sv == string_views(taken@),
            sv.contains(base@),
            forall|j: nat| 1 <= j < i ==> sv.contains(#[trigger] numbered_scene_name_spec(base@, j)),
        decreases taken@.len() + 1 - i,
    {
        let c = numbered_scene_name(base, i as u64);
        if !is_listed(taken, c.as_str()) {
            assert(c@ == numbered_scene_name_spec(base@, i as nat));
            return c;
        }
        proof {
            assert forall|j: nat| 1 <= j <= i implies sv.contains(#[trigger] numbered_scene_name_spec(base@, j)) by {
                if j < i {
                } else {
                    assert(c@ == numbered_scene_name_spec(base@, j));
                }
            }
            assert(sv.len() == taken@.len());
            lemma_taken_candidates(base@, sv, i as nat);
        }
        i = i + 1;
    }
}

/// `assets/scenes/<name>.ron`: where a scene of that name is stored.
pub open spec fn scene_file_path_spec(name: Seq<char>) -> Seq<char> {
    seq!['a', 's', 's', 'e', 't', 's', '/', 's', 'c', 'e', 'n', 'e', 's', '/'] + name + seq![
        '.',
        'r',
        'o',
        'n',
    ]
}

pub fn scene_file_path(name: &str) -> (r: String)
    ensures
        r@ == scene_file_path_spec(name@),
{
    let mut s = String::new();
    let prefix = "assets/scenes/";
    proof {
        reveal_strlit("assets/scenes/");
    }
    let mut i: usize = 0;
    let pc = chars_of(prefix);
    while i < pc.len()
        invariant
            i <= pc.len(),
            pc@ == prefix@,
            s@ =~= pc@.subrange(0, i as int),
        decreases pc.len() - i,
    {
        push_char(&mut s, pc[i]);
        i = i + 1;
    }
    let nc = chars_of(name);
    let mut j: usize = 0;
    while j < nc.len()
        invariant
            j <= nc.len(),
            nc@ == name@,
            s@ =~= pc@ + nc@.subrange(0, j as int),
        decreases nc.len() - j,
    {
        push_char(&mut s, nc[j]);
        j = j + 1;
    }
    push_char(&mut s, '.');
    push_char(&mut s, 'r');
    push_char(&mut s, 'o');
    push_char(&mut s, 'n');
    assert(s@ =~= scene_file_path_spec(name@));
    s
}

/// `base i`: the `i`-th alternative name tried for a new project whose name is taken.
pub open spec fn numbered_project_name_spec(base: Seq<char>, i: nat) -> Seq<char> {
    base + seq![' '] + decimal(i)
}

pub fn numbered_project_name(base: &str, i: u64) -> (r: String)
    ensures
        r@ == numbered_project_name_spec(base@, i as nat),
{
    let mut s = base.to_string();
    push_char(&mut s, ' ');
    push_decimal(&mut s, i);
    assert(s@ =~= numbered_project_name_spec(base@, i as nat));
    s
}

/// Different numbers give different alternative project names.
proof fn lemma_numbered_project_name_injective(base: Seq<char>, i: nat, j: nat)
    requires
        numbered_project_name_spec(base, i) == numbered_project_name_spec(base, j),
    ensures
        i == j,
{
    let si = numbered_project_name_spec(base, i);
    let sj = numbered_project_name_spec(base, j);
    assert(si.subrange(base.len() + 1int, si.len() as int) =~= decimal(i));
    assert(sj.subrange(base.len() + 1int, sj.len() as int) =~= decimal(j));
    lemma_decimal_injective(i, j);
}

/// When `base 2` up to `base i` are all taken, there are at least `i - 1` taken names.
proof fn lemma_taken_project_candidates(base: Seq<char>, taken: Seq<Seq<char>>, i: nat)
    requires
        i >= 1,
        forall|j: nat| 2 <= j <= i ==> #[trigger] taken.contains(numbered_project_name_spec(base, j)),
    ensures
        i - 1 <= taken.len(),
{
    let cands = Seq::new((i - 1) as nat, |k: int| numbered_project_name_spec(base, (k + 2) as nat));
    assert(cands.no_duplicates()) by {
        assert forall|a: int, c: int| 0 <= a < cands.len() && 0 <= c < cands.len() && a != c implies cands[a]
            != cands[c] by {
            if cands[a] == cands[c] {
                lemma_numbered_project_name_injective(base, (a + 2) as nat, (c + 2) as nat);
            }
        }
    }
    cands.unique_seq_to_set();
    taken.lemma_cardinality_of_set();
    assert(cands.to_set().subset_of(taken.to_set())) by {
        assert forall|x: Seq<char>| cands.to_set().contains(x) implies taken.to_set().contains(x) by {
            let k = choose|k: int| 0 <= k < cands.len() && cands[k] == x;
            assert(taken.contains(numbered_project_name_spec(base, (k + 2) as nat)));
        }
    }
    vstd::set_lib::lemma_len_subset(cands.to_set(), taken.to_set());
}

/// The folder name for a new project when the names in `taken` are in use:
/// `base` itself if it is free, else the first free one of `base 2`,
/// `base 3`, and so on.
pub fn free_project_name(base: &str, taken: &Vec<String>) -> (r: String)
    requires
        taken@.len() + 2 <= usize::MAX,
    ensures
        !string_views(taken@).contains(r@),
        !string_views(taken@).contains(base@) ==> r@ == base@,
        string_views(taken@).contains(base@) ==> exists|i: nat|
            2 <= i && r@ == #[trigger] numbered_project_name_spec(base@, i) && forall|j: nat|
                2 <= j < i ==> string_views(taken@).contains(#[trigger] numbered_project_name_spec(base@, j)),
{
    let ghost sv = string_views(taken@);
    if !is_listed(taken, base) {
        return base.to_string();
    }
    let mut i: usize = 2;
    loop
        invariant
            2 <= i <= taken@.len() + 2,
            taken@.len() + 2 <= usize::MAX,
            sv == string_views(taken@),
            sv.contains(base@),
            forall|j: nat| 2 <= j < i ==> sv.contains(#[trigger] numbered_project_name_spec(base@, j)),
        decreases taken@.len() + 2 - i,
    {
        let c = numbered_project_name(base, i as u64);
        if !is_listed(taken, c.as_str()) {
            assert(c@ == numbered_project_name_spec(base@, i as nat));
            return c;
        }
        proof {
            assert forall|j: nat| 2 <= j <= i implies sv.contains(#[trigger] numbered_project_name_spec(base@, j)) by {
                if j < i {
                } else {
                    assert(c@ == numbered_project_name_spec(base@, j));
                }
            }
            assert(sv.len() == taken@.len());
            lemma_taken_project_candidates(base@, sv, i as nat);
        }
        i = i + 1;
    }
}

/// `s` without its spaces.
pub open spec fn without_spaces(s: Seq<char>) -> Seq<char>
    decreases s.len(),
{
    if s.len() == 0 {
        s
    } else {
        let r = without_spaces(s.drop_last());
        if s.last() == ' ' {
            r
        } else {
            r.push(s.last())
        }
    }
}

/// The bundle name of an exported game: the game name with every space removed.
pub fn app_bundle_name(game_name: &str) -> (r: String)
    ensures
        r@ == without_spaces(game_name@),
{
    let cs = chars_of(game_name);
    let mut s = String::new();
    let mut i: usize = 0;
    while i < cs.len()
        invariant
            i <= cs.len(),
            cs@ == game_name@,
            s@ == without_spaces(cs@.subrange(0, i as int)),
        decreases cs.len() - i,
    {
        assert(cs@.subrange(0, i + 1).drop_last() =~= cs@.subrange(0, i as int));
        if cs[i] != ' ' {
            push_char(&mut s, cs[i]);
        }
        i = i + 1;
    }
    assert(cs@.subrange(0, cs.len() as int) =~= cs@);
    s
}

/// The name tried for the `counter`-th copy of a dropped file that would
/// overwrite an existing one: `<stem> <counter>`, then the extension in lower
/// case after a dot, if there is one.
pub open spec fn dropped_copy_name_spec(stem: Seq<char>, counter: nat, ext: Seq<char>) -> Seq<char> {
    let lower = unicode_lower(ext);
    stem + seq![' '] + decimal(counter) + if lower.len() == 0 {
        Seq::<char>::empty()
    } else {
        seq!['.'] + lower
    }
}

pub fn dropped_copy_name(stem: &str, counter: u32, ext: &str) -> (r: String)
    ensures
        r@ == dropped_copy_name_spec(stem@, counter as nat, ext@),
{
    let mut s = stem.to_string();
    push_char(&mut s, ' ');
    push_decimal(&mut s, counter as u64);
    let lower = to_lowercase(ext);
    if lower.as_str().is_empty() {
        assert(s@ =~= dropped_copy_name_spec(stem@, counter as nat, ext@));
    } else {
        push_char(&mut s, '.');
        let cs = chars_of(lower.as_str());
        let mut i: usize = 0;
        let ghost base = s@;
        while i < cs.len()
            invariant
                i <= cs@.len(),
                cs@ == lower@,
                s@ == base + cs@.subrange(0, i as int),
            decreases cs@.len() - i,
        {
            push_char(&mut s, cs[i]);
            i = i + 1;
            assert(s@ =~= base + cs@.subrange(0, i as int));
        }
        assert(cs@.subrange(0, cs@.len() as int) =~= cs@);
        assert(s@ =~= dropped_copy_name_spec(stem@, counter as nat, ext@));
    }
    s
}

} // verus!
