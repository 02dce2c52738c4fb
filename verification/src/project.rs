use vstd::prelude::*;

use crate::names::decimal;
use crate::names::push_decimal;
use crate::text::{push_char, str_eq};

verus! {

/// `project.ron` at a project's root.
pub struct ProjectManifest {
    pub name: String,
    pub engine_version: String,
    pub default_scene: Option<String>,
    pub description: String,
    pub created: String,
}

/// An entry of the recent-projects list.
pub struct RegisteredProject {
    pub path: String,
    pub last_opened: String,
}

/// The recent-projects list, oldest registration first.
pub struct ProjectRegistry {
    pub recent: Vec<RegisteredProject>,
}

/// `game.ron`, shipped inside an exported game.
pub struct GameManifest {
    pub name: String,
    pub startup_scene: String,
}

/// Registry model: (path, last opened) pairs.
pub open spec fn registry_view(r: &ProjectRegistry) -> Seq<(Seq<char>, Seq<char>)> {
    r.recent@.map_values(|p: RegisteredProject| (p.path@, p.last_opened@))
}

/// Index of the first registered project with this path.
pub open spec fn first_with_path(s: Seq<(Seq<char>, Seq<char>)>, path: Seq<char>) -> Option<nat>
    decreases s.len(),
{
    if s.len() == 0 {
        None
    } else {
        match first_with_path(s.drop_last(), path) {
            Some(i) => Some(i),
            None => if s.last().0 == path {
                Some((s.len() - 1) as nat)
            } else {
                None
            },
        }
    }
}

/// Registering a project: refresh the date of its entry, or append a new entry.
pub open spec fn registered(s: Seq<(Seq<char>, Seq<char>)>, path: Seq<char>, now: Seq<char>) -> Seq<
    (Seq<char>, Seq<char>),
> {
    match first_with_path(s, path) {
        Some(i) => s.update(i as int, (path, now)),
        None => s.push((path, now)),
    }
}

/// Unregistering: every entry with this path is dropped, order kept.
pub open spec fn unregistered(s: Seq<(Seq<char>, Seq<char>)>, path: Seq<char>) -> Seq<(Seq<char>, Seq<char>)>
    decreases s.len(),
{
    if s.len() == 0 {
        s
    } else {
        let r = unregistered(s.drop_last(), path);
        if s.last().0 == path {
            r
        } else {
            r.push(s.last())
        }
    }
}

proof fn lemma_first_with_path_prefix(s: Seq<(Seq<char>, Seq<char>)>, path: Seq<char>, n: nat)
    requires
        n <= s.len(),
        first_with_path(s.subrange(0, n as int), path) is Some,
    ensures
        first_with_path(s, path) == first_with_path(s.subrange(0, n as int), path),
    decreases s.len() - n,
{
    if n < s.len() {
        assert(s.subrange(0, (n + 1) as int).drop_last() =~= s.subrange(0, n as int));
        lemma_first_with_path_prefix(s, path, n + 1);
    } else {
        assert(s.subrange(0, n as int) =~= s);
    }
}

proof fn lemma_first_with_path(s: Seq<(Seq<char>, Seq<char>)>, path: Seq<char>)
    ensures
        first_with_path(s, path) matches Some(i) ==> i < s.len() && s[i as int].0 == path,
    decreases s.len(),
{
    if s.len() > 0 {
        lemma_first_with_path(s.drop_last(), path);
    }
}

/// Registers a project as opened at `now`: an existing entry for the path
/// gets the new date, otherwise an entry is appended.
pub fn register_project_at(registry: &mut ProjectRegistry, project_path: &str, now: String)
    ensures
        registry_view(final(registry)) == registered(registry_view(old(registry)), project_path@, now@),
{
    let ghost s = registry_view(registry);
    let mut i: usize = 0;
    while i < registry.recent.len()
        invariant
            i <= registry.recent.len(),
            registry_view(registry) == s,
            s == registry_view(old(registry)),
            first_with_path(s.subrange(0, i as int), project_path@) is None,
        decreases registry.recent.len() - i,
    {
        assert(s.subrange(0, i + 1).drop_last() =~= s.subrange(0, i as int));
        if str_eq(registry.recent[i].path.as_str(), project_path) {
            assert(s[i as int].0 == project_path@);
            assert(first_with_path(s.subrange(0, i + 1), project_path@) == Some(i as nat));
            proof {
                lemma_first_with_path_prefix(s, project_path@, (i + 1) as nat);
            }
            let path = registry.recent[i].path.clone();
            let ghost pv = path@;
            let ghost nv = now@;
            assert(pv == project_path@);
            registry.recent.set(i, RegisteredProject { path, last_opened: now });
            assert(registry_view(registry) =~= s.update(i as int, (pv, nv)));
            assert(first_with_path(s, project_path@) == Some(i as nat));
            assert(registry_view(registry) == registered(s, project_path@, nv));
            return ;
        }
        i = i + 1;
    }
    assert(s.subrange(0, s.len() as int) =~= s);
    let ghost nv = now@;
    registry.recent.push(RegisteredProject { path: project_path.to_string(), last_opened: now });
    assert(registry_view(registry) =~= s.push((project_path@, nv)));
}

/// The two date formats this module writes and reads: a full local date-time
/// and a day-month label. Each is made only of items that chrono knows, so
/// formatting with them cannot fail.
pub open spec fn known_date_format(fmt: Seq<char>) -> bool {
    fmt == "%Y-%m-%dT%H:%M:%S"@ || fmt == "%d %b"@
}

/// Registers a project as opened now: the date stored is the local clock's
/// reading, written `%Y-%m-%dT%H:%M:%S`.
pub fn register_project(registry: &mut ProjectRegistry, project_path: &str)
    ensures
        exists|ts: i64|
            #[trigger] formatted_timestamp(ts, "%Y-%m-%dT%H:%M:%S"@) is Some && registry_view(final(registry))
                == registered(
                registry_view(old(registry)),
                project_path@,
                formatted_timestamp(ts, "%Y-%m-%dT%H:%M:%S"@)->0,
            ),
{
    let ts = local_now_timestamp();
    let now = match format_timestamp(ts, "%Y-%m-%dT%H:%M:%S") {
        Some(d) => d,
        None => String::new(),
    };
    let ghost nv = now@;
    register_project_at(registry, project_path, now);
    assert(registry_view(registry) == registered(registry_view(old(registry)), project_path@, nv));
    assert(formatted_timestamp(ts, "%Y-%m-%dT%H:%M:%S"@) is Some);
}

/// Drops every entry registered under this path.
pub fn unregister_project(registry: &mut ProjectRegistry, project_path: &str)
    ensures
        registry_view(final(registry)) == unregistered(registry_view(old(registry)), project_path@),
{
    let ghost s = registry_view(registry);
    let mut kept: Vec<RegisteredProject> = Vec::new();
    let mut i: usize = 0;
    while i < registry.recent.len()
        invariant
            i <= registry.recent.len(),
            registry_view(registry) == s,
            kept@.map_values(|p: RegisteredProject| (p.path@, p.last_opened@)) == unregistered(
                s.subrange(0, i as int),
                project_path@,
            ),
        decreases registry.recent.len() - i,
    {
        assert(s.subrange(0, i + 1).drop_last() =~= s.subrange(0, i as int));
        let ghost kv = kept@.map_values(|p: RegisteredProject| (p.path@, p.last_opened@));
        if !str_eq(registry.recent[i].path.as_str(), project_path) {
            let item = RegisteredProject {
                path: registry.recent[i].path.clone(),
                last_opened: registry.recent[i].last_opened.clone(),
            };
            let ghost iv = (item.path@, item.last_opened@);
            kept.push(item);
            assert(kept@.map_values(|p: RegisteredProject| (p.path@, p.last_opened@)) =~= kv.push(iv));
        }
        i = i + 1;
    }
    assert(s.subrange(0, s.len() as int) =~= s);
    registry.recent = kept;
}

/// Registering a path then unregistering it leaves no entry for that path;
/// entries for other paths are untouched by either step.
pub proof fn law_unregister_removes(s: Seq<(Seq<char>, Seq<char>)>, path: Seq<char>)
    ensures
        forall|k: int| 0 <= k < unregistered(s, path).len() ==> #[trigger] unregistered(s, path)[k].0 != path,
        unregistered(s, path).len() <= s.len(),
    decreases s.len(),
{
    if s.len() > 0 {
        law_unregister_removes(s.drop_last(), path);
    }
}

/// After registering, the path is listed exactly where it was (or at the end),
/// with the new date, and the number of entries grows only for a new path.
pub proof fn law_register_lists_path(s: Seq<(Seq<char>, Seq<char>)>, path: Seq<char>, now: Seq<char>)
    ensures
        registered(s, path, now).contains((path, now)),
        registered(s, path, now).len() == s.len() + if first_with_path(s, path) is Some {
            0int
        } else {
            1int
        },
{
    lemma_first_with_path(s, path);
    match first_with_path(s, path) {
        Some(i) => {
            assert(registered(s, path, now)[i as int] == (path, now));
        },
        None => {
            assert(registered(s, path, now)[s.len() as int] == (path, now));
        },
    }
}

/// Seconds since the Unix epoch of the naive date-time `s` in format `fmt`
/// (`NaiveDateTime::parse_from_str`, read as UTC); `None` when it does not parse.
pub uninterp spec fn parsed_timestamp(s: Seq<char>, fmt: Seq<char>) -> Option<i64>;

/// `chrono::NaiveDateTime::parse_from_str(s, fmt)`, converted to epoch seconds.
#[verifier::external_body]
fn parse_timestamp(s: &str, fmt: &str) -> (r: Option<i64>)
    ensures
        r == parsed_timestamp(s@, fmt@),
{
    match chrono::NaiveDateTime::parse_from_str(s, fmt) {
        Ok(dt) => Some(dt.and_utc().timestamp()),
        Err(_) => None,
    }
}

/// `chrono::Local::now()` as naive local epoch seconds. The value depends on
/// the clock; what holds of every reading is that it comes from a date-time
/// chrono can represent, so chrono has a date-time for it again and can write
/// it in the full date format.
#[verifier::external_body]
fn local_now_timestamp() -> (r: i64)
    ensures
        formatted_timestamp(r, "%Y-%m-%dT%H:%M:%S"@) is Some,
{
    chrono::Local::now().naive_local().and_utc().timestamp()
}

/// The naive date-time at `ts` epoch seconds, formatted with `fmt`
/// (`DateTime::from_timestamp` then `format`); `None` outside chrono's range.
pub uninterp spec fn formatted_timestamp(ts: i64, fmt: Seq<char>) -> Option<Seq<char>>;

/// `DateTime::from_timestamp(ts, 0)`, then `format(fmt).to_string()` on its
/// naive UTC date-time; `None` where chrono has no date-time for `ts`. Only the
/// known formats are admitted, for which `to_string` does not panic.
#[verifier::external_body]
fn format_timestamp(ts: i64, fmt: &str) -> (r: Option<String>)
    requires
        known_date_format(fmt@),
    ensures
        r matches Some(s) ==> formatted_timestamp(ts, fmt@) == Some(s@),
        r is None ==> formatted_timestamp(ts, fmt@) is None,
{
    match chrono::DateTime::from_timestamp(ts, 0) {
        Some(d) => Some(d.naive_utc().format(fmt).to_string()),
        None => None,
    }
}

/// The hub's "time ago" label for something that happened `diff` seconds ago
/// (whole minutes, hours and days truncate toward zero, as chrono counts them);
/// `date` is the day-month label used beyond a week.
pub open spec fn relative_label(diff: i64, date: Seq<char>) -> Seq<char> {
    if diff < 60 {
        "just now"@
    } else if diff < 3600 {
        decimal((diff / 60) as nat) + "m ago"@
    } else if diff < 86400 {
        decimal((diff / 3600) as nat) + "h ago"@
    } else if diff < 172800 {
        "yesterday"@
    } else if diff < 604800 {
        decimal((diff / 86400) as nat) + "d ago"@
    } else {
        date
    }
}

fn append_str(s: &mut String, t: &str)
    ensures
        final(s)@ == old(s)@ + t@,
{
    let cs = crate::text::chars_of(t);
    let mut i: usize = 0;
    while i < cs.len()
        invariant
            i <= cs.len(),
            cs@ == t@,
            s@ == old(s)@ + cs@.subrange(0, i as int),
        decreases cs.len() - i,
    {
        push_char(s, cs[i]);
        i = i + 1;
        assert(s@ =~= old(s)@ + cs@.subrange(0, i as int));
    }
    assert(cs@.subrange(0, cs.len() as int) =~= cs@);
}

/// The day-month label (`%d %b`) of `ts`, or `fallback` outside chrono's range.
pub open spec fn day_month_or(ts: i64, fallback: Seq<char>) -> Seq<char> {
    match formatted_timestamp(ts, "%d %b"@) {
        Some(d) => d,
        None => fallback,
    }
}

/// The label for an event `diff` seconds in the past.
pub fn relative_date_label(diff: i64, date: &str) -> (r: String)
    ensures
        r@ == relative_label(diff, date@),
{
    if diff < 60 {
        "just now".to_string()
    } else if diff < 3600 {
        let mut s = String::new();
        push_decimal(&mut s, (diff / 60) as u64);
        append_str(&mut s, "m ago");
        s
    } else if diff < 86400 {
        let mut s = String::new();
        push_decimal(&mut s, (diff / 3600) as u64);
        append_str(&mut s, "h ago");
        s
    } else if diff < 172800 {
        "yesterday".to_string()
    } else if diff < 604800 {
        let mut s = String::new();
        push_decimal(&mut s, (diff / 86400) as u64);
        append_str(&mut s, "d ago");
        s
    } else {
        date.to_string()
    }
}

/// `now - ts` in seconds, held to the range of `i64`.
pub open spec fn saturated_age(now: i64, ts: i64) -> i64 {
    if now - ts > i64::MAX {
        i64::MAX
    } else if now - ts < i64::MIN {
        i64::MIN
    } else {
        (now - ts) as i64
    }
}

/// The hub's label for a `%Y-%m-%dT%H:%M:%S` date seen at local time `now`
/// (epoch seconds): how long ago it was, or the date as it is when it does not
/// parse.
pub open spec fn relative_date_text(iso: Seq<char>, now: i64) -> Seq<char> {
    match parsed_timestamp(iso, "%Y-%m-%dT%H:%M:%S"@) {
        None => iso,
        Some(ts) => relative_label(saturated_age(now, ts), day_month_or(ts, iso)),
    }
}

/// Formats a `%Y-%m-%dT%H:%M:%S` date as the time from it to `now` ("just
/// now", "5m ago", "3h ago", "yesterday", "4d ago", or "13 Feb"); a date that
/// does not parse is shown as it is.
pub fn relative_date_at(iso: &str, now: i64) -> (r: String)
    ensures
        r@ == relative_date_text(iso@, now),
{
    let ts = match parse_timestamp(iso, "%Y-%m-%dT%H:%M:%S") {
        Some(t) => t,
        None => {
            return iso.to_string();
        },
    };
    let date = match format_timestamp(ts, "%d %b") {
        Some(d) => d,
        None => iso.to_string(),
    };
    let diff = match now.checked_sub(ts) {
        Some(d) => d,
        None => if ts < 0 {
            i64::MAX
        } else {
            i64::MIN
        },
    };
    assert(diff == saturated_age(now, ts));
    assert(date@ == day_month_or(ts, iso@));
    relative_date_label(diff, date.as_str())
}

/// Formats a `%Y-%m-%dT%H:%M:%S` date as the time since then, by the local
/// clock (see `relative_date_at`).
pub fn format_relative_date(iso: &str) -> (r: String)
    ensures
        exists|now: i64| r@ == #[trigger] relative_date_text(iso@, now),
{
    let now = local_now_timestamp();
    relative_date_at(iso, now)
}

} // verus!
