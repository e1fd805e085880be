//! Project names and the user directory as the client keeps them per
//! instance: what a cached map holds, when it is fresh, how rows get their
//! project names, and which names a listing or a single-project answer gives.

use vstd::prelude::*;
use std::collections::HashMap;
use crate::render::MineTableRow;
use crate::groups::{MineTask, build_groups, browse_groups, pairs_s};
use crate::app::ProjectGroup;
use crate::fields::{JsonField, field_str, as_text};
use crate::i18n::{I18n, t, translated};
use crate::resolve::parse_i64;
use crate::textutil::str_eq;
use crate::unicode::chars_of;

verus! {

broadcast use vstd::std_specs::hash::group_hash_axioms;

/// How long a cached project-names map stays fresh, in seconds.
pub const PROJECT_NAMES_TTL_SECS: i64 = 86400;

/// A cached user directory of an instance.
#[derive(Debug, Clone)]
pub struct CachedUserMap {
    pub users: HashMap<i64, String>,
    pub fetched_at: String,
}

/// A cached project-names map of an instance, with the epoch second it was
/// fetched at.
#[derive(Debug, Clone)]
pub struct CachedProjectNames {
    pub names: HashMap<i64, String>,
    pub fetched_at: i64,
}

/// A cached map is fresh while it is younger than the time to live.
pub open spec fn fresh(fetched_at: i64, now: i64, ttl: i64) -> bool {
    now - fetched_at < ttl
}

/// Whether a map fetched at `fetched_at` is still fresh at `now`.
pub fn is_fresh(fetched_at: i64, now: i64, ttl: i64) -> (r: bool)
    ensures
        r == fresh(fetched_at, now, ttl),
{
    let age: i128 = now as i128 - fetched_at as i128;
    age < ttl as i128
}

/// A map stored with string keys, read back keyed by id: the entries whose
/// key parses as an `i64`, a later entry for the same id replacing an earlier
/// one.
pub open spec fn keyed_by_id(raw: Seq<(String, String)>) -> Map<i64, Seq<char>>
    decreases raw.len(),
{
    if raw.len() == 0 {
        Map::empty()
    } else {
        let m = keyed_by_id(raw.drop_last());
        match parse_i64(raw.last().0@) {
            Some(id) => m.insert(id, raw.last().1@),
            None => m,
        }
    }
}

pub open spec fn names_view(m: Map<i64, String>) -> Map<i64, Seq<char>> {
    Map::new(|k: i64| m.dom().contains(k), |k: i64| m[k]@)
}

/// Parses an `i64` the way `str::parse` does.
pub fn parse_i64_text(s: &str) -> (r: Option<i64>)
    ensures
        r == parse_i64(s@),
{
    let cs = chars_of(s);
    proof { assert(cs@.subrange(0, cs@.len() as int) =~= s@); }
    crate::resolve::parse_i64_range(&cs, 0, cs.len())
}

/// The stored (string key, name) pairs of a cached map, keyed by id.
pub fn names_by_id(raw: &[(String, String)]) -> (r: HashMap<i64, String>)
    ensures
        names_view(r@) == keyed_by_id(raw@),
{
    let mut m: HashMap<i64, String> = HashMap::new();
    let mut i: usize = 0;
    proof { assert(names_view(m@) =~= keyed_by_id(raw@.subrange(0, 0))); }
    while i < raw.len()
        invariant
            i <= raw@.len(),
            names_view(m@) == keyed_by_id(raw@.subrange(0, i as int)),
        decreases raw.len() - i,
    {
        proof {
            let sub = raw@.subrange(0, i + 1);
            assert(sub.drop_last() =~= raw@.subrange(0, i as int));
            assert(sub.last() == raw@[i as int]);
        }
        match parse_i64_text(raw[i].0.as_str()) {
            Some(id) => {
                let ghost before = m@;
                m.insert(id, raw[i].1.clone());
                proof {
                    assert(names_view(m@) =~= names_view(before).insert(id, raw@[i as int].1@));
                }
            },
            None => {},
        }
        i += 1;
    }
    proof { assert(raw@.subrange(0, raw@.len() as int) =~= raw@); }
    m
}

/// The string-to-string object that `serde_json::from_str` reads from `text`
/// into a `HashMap<String, String>` (`None` when the text is not such an
/// object: bad JSON, another JSON type, or a value that is not a string).
pub uninterp spec fn json_string_object(text: Seq<char>) -> Option<Map<Seq<char>, Seq<char>>>;

/// Calls `serde_json::from_str::<HashMap<String, String>>` and hands out the
/// entries. A map holds each key once, so the entries have distinct keys and
/// are exactly the object's pairs; their order (the map's) is not stated.
#[verifier::external_body]
pub(crate) fn parse_string_object(text: &str) -> (r: Option<Vec<(String, String)>>)
    ensures
        r is None <==> json_string_object(text@) is None,
        r matches Some(v) ==> (forall|i: int, j: int| 0 <= i < j < v@.len() ==> v@[i].0@ != v@[j].0@)
            && (forall|k: Seq<char>, x: Seq<char>| json_string_object(text@)->0.contains_pair(k, x)
                <==> exists|i: int| 0 <= i < v@.len() && v@[i].0@ == k && v@[i].1@ == x),
{
    serde_json::from_str::<HashMap<String, String>>(text).ok().map(|m| m.into_iter().collect())
}

proof fn lemma_keyed_by_id(raw: Seq<(String, String)>)
    ensures
        forall|id: i64| #[trigger] keyed_by_id(raw).contains_key(id) <==> exists|i: int| 0 <= i < raw.len() && parse_i64(raw[i].0@) == Some(id),
        forall|id: i64| keyed_by_id(raw).contains_key(id) ==> exists|i: int| 0 <= i < raw.len() && parse_i64(raw[i].0@) == Some(id)
            && #[trigger] keyed_by_id(raw)[id] == raw[i].1@,
    decreases raw.len(),
{
    if raw.len() > 0 {
        let p = raw.drop_last();
        lemma_keyed_by_id(p);
        let n = raw.len() - 1;
        assert(raw.last() == raw[n]);
        assert(keyed_by_id(raw) == match parse_i64(raw[n].0@) {
            Some(k) => keyed_by_id(p).insert(k, raw[n].1@),
            None => keyed_by_id(p),
        });
        assert forall|id: i64| #[trigger] keyed_by_id(raw).contains_key(id) <==> exists|i: int| 0 <= i < raw.len() && parse_i64(raw[i].0@) == Some(id) by {
            if keyed_by_id(raw).contains_key(id) && parse_i64(raw[n].0@) != Some(id) {
                assert(keyed_by_id(p).contains_key(id));
                let i = choose|i: int| 0 <= i < p.len() && parse_i64(p[i].0@) == Some(id);
                assert(raw[i] == p[i]);
            }
            if exists|i: int| 0 <= i < raw.len() && parse_i64(raw[i].0@) == Some(id) {
                let i = choose|i: int| 0 <= i < raw.len() && parse_i64(raw[i].0@) == Some(id);
                if i < n {
                    assert(p[i] == raw[i]);
                    assert(keyed_by_id(p).contains_key(id));
                }
            }
        }
        assert forall|id: i64| keyed_by_id(raw).contains_key(id) implies exists|i: int| 0 <= i < raw.len() && parse_i64(raw[i].0@) == Some(id)
            && #[trigger] keyed_by_id(raw)[id] == raw[i].1@ by {
            if parse_i64(raw[n].0@) == Some(id) {
                assert(keyed_by_id(raw)[id] == raw[n].1@);
            } else {
                assert(keyed_by_id(p).contains_key(id));
                assert(keyed_by_id(raw)[id] == keyed_by_id(p)[id]);
                let i = choose|i: int| 0 <= i < p.len() && parse_i64(p[i].0@) == Some(id) && keyed_by_id(p)[id] == p[i].1@;
                assert(raw[i] == p[i]);
            }
        }
    }
}

/// What a stored string-keyed map gives keyed by id: an id is present exactly
/// when some key of the object parses to it (`str::parse::<i64>`), and its name
/// is the value of such a key.
pub open spec fn stored_map_ok(obj: Map<Seq<char>, Seq<char>>, m: Map<i64, Seq<char>>) -> bool {
    &&& forall|id: i64| #[trigger] m.contains_key(id) <==> exists|k: Seq<char>| obj.contains_key(k) && parse_i64(k) == Some(id)
    &&& forall|id: i64| m.contains_key(id) ==> exists|k: Seq<char>| obj.contains_key(k) && parse_i64(k) == Some(id) && obj[k] == #[trigger] m[id]
}

/// A stored map's JSON text (string keys, string names) read back keyed by
/// id; `None` when the text is not such an object.
pub fn stored_names_by_id(text: &str) -> (r: Option<HashMap<i64, String>>)
    ensures
        r is None <==> json_string_object(text@) is None,
        r matches Some(m) ==> stored_map_ok(json_string_object(text@)->0, names_view(m@)),
{
    match parse_string_object(text) {
        None => None,
        Some(pairs) => {
            let m = names_by_id(pairs.as_slice());
            proof {
                let obj = json_string_object(text@)->0;
                let v = pairs@;
                lemma_keyed_by_id(v);
                let nm = names_view(m@);
                assert forall|id: i64| #[trigger] nm.contains_key(id) <==> exists|k: Seq<char>| obj.contains_key(k) && parse_i64(k) == Some(id) by {
                    if nm.contains_key(id) {
                        assert(keyed_by_id(v).contains_key(id));
                        let i = choose|i: int| 0 <= i < v.len() && parse_i64(v[i].0@) == Some(id);
                        assert(obj.contains_pair(v[i].0@, v[i].1@));
                    }
                    if exists|k: Seq<char>| obj.contains_key(k) && parse_i64(k) == Some(id) {
                        let k = choose|k: Seq<char>| obj.contains_key(k) && parse_i64(k) == Some(id);
                        assert(obj.contains_pair(k, obj[k]));
                        let i = choose|i: int| 0 <= i < v.len() && v[i].0@ == k && v[i].1@ == obj[k];
                        assert(parse_i64(v[i].0@) == Some(id));
                    }
                }
                assert forall|id: i64| nm.contains_key(id) implies exists|k: Seq<char>| obj.contains_key(k) && parse_i64(k) == Some(id) && obj[k] == #[trigger] nm[id] by {
                    let i = choose|i: int| 0 <= i < v.len() && parse_i64(v[i].0@) == Some(id) && keyed_by_id(v)[id] == v[i].1@;
                    assert(exists|j: int| 0 <= j < v.len() && v[j].0@ == v[i].0@ && v[j].1@ == v[i].1@);
                    assert(obj.contains_pair(v[i].0@, v[i].1@));
                }
            }
            Some(m)
        },
    }
}

/// The user directory stored for an instance (its text, when there is one),
/// keyed by id; `None` when nothing is stored or the text is not a
/// string-to-string object. No network call.
pub fn cached_user_map(stored: Option<&str>) -> (r: Option<HashMap<i64, String>>)
    ensures
        match stored {
            None => r is None,
            Some(t) => (r is None <==> json_string_object(t@) is None)
                && (r matches Some(m) ==> stored_map_ok(json_string_object(t@)->0, names_view(m@))),
        },
{
    match stored {
        None => None,
        Some(t) => stored_names_by_id(t),
    }
}

// ---------------------------------------------------------------------------
// Rows of the open-task table.
// ---------------------------------------------------------------------------

/// The instances the rows come from, each once, in order of first appearance.
pub open spec fn distinct_names(names: Seq<Seq<char>>) -> Seq<Seq<char>>
    decreases names.len(),
{
    if names.len() == 0 {
        Seq::empty()
    } else {
        let d = distinct_names(names.drop_last());
        if d.contains(names.last()) { d } else { d.push(names.last()) }
    }
}

pub open spec fn row_instances(rows: Seq<MineTableRow>) -> Seq<Seq<char>> {
    rows.map_values(|r: MineTableRow| r.instance@)
}

fn contains_name(v: &Vec<String>, n: &str) -> (r: bool)
    ensures
        r == crate::textutil::strs(v@).contains(n@),
{
    let mut i: usize = 0;
    while i < v.len()
        invariant
            i <= v@.len(),
            forall|k: int| 0 <= k < i ==> v@[k]@ != n@,
        decreases v.len() - i,
    {
        if str_eq(v[i].as_str(), n) {
            proof { assert(crate::textutil::strs(v@)[i as int] == n@); }
            return true;
        }
        i += 1;
    }
    proof {
        if crate::textutil::strs(v@).contains(n@) {
            let k = choose|k: int| 0 <= k < crate::textutil::strs(v@).len() && crate::textutil::strs(v@)[k] == n@;
            assert(v@[k]@ == n@);
        }
    }
    false
}

/// The instances whose project-names cache the rows need, each once: the
/// cache is read at most once per distinct instance.
pub fn row_instance_names(rows: &[MineTableRow]) -> (r: Vec<String>)
    ensures
        crate::textutil::strs(r@) == distinct_names(row_instances(rows@)),
{
    let mut out: Vec<String> = Vec::new();
    let mut i: usize = 0;
    while i < rows.len()
        invariant
            i <= rows@.len(),
            crate::textutil::strs(out@) == distinct_names(row_instances(rows@).subrange(0, i as int)),
        decreases rows.len() - i,
    {
        proof {
            let sub = row_instances(rows@).subrange(0, i + 1);
            assert(sub.drop_last() =~= row_instances(rows@).subrange(0, i as int));
            assert(sub.last() == rows@[i as int].instance@);
        }
        if !contains_name(&out, rows[i].instance.as_str()) {
            let ghost before = crate::textutil::strs(out@);
            out.push(rows[i].instance.clone());
            proof { assert(crate::textutil::strs(out@) =~= before.push(rows@[i as int].instance@)); }
        }
        i += 1;
    }
    proof { assert(row_instances(rows@).subrange(0, rows@.len() as int) =~= row_instances(rows@)); }
    out
}

/// Each instance name appears at most once in the list of instances to read.
pub proof fn law_row_instances_distinct(names: Seq<Seq<char>>)
    ensures
        forall|i: int, j: int| 0 <= i < j < distinct_names(names).len() ==> distinct_names(names)[i] != distinct_names(names)[j],
        forall|k: int| 0 <= k < names.len() ==> distinct_names(names).contains(#[trigger] names[k]),
    decreases names.len(),
{
    if names.len() > 0 {
        law_row_instances_distinct(names.drop_last());
        let d = distinct_names(names.drop_last());
        assert forall|k: int| 0 <= k < names.len() implies distinct_names(names).contains(#[trigger] names[k]) by {
            if k < names.len() - 1 {
                assert(names.drop_last()[k] == names[k]);
                assert(d.contains(names.drop_last()[k]));
                if !d.contains(names.last()) {
                    let j = choose|j: int| 0 <= j < d.len() && d[j] == names[k];
                    assert(d.push(names.last())[j] == names[k]);
                }
            } else {
                if !d.contains(names.last()) {
                    assert(d.push(names.last())[d.len() as int] == names.last());
                }
            }
        }
    }
}

/// The cached map of an instance among the maps read: the first entry for
/// that instance; none when no map was read or none was cached.
pub open spec fn cache_for(caches: Seq<(String, Option<HashMap<i64, String>>)>, inst: Seq<char>) -> Option<Map<i64, String>>
    decreases caches.len(),
{
    if caches.len() == 0 {
        None
    } else if caches[0].0@ == inst {
        match caches[0].1 {
            Some(m) => Some(m@),
            None => None,
        }
    } else {
        cache_for(caches.drop_first(), inst)
    }
}

/// A row's project name from its own instance's cached map: none when the
/// instance has no map or the map lacks the project.
pub open spec fn cached_project_name(caches: Seq<(String, Option<HashMap<i64, String>>)>, r: MineTableRow) -> Option<Seq<char>> {
    match cache_for(caches, r.instance@) {
        Some(m) => if m.dom().contains(r.project_id) { Some(m[r.project_id]@) } else { None },
        None => None,
    }
}

proof fn lemma_cache_for_other(caches: Seq<(String, Option<HashMap<i64, String>>)>, inst: Seq<char>, e: (String, Option<HashMap<i64, String>>))
    requires
        e.0@ != inst,
    ensures
        cache_for(caches.push(e), inst) == cache_for(caches, inst),
    decreases caches.len(),
{
    let c2 = caches.push(e);
    if caches.len() > 0 {
        assert(c2[0] == caches[0]);
        assert(c2.drop_first() =~= caches.drop_first().push(e));
        lemma_cache_for_other(caches.drop_first(), inst, e);
    } else {
        assert(c2.drop_first() =~= Seq::<(String, Option<HashMap<i64, String>>)>::empty());
        assert(c2[0] == e);
        assert(cache_for(c2.drop_first(), inst) is None);
    }
}

/// A row's project name comes from its own instance's map only: rows of one
/// instance and project get the same name, an instance with no map gives none,
/// and adding another instance's map changes nothing.
pub proof fn law_names_follow_own_instance(
    caches: Seq<(String, Option<HashMap<i64, String>>)>,
    a: MineTableRow,
    b: MineTableRow,
    e: (String, Option<HashMap<i64, String>>),
)
    ensures
        a.instance@ == b.instance@ && a.project_id == b.project_id ==> cached_project_name(caches, a) == cached_project_name(caches, b),
        cache_for(caches, a.instance@) is None ==> cached_project_name(caches, a) is None,
        e.0@ != a.instance@ ==> cached_project_name(caches.push(e), a) == cached_project_name(caches, a),
{
    if e.0@ != a.instance@ {
        lemma_cache_for_other(caches, a.instance@, e);
    }
}

fn find_cache<'a>(caches: &'a [(String, Option<HashMap<i64, String>>)], inst: &str) -> (r: Option<&'a HashMap<i64, String>>)
    ensures
        match r {
            Some(m) => cache_for(caches@, inst@) == Some(m@),
            None => cache_for(caches@, inst@) is None,
        },
{
    let mut i: usize = 0;
    proof { assert(caches@.skip(0) =~= caches@); }
    while i < caches.len()
        invariant
            i <= caches@.len(),
            cache_for(caches@, inst@) == cache_for(caches@.skip(i as int), inst@),
        decreases caches.len() - i,
    {
        proof {
            assert(caches@.skip(i as int)[0] == caches@[i as int]);
            assert(caches@.skip(i as int).drop_first() =~= caches@.skip(i + 1));
        }
        if str_eq(caches[i].0.as_str(), inst) {
            return match &caches[i].1 {
                Some(m) => Some(m),
                None => None,
            };
        }
        i += 1;
    }
    None
}

/// The rows with each `project_name` resolved from the project-names map of
/// the row's own instance (`caches`: the map read for each instance, if any);
/// a project id cached under one instance never names a row of another.
pub fn attach_project_names(rows: Vec<MineTableRow>, caches: &[(String, Option<HashMap<i64, String>>)]) -> (r: Vec<MineTableRow>)
    ensures
        r@.len() == rows@.len(),
        forall|i: int| 0 <= i < r@.len() ==> {
            &&& (#[trigger] r@[i]).instance@ == rows@[i].instance@
            &&& r@[i].project_id == rows@[i].project_id
            &&& r@[i].task_number == rows@[i].task_number
            &&& r@[i].task_id == rows@[i].task_id
            &&& r@[i].name@ == rows@[i].name@
            &&& r@[i].due_on == rows@[i].due_on
            &&& (match r@[i].project_name {
                Some(n) => cached_project_name(caches@, rows@[i]) == Some(n@),
                None => cached_project_name(caches@, rows@[i]) is None,
            })
        },
{
    let n = rows.len();
    let mut rest = rows;
    let mut out: Vec<MineTableRow> = Vec::new();
    let mut i: usize = 0;
    proof { assert(rest@ =~= rows@.subrange(0, n as int)); }
    while i < n
        invariant
            i <= n,
            n == rows@.len(),
            rest@ == rows@.subrange(i as int, n as int),
            out@.len() == i,
            forall|k: int| 0 <= k < i ==> {
                &&& (#[trigger] out@[k]).instance@ == rows@[k].instance@
                &&& out@[k].project_id == rows@[k].project_id
                &&& out@[k].task_number == rows@[k].task_number
                &&& out@[k].task_id == rows@[k].task_id
                &&& out@[k].name@ == rows@[k].name@
                &&& out@[k].due_on == rows@[k].due_on
                &&& (match out@[k].project_name {
                    Some(nm) => cached_project_name(caches@, rows@[k]) == Some(nm@),
                    None => cached_project_name(caches@, rows@[k]) is None,
                })
            },
        decreases n - i,
    {
        let mut row = rest.remove(0);
        proof {
            assert(row == rows@[i as int]);
            assert(rest@ =~= rows@.subrange(i + 1, n as int));
        }
        let ghost orig = row;
        let name = match find_cache(caches, row.instance.as_str()) {
            Some(m) => match m.get(&row.project_id) {
                Some(v) => Some(v.clone()),
                None => None,
            },
            None => None,
        };
        row.project_name = name;
        out.push(row);
        proof {
            assert(out@[i as int].instance == orig.instance);
        }
        i += 1;
    }
    out
}

/// A project's name from its instance's cached map, else the translated
/// "(unknown)"; never a network request.
pub fn project_name_from_cache(names: Option<&HashMap<i64, String>>, project_id: i64, i18n: &I18n) -> (r: String)
    ensures
        r@ == (match names {
            Some(m) => if m@.dom().contains(project_id) { m@[project_id]@ } else { translated(i18n.language@, i18n.catalog.entries@, "(unknown)"@) },
            None => translated(i18n.language@, i18n.catalog.entries@, "(unknown)"@),
        }),
{
    if let Some(m) = names {
        if let Some(v) = m.get(&project_id) {
            return v.clone();
        }
    }
    t(i18n, "(unknown)")
}

// ---------------------------------------------------------------------------
// Answers of the projects endpoints.
// ---------------------------------------------------------------------------

/// The fields of a projects-list entry that naming reads.
#[derive(Debug, Clone)]
pub struct ProjectEntry {
    pub id: Option<i64>,
    pub name: Option<String>,
}

/// The (id, name) pairs of a projects listing: only a 200 lists any; entries
/// without an integer id are skipped; a missing or non-string name is empty.
pub open spec fn listed_names(status: u16, projects: Seq<ProjectEntry>) -> Seq<(i64, Seq<char>)>
    decreases projects.len(),
{
    if status != 200 || projects.len() == 0 {
        Seq::empty()
    } else {
        let rest = listed_names(status, projects.drop_last());
        match projects.last().id {
            Some(id) => rest.push((id, match projects.last().name { Some(n) => n@, None => Seq::empty() })),
            None => rest,
        }
    }
}

/// The project names a listing answer gives, in listing order.
pub fn project_names_from_listing(status: u16, projects: &[ProjectEntry]) -> (r: Vec<(i64, String)>)
    ensures
        crate::client::pairs_view(r@) == listed_names(status, projects@),
{
    let mut out: Vec<(i64, String)> = Vec::new();
    if status != 200 {
        return out;
    }
    let mut i: usize = 0;
    proof { assert(crate::client::pairs_view(out@) =~= listed_names(status, projects@.subrange(0, 0))); }
    while i < projects.len()
        invariant
            status == 200,
            i <= projects@.len(),
            crate::client::pairs_view(out@) == listed_names(status, projects@.subrange(0, i as int)),
        decreases projects.len() - i,
    {
        proof {
            let sub = projects@.subrange(0, i + 1);
            assert(sub.drop_last() =~= projects@.subrange(0, i as int));
            assert(sub.last() == projects@[i as int]);
        }
        if let Some(id) = projects[i].id {
            let name = match &projects[i].name {
                Some(n) => n.clone(),
                None => String::new(),
            };
            let ghost before = crate::client::pairs_view(out@);
            out.push((id, name));
            proof { assert(crate::client::pairs_view(out@) =~= before.push((id, name@))); }
        }
        i += 1;
    }
    proof { assert(projects@.subrange(0, projects@.len() as int) =~= projects@); }
    out
}

/// A single-project answer's name: only on a 200; the `single` object's
/// `name` when that key is there (whatever its value), else the top-level
/// `name`; it must be a non-empty string.
pub open spec fn single_project_name(status: u16, single_name: JsonField, flat_name: JsonField) -> Option<Seq<char>> {
    if status != 200 {
        None
    } else {
        let chosen = if single_name is Absent { flat_name } else { single_name };
        match field_str(chosen) {
            Some(s) => if s.len() > 0 { Some(s) } else { None },
            None => None,
        }
    }
}

/// The name in a `GET /api/v1/projects/{id}` answer.
pub fn project_name_from_response(status: u16, single_name: &JsonField, flat_name: &JsonField) -> (r: Option<String>)
    ensures
        match r {
            Some(s) => single_project_name(status, *single_name, *flat_name) == Some(s@),
            None => single_project_name(status, *single_name, *flat_name) is None,
        },
{
    if status != 200 {
        return None;
    }
    let chosen = match single_name {
        JsonField::Absent => flat_name,
        _ => single_name,
    };
    match as_text(chosen) {
        Some(s) => if s.as_str().is_empty() { None } else { Some(s) },
        None => None,
    }
}

// ---------------------------------------------------------------------------
// The browse list across instances.
// ---------------------------------------------------------------------------

/// What one instance contributed: its name, its open tasks and its project
/// names.
pub struct InstanceTasks {
    pub instance: String,
    pub tasks: Vec<MineTask>,
    pub project_names: Vec<(i64, String)>,
}

pub open spec fn all_tasks(per: Seq<InstanceTasks>) -> Seq<MineTask>
    decreases per.len(),
{
    if per.len() == 0 {
        Seq::empty()
    } else {
        all_tasks(per.drop_last()) + per.last().tasks@.map_values(|t: MineTask| MineTask { instance_name: per.last().instance, ..t })
    }
}

pub open spec fn all_names(per: Seq<InstanceTasks>) -> Seq<(String, i64, String)>
    decreases per.len(),
{
    if per.len() == 0 {
        Seq::empty()
    } else {
        all_names(per.drop_last()) + per.last().project_names@.map_values(|p: (i64, String)| (per.last().instance, p.0, p.1))
    }
}

/// Open tasks of every instance, grouped by instance and project for the
/// browse list (each task tagged with its instance's name, each group named
/// from that instance's project names).
pub fn tasks_by_project(per_instance: Vec<InstanceTasks>) -> (r: Vec<(ProjectGroup, String)>)
    ensures
        pairs_s(r@) == browse_groups(all_tasks(per_instance@), all_names(per_instance@)),
{
    let mut tasks: Vec<MineTask> = Vec::new();
    let mut names: Vec<(String, i64, String)> = Vec::new();
    let n = per_instance.len();
    let mut rest = per_instance;
    let mut i: usize = 0;
    let ghost src = rest@;
    proof { assert(rest@ =~= src.subrange(0, n as int)); }
    while i < n
        invariant
            i <= n,
            n == src.len(),
            rest@ == src.subrange(i as int, n as int),
            tasks@ == all_tasks(src.subrange(0, i as int)),
            names@ == all_names(src.subrange(0, i as int)),
        decreases n - i,
    {
        let entry = rest.remove(0);
        proof {
            assert(entry == src[i as int]);
            assert(rest@ =~= src.subrange(i + 1, n as int));
            let sub = src.subrange(0, i + 1);
            assert(sub.drop_last() =~= src.subrange(0, i as int));
            assert(sub.last() == entry);
        }
        let InstanceTasks { instance, tasks: its, project_names } = entry;
        let ghost t0 = tasks@;
        let ghost n0 = names@;
        let m = its.len();
        let mut ts = its;
        let mut j: usize = 0;
        let ghost tsrc = ts@;
        proof { assert(ts@ =~= tsrc.subrange(0, m as int)); }
        while j < m
            invariant
                j <= m,
                m == tsrc.len(),
                ts@ == tsrc.subrange(j as int, m as int),
                tasks@ == t0 + tsrc.subrange(0, j as int).map_values(|t: MineTask| MineTask { instance_name: instance, ..t }),
            decreases m - j,
        {
            let mut t = ts.remove(0);
            proof {
                assert(t == tsrc[j as int]);
                assert(ts@ =~= tsrc.subrange(j + 1, m as int));
            }
            let ghost before = tasks@;
            t.instance_name = instance.clone();
            tasks.push(t);
            proof {
                assert(tsrc.subrange(0, j + 1).map_values(|t: MineTask| MineTask { instance_name: instance, ..t })
                    =~= tsrc.subrange(0, j as int).map_values(|t: MineTask| MineTask { instance_name: instance, ..t }).push(t));
                assert(tasks@ =~= t0 + tsrc.subrange(0, j + 1).map_values(|t: MineTask| MineTask { instance_name: instance, ..t }));
            }
            j += 1;
        }
        proof { assert(tsrc.subrange(0, m as int) =~= tsrc); }
        let mut k: usize = 0;
        while k < project_names.len()
            invariant
                k <= project_names@.len(),
                names@ == n0 + project_names@.subrange(0, k as int).map_values(|p: (i64, String)| (instance, p.0, p.1)),
            decreases project_names.len() - k,
        {
            let ghost before = names@;
            names.push((instance.clone(), project_names[k].0, project_names[k].1.clone()));
            proof {
                assert(project_names@.subrange(0, k + 1).map_values(|p: (i64, String)| (instance, p.0, p.1))
                    =~= project_names@.subrange(0, k as int).map_values(|p: (i64, String)| (instance, p.0, p.1)).push((instance, project_names@[k as int].0, project_names@[k as int].1)));
                assert(names@ =~= n0 + project_names@.subrange(0, k + 1).map_values(|p: (i64, String)| (instance, p.0, p.1)));
            }
            k += 1;
        }
        proof { assert(project_names@.subrange(0, project_names@.len() as int) =~= project_names@); }
        i += 1;
    }
    proof { assert(src.subrange(0, n as int) =~= src); }
    build_groups(tasks.as_slice(), names.as_slice())
}

} // verus!
