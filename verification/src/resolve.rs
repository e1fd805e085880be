//! Resolving what a command acts on: which configured instance, and which task
//! (from a task URL, a `PROJECT_ID/TASK_ID` pair, or the git branch name).

use vstd::prelude::*;
use crate::textutil::{ascii_digit, is_ascii_digit, owned, join, join_strings, strs};
use crate::unicode::{chars_of, string_of, push_str, decimal_digit, is_decimal_digit};
use crate::scan::{at, at_exec};
use crate::i18n::{I18n, t, translated};
use crate::cli::{all_digits, has_prefix, feature_prefix, hotfix_prefix, fix_prefix, digits_between, strip_prefix_len};

verus! {

/// A configured ActiveCollab instance.
#[derive(Debug, Clone)]
pub struct Instance {
    pub name: String,
    pub base_url: String,
    pub email: String,
    pub token: String,
    pub user_id: Option<i64>,
}

impl Instance {
    /// A copy of the instance.
    pub fn duplicate(&self) -> (r: Instance)
        ensures
            r == *self,
    {
        Instance {
            name: self.name.clone(),
            base_url: self.base_url.clone(),
            email: self.email.clone(),
            token: self.token.clone(),
            user_id: self.user_id,
        }
    }
}

/// A command's failure: its exit status and the message for standard error.
#[derive(Debug, Clone)]
pub struct CliError {
    pub code: i32,
    pub message: String,
}

// ---------------------------------------------------------------------------
// Integers.
// ---------------------------------------------------------------------------

pub open spec fn digit_val(c: char) -> int {
    c as int - '0' as int
}

/// The value of a string of decimal digits.
pub open spec fn digits_value(s: Seq<char>) -> int
    decreases s.len(),
{
    if s.len() == 0 {
        0
    } else {
        digits_value(s.drop_last()) * 10 + digit_val(s.last())
    }
}

/// What `str::parse::<i64>` gives: an optional `+` or `-`, then one or more
/// ASCII digits, within the range of `i64`.
pub open spec fn parse_i64(s: Seq<char>) -> Option<i64> {
    let signed = s.len() > 0 && (s[0] == '+' || s[0] == '-');
    let body = if signed { s.skip(1) } else { s };
    let v = if signed && s[0] == '-' { -digits_value(body) } else { digits_value(body) };
    if body.len() == 0 || !all_digits(body) || v < i64::MIN || v > i64::MAX {
        None
    } else {
        Some(v as i64)
    }
}

proof fn lemma_digits_value_prefix(s: Seq<char>, k: int)
    requires
        all_digits(s),
        0 <= k <= s.len(),
    ensures
        0 <= digits_value(s.take(k)) <= digits_value(s),
    decreases s.len(),
{
    if s.len() > 0 {
        let p = s.drop_last();
        assert(all_digits(p)) by {
            assert forall|i: int| 0 <= i < p.len() implies ascii_digit(#[trigger] p[i]) by {
                assert(p[i] == s[i]);
            }
        }
        assert(ascii_digit(s[s.len() - 1]));
        if k == s.len() {
            assert(s.take(k) =~= s);
            lemma_digits_value_prefix(p, p.len() as int);
            assert(p.take(p.len() as int) =~= p);
        } else {
            lemma_digits_value_prefix(p, k);
            assert(p.take(k) =~= s.take(k));
            lemma_digits_value_prefix(p, p.len() as int);
            assert(p.take(p.len() as int) =~= p);
        }
    } else {
        assert(s.take(k) =~= s);
    }
}

/// `str::parse::<i64>` of the characters `from..to`.
pub(crate) fn parse_i64_range(cs: &Vec<char>, from: usize, to: usize) -> (r: Option<i64>)
    requires
        from <= to <= cs@.len(),
    ensures
        r == parse_i64(cs@.subrange(from as int, to as int)),
{
    let ghost s = cs@.subrange(from as int, to as int);
    let mut i = from;
    let mut neg = false;
    let signed = i < to && (cs[i] == '+' || cs[i] == '-');
    if signed {
        neg = cs[i] == '-';
        i += 1;
    }
    let ghost body = if signed { s.skip(1) } else { s };
    proof {
        assert(body =~= cs@.subrange(i as int, to as int));
        assert(s.len() > 0 ==> s[0] == cs@[from as int]);
        assert(signed == (s.len() > 0 && (s[0] == '+' || s[0] == '-')));
        assert(neg == (signed && s[0] == '-'));
    }
    if i == to {
        return None;
    }
    let start = i;
    let mut acc: i128 = 0;
    while i < to
        invariant
            from <= start <= i <= to <= cs@.len(),
            start < to,
            body == cs@.subrange(start as int, to as int),
            s == cs@.subrange(from as int, to as int),
            signed == (s.len() > 0 && (s[0] == '+' || s[0] == '-')),
            body == (if signed { s.skip(1) } else { s }),
            neg == (signed && s[0] == '-'),
            acc as int == digits_value(cs@.subrange(start as int, i as int)),
            0 <= acc <= 9223372036854775808i128,
            forall|k: int| start <= k < i ==> ascii_digit(#[trigger] cs@[k]),
        decreases to - i,
    {
        let c = cs[i];
        if !is_ascii_digit(c) {
            proof {
                assert(body[i - start] == c);
                assert(!ascii_digit(body[i - start]));
                assert(!all_digits(body));
            }
            return None;
        }
        let d = (c as u32 - '0' as u32) as i128;
        let ghost pre = cs@.subrange(start as int, i as int);
        proof {
            let nxt = cs@.subrange(start as int, i + 1);
            assert(nxt.drop_last() =~= pre);
            assert(nxt.last() == c);
        }
        acc = acc * 10 + d;
        i += 1;
        if acc > 9223372036854775808i128 {
            proof {
                if all_digits(body) {
                    lemma_digits_value_prefix(body, i - start);
                    assert(body.take(i - start) =~= cs@.subrange(start as int, i as int));
                    assert(digits_value(body) > 9223372036854775808);
                }
            }
            return None;
        }
    }
    proof {
        assert(cs@.subrange(start as int, i as int) =~= body);
        assert forall|k: int| 0 <= k < body.len() implies ascii_digit(#[trigger] body[k]) by {
            assert(body[k] == cs@[start + k]);
        }
    }
    let v: i128 = if neg { -acc } else { acc };
    if v < -9223372036854775808i128 || v > 9223372036854775807i128 {
        None
    } else {
        Some(v as i64)
    }
}

// ---------------------------------------------------------------------------
// Task references.
// ---------------------------------------------------------------------------

pub open spec fn projects_pat() -> Seq<char> {
    seq!['/', 'p', 'r', 'o', 'j', 'e', 'c', 't', 's', '/']
}

pub open spec fn tasks_pat() -> Seq<char> {
    seq!['/', 't', 'a', 's', 'k', 's', '/']
}

/// The end of the run of `\d` characters starting at `k`.
pub open spec fn dec_run_end(s: Seq<char>, k: int) -> int
    decreases s.len() - k,
{
    if k < 0 || k >= s.len() || !decimal_digit(s[k]) {
        k
    } else {
        dec_run_end(s, k + 1)
    }
}

/// `/projects/(\d+)/tasks/(\d+)` matched at `i`, as the two digit ranges.
pub open spec fn task_url_at(s: Seq<char>, i: int) -> Option<(int, int, int, int)> {
    if at(s, i, projects_pat()) {
        let a = i + 10;
        let b = dec_run_end(s, a);
        if b > a && at(s, b, tasks_pat()) {
    let c = b + 7;
            let d = dec_run_end(s, c);
            if d > c {
                Some((a, b, c, d))
            } else {
                None
            }
        } else {
            None
        }
    } else {
        None
    }
}

/// The leftmost match of `/projects/(\d+)/tasks/(\d+)` at or after `i`.
pub open spec fn first_task_url(s: Seq<char>, i: int) -> Option<(int, int, int, int)>
    decreases s.len() + 1 - i,
{
    if i < 0 || i > s.len() {
        None
    } else {
        match task_url_at(s, i) {
            Some(m) => Some(m),
            None => first_task_url(s, i + 1),
        }
    }
}

/// The positions of `/` in `s`.
pub open spec fn slashes(s: Seq<char>) -> Seq<int>
    decreases s.len(),
{
    if s.len() == 0 {
        Seq::empty()
    } else {
        slashes(s.drop_last()) + if s.last() == '/' { seq![s.len() - 1] } else { Seq::empty() }
    }
}

/// The project and task ids a reference names: the first task URL in it, else
/// a `P/T` pair of integers (exactly one `/`).
pub open spec fn task_ref_ids(s: Seq<char>) -> Option<(i64, i64)> {
    match first_task_url(s, 0) {
        Some(m) => match (parse_i64(s.subrange(m.0, m.1)), parse_i64(s.subrange(m.2, m.3))) {
            (Some(p), Some(q)) => Some((p, q)),
            _ => None,
        },
        None => {
            let sl = slashes(s);
            if sl.len() == 1 {
                match (parse_i64(s.take(sl[0])), parse_i64(s.skip(sl[0] + 1))) {
                    (Some(p), Some(q)) => Some((p, q)),
                    _ => None,
                }
            } else {
                None
            }
        },
    }
}

pub open spec fn cannot_parse_msg(r: Seq<char>) -> Seq<char> {
    "Error: cannot parse task ref '"@ + r + "'. Use URL or PROJECT_ID/TASK_ID (e.g. 665/75159)."@
}

fn dec_run_end_exec(cs: &Vec<char>, k: usize) -> (r: usize)
    requires
        k <= cs@.len(),
    ensures
        r as int == dec_run_end(cs@, k as int),
        k <= r <= cs@.len(),
{
    let mut j = k;
    while j < cs.len() && is_decimal_digit(cs[j])
        invariant
            k <= j <= cs@.len(),
            dec_run_end(cs@, k as int) == dec_run_end(cs@, j as int),
        decreases cs.len() - j,
    {
        j += 1;
    }
    j
}

fn task_url_at_exec(cs: &Vec<char>, i: usize, pp: &Vec<char>, tp: &Vec<char>) -> (r: Option<(usize, usize, usize, usize)>)
    requires
        pp@ == projects_pat(),
        tp@ == tasks_pat(),
    ensures
        match r {
            Some(m) => task_url_at(cs@, i as int) == Some((m.0 as int, m.1 as int, m.2 as int, m.3 as int))
                && m.0 <= m.1 <= m.2 <= m.3 <= cs@.len(),
            None => task_url_at(cs@, i as int) is None,
        },
{
    proof {
        assert(projects_pat().len() == 10);
        assert(tasks_pat().len() == 7);
    }
    let n = cs.len();
    if !at_exec(cs, i, pp) {
        return None;
    }
    assert(i + 10 <= cs@.len());
    let a = i + 10;
    let b = dec_run_end_exec(cs, a);
    if b <= a || !at_exec(cs, b, tp) {
        return None;
    }
    assert(b + 7 <= cs@.len());
    let c = b + 7;
    let d = dec_run_end_exec(cs, c);
    if d <= c {
        return None;
    }
    Some((a, b, c, d))
}

fn pattern(cs: &[char]) -> (r: Vec<char>)
    ensures
        r@ == cs@,
{
    let mut v: Vec<char> = Vec::new();
    let mut i: usize = 0;
    while i < cs.len()
        invariant
            i <= cs@.len(),
            v@ == cs@.subrange(0, i as int),
        decreases cs.len() - i,
    {
        v.push(cs[i]);
        i += 1;
        proof { assert(v@ =~= cs@.subrange(0, i as int)); }
    }
    proof { assert(cs@.subrange(0, cs@.len() as int) =~= cs@); }
    v
}

fn cannot_parse(i18n: &I18n, r: &str) -> (e: CliError)
    ensures
        e.code == 2,
        e.message@ == translated(i18n.language@, i18n.catalog.entries@, cannot_parse_msg(r@)),
{
    let mut m = owned("Error: cannot parse task ref '");
    push_str(&mut m, r);
    push_str(&mut m, "'. Use URL or PROJECT_ID/TASK_ID (e.g. 665/75159).");
    let msg = t(i18n, m.as_str());
    CliError { code: 2, message: msg }
}

/// The first `/projects/P/tasks/T` in `cs`, as the bounds of its two digit runs.
fn first_task_url_exec(cs: &Vec<char>) -> (r: Option<(usize, usize, usize, usize)>)
    ensures
        match r {
            Some(m) => first_task_url(cs@, 0) == Some((m.0 as int, m.1 as int, m.2 as int, m.3 as int))
                && m.0 <= m.1 <= m.2 <= m.3 <= cs@.len(),
            None => first_task_url(cs@, 0) is None,
        },
{
    let pp = pattern(&['/', 'p', 'r', 'o', 'j', 'e', 'c', 't', 's', '/']);
    let tp = pattern(&['/', 't', 'a', 's', 'k', 's', '/']);
    proof {
        assert(pp@ =~= projects_pat());
        assert(tp@ =~= tasks_pat());
    }
    let n = cs.len();
    let mut i: usize = 0;
    let mut found: Option<(usize, usize, usize, usize)> = None;
    while i < n && found.is_none()
        invariant
            n == cs@.len(),
            pp@ == projects_pat(),
            tp@ == tasks_pat(),
            i <= n,
            match found {
                Some(m) => first_task_url(cs@, 0) == Some((m.0 as int, m.1 as int, m.2 as int, m.3 as int))
                    && m.0 <= m.1 <= m.2 <= m.3 <= cs@.len(),
                None => first_task_url(cs@, 0) == first_task_url(cs@, i as int),
            },
        decreases n - i, if found is None { 1int } else { 0int },
    {
        match task_url_at_exec(cs, i, &pp, &tp) {
            Some(m) => {
                found = Some(m);
            },
            None => {
                i += 1;
            },
        }
    }
    proof {
        if found is None {
            assert(projects_pat().len() == 10);
            assert(task_url_at(cs@, n as int) is None);
            assert(first_task_url(cs@, n + 1) is None);
        }
    }
    found
}

/// Project and task ids from a task URL (its first `/projects/P/tasks/T`) or a
/// `P/T` pair; an unparseable reference, ids that do not fit an `i64`
/// included, is an error with status 2.
pub fn parse_task_ref(ref_: &str, i18n: &I18n) -> (r: Result<(i64, i64), CliError>)
    ensures
        match r {
            Ok(ids) => task_ref_ids(ref_@) == Some(ids),
            Err(e) => task_ref_ids(ref_@) is None && e.code == 2 && e.message@ == translated(
                i18n.language@,
                i18n.catalog.entries@,
                cannot_parse_msg(ref_@),
            ),
        },
{
    let cs = chars_of(ref_);
    let n = cs.len();
    let found = first_task_url_exec(&cs);
    match found {
        Some(m) => {
            let p = parse_i64_range(&cs, m.0, m.1);
            let q = parse_i64_range(&cs, m.2, m.3);
            match (p, q) {
                (Some(pid), Some(tid)) => {
                    return Ok((pid, tid));
                },
                _ => {
                    return Err(cannot_parse(i18n, ref_));
                },
            }
        },
        None => {},
    }
    // No task URL: a `P/T` pair split at the only slash.
    let mut count: usize = 0;
    let mut pos: usize = 0;
    let mut k: usize = 0;
    while k < n
        invariant
            n == cs@.len(),
            k <= n,
            count as int == slashes(cs@.subrange(0, k as int)).len(),
            count <= k,
            count >= 1 ==> pos as int == slashes(cs@.subrange(0, k as int))[0] && pos < k,
        decreases n - k,
    {
        let ghost pre = cs@.subrange(0, k as int);
        proof {
            let nxt = cs@.subrange(0, k + 1);
            assert(nxt.drop_last() =~= pre);
            assert(nxt.last() == cs@[k as int]);
        }
        if cs[k] == '/' {
            if count == 0 {
                pos = k;
            }
            count += 1;
        }
        k += 1;
    }
    proof {
        assert(cs@.subrange(0, n as int) =~= cs@);
        assert(projects_pat().len() == 10);
        assert(task_url_at(cs@, n as int) is None);
        assert(first_task_url(cs@, n + 1) is None);
        assert(first_task_url(cs@, n as int) is None);
    }
    if count == 1 {
        let p = parse_i64_range(&cs, 0, pos);
        let q = parse_i64_range(&cs, pos + 1, n);
        proof {
            assert(cs@.take(pos as int) =~= cs@.subrange(0, pos as int));
            assert(cs@.skip(pos + 1) =~= cs@.subrange(pos + 1, n as int));
        }
        match (p, q) {
            (Some(pid), Some(tid)) => {
                return Ok((pid, tid));
            },
            _ => {},
        }
    }
    Err(cannot_parse(i18n, ref_))
}

/// The part of a branch name after `feature/`, `hotfix/` or `fix/`.
pub open spec fn branch_rest(b: Seq<char>) -> Option<Seq<char>> {
    if has_prefix(b, feature_prefix()) {
        Some(b.skip(8))
    } else if has_prefix(b, hotfix_prefix()) {
        Some(b.skip(7))
    } else if has_prefix(b, fix_prefix()) {
        Some(b.skip(4))
    } else {
        None
    }
}

/// The position of the first `-` in `r` (its length when there is none).
pub open spec fn first_dash(r: Seq<char>) -> int
    decreases r.len(),
{
    if r.len() == 0 {
        0
    } else {
        let p = first_dash(r.drop_last());
        if p < r.len() - 1 {
            p
        } else if r.last() == '-' {
            r.len() - 1
        } else {
            r.len() as int
        }
    }
}

/// The ids a task branch (`feature|hotfix|fix/<pid>-<tid>`) names, when both
/// convert to `i64`.
pub open spec fn branch_ids(b: Seq<char>) -> Option<(i64, i64)> {
    match branch_rest(b) {
        None => None,
        Some(r) => {
            let d = first_dash(r);
            if 0 < d < r.len() - 1 && all_digits(r.take(d)) && all_digits(r.skip(d + 1)) {
                match (parse_i64(r.take(d)), parse_i64(r.skip(d + 1))) {
                    (Some(p), Some(q)) => Some((p, q)),
                    _ => None,
                }
            } else {
                None
            }
        },
    }
}

fn first_dash_from(cs: &Vec<char>, from: usize) -> (r: usize)
    requires
        from <= cs@.len(),
    ensures
        from <= r <= cs@.len(),
        r - from == first_dash(cs@.skip(from as int)),
        forall|k: int| from <= k < r ==> cs@[k] != '-',
        r < cs@.len() ==> cs@[r as int] == '-',
{
    let mut d = from;
    while d < cs.len() && cs[d] != '-'
        invariant
            from <= d <= cs@.len(),
            forall|k: int| from <= k < d ==> cs@[k] != '-',
        decreases cs.len() - d,
    {
        d += 1;
    }
    proof {
        lemma_first_dash(cs@.skip(from as int), d - from);
    }
    d
}

proof fn lemma_first_dash(r: Seq<char>, d: int)
    requires
        0 <= d <= r.len(),
        forall|k: int| 0 <= k < d ==> r[k] != '-',
        d < r.len() ==> r[d] == '-',
    ensures
        first_dash(r) == d,
    decreases r.len(),
{
    if r.len() > 0 {
        let p = r.drop_last();
        if d == r.len() {
            lemma_first_dash_none(p);
        } else {
            if d < p.len() {
                lemma_first_dash(p, d);
            } else {
                lemma_first_dash_none(p);
            }
        }
    }
}

proof fn lemma_first_dash_none(r: Seq<char>)
    requires
        forall|k: int| 0 <= k < r.len() ==> r[k] != '-',
    ensures
        first_dash(r) == r.len(),
    decreases r.len(),
{
    if r.len() > 0 {
        lemma_first_dash_none(r.drop_last());
    }
}

proof fn lemma_first_dash_props(r: Seq<char>)
    ensures
        0 <= first_dash(r) <= r.len(),
        forall|i: int| 0 <= i < first_dash(r) ==> r[i] != '-',
        first_dash(r) < r.len() ==> r[first_dash(r)] == '-',
    decreases r.len(),
{
    if r.len() > 0 {
        let d = r.drop_last();
        lemma_first_dash_props(d);
        assert forall|i: int| 0 <= i < first_dash(r) implies r[i] != '-' by {
            if i < d.len() {
                assert(r[i] == d[i]);
            }
        }
        if first_dash(d) < d.len() {
            assert(r[first_dash(d)] == d[first_dash(d)]);
        }
    }
}

/// `b` is `feature/`, `hotfix/` or `fix/`, then the digits of `p`, a dash and
/// the digits of `t` (each a non-empty digit string that `str::parse` reads).
pub open spec fn task_branch_form(b: Seq<char>, p: i64, t: i64) -> bool {
    exists|k: Seq<char>, ps: Seq<char>, ts: Seq<char>|
        (k == feature_prefix() || k == hotfix_prefix() || k == fix_prefix())
        && ps.len() > 0 && ts.len() > 0 && all_digits(ps) && all_digits(ts)
        && #[trigger] (k + ps + seq!['-'] + ts) == b
        && parse_i64(ps) == Some(p) && parse_i64(ts) == Some(t)
}

proof fn lemma_rest_form(r: Seq<char>, ps: Seq<char>, ts: Seq<char>)
    requires
        r == ps + seq!['-'] + ts,
        ps.len() > 0,
        ts.len() > 0,
        all_digits(ps),
    ensures
        first_dash(r) == ps.len(),
        r.take(ps.len() as int) == ps,
        r.skip(ps.len() as int + 1) == ts,
{
    lemma_first_dash_props(r);
    let n = ps.len() as int;
    assert(r[n] == '-');
    if first_dash(r) < n {
        let f = first_dash(r);
        assert(r[f] == ps[f]);
        assert(ascii_digit(ps[f]));
    }
    assert(r.take(n) =~= ps);
    assert(r.skip(n + 1) =~= ts);
}

/// `parse_branch_ref` gives `(p, t)` exactly for a branch `feature/P-T`,
/// `hotfix/P-T` or `fix/P-T` whose `P` and `T` are digit strings reading as
/// `p` and `t`; every other name gives `None`.
pub proof fn law_branch_ids_form(b: Seq<char>, p: i64, t: i64)
    ensures
        branch_ids(b) == Some((p, t)) <==> task_branch_form(b, p, t),
{
    if branch_ids(b) == Some((p, t)) {
        lemma_branch_ids_has_form(b, p, t);
    }
    if task_branch_form(b, p, t) {
        lemma_branch_form_gives_ids(b, p, t);
    }
}

#[verifier::rlimit(40)]
proof fn lemma_branch_ids_has_form(b: Seq<char>, p: i64, t: i64)
    requires
        branch_ids(b) == Some((p, t)),
    ensures
        task_branch_form(b, p, t),
{
    let r = branch_rest(b)->0;
    let k = if has_prefix(b, feature_prefix()) { feature_prefix() } else if has_prefix(b, hotfix_prefix()) { hotfix_prefix() } else { fix_prefix() };
    assert(r == b.skip(k.len() as int));
    assert(b.take(k.len() as int) == k);
    lemma_first_dash_props(r);
    let d = first_dash(r);
    let ps = r.take(d);
    let ts = r.skip(d + 1);
    assert(r =~= ps + seq!['-'] + ts);
    assert(b =~= k + r);
    assert((k + ps + seq!['-'] + ts) =~= b);
}

#[verifier::rlimit(40)]
proof fn lemma_branch_form_gives_ids(b: Seq<char>, p: i64, t: i64)
    requires
        task_branch_form(b, p, t),
    ensures
        branch_ids(b) == Some((p, t)),
{
    let (k, ps, ts) = choose|k: Seq<char>, ps: Seq<char>, ts: Seq<char>|
        (k == feature_prefix() || k == hotfix_prefix() || k == fix_prefix())
        && ps.len() > 0 && ts.len() > 0 && all_digits(ps) && all_digits(ts)
        && #[trigger] (k + ps + seq!['-'] + ts) == b
        && parse_i64(ps) == Some(p) && parse_i64(ts) == Some(t);
    let r = ps + seq!['-'] + ts;
    assert(b =~= k + r);
    assert(b.take(k.len() as int) =~= k);
    assert(b.skip(k.len() as int) =~= r);
    if k == hotfix_prefix() {
        assert(b[0] == 'h');
        assert(!has_prefix(b, feature_prefix())) by {
            if has_prefix(b, feature_prefix()) { assert(b.take(8)[0] == b[0]); }
        }
    }
    if k == fix_prefix() {
        assert(b[1] == 'i' && b[0] == 'f');
        assert(!has_prefix(b, feature_prefix())) by {
            if has_prefix(b, feature_prefix()) { assert(b.take(8)[1] == b[1]); }
        }
        assert(!has_prefix(b, hotfix_prefix())) by {
            if has_prefix(b, hotfix_prefix()) { assert(b.take(7)[0] == b[0]); }
        }
    }
    assert(branch_rest(b) == Some(r));
    lemma_rest_form(r, ps, ts);
}

/// The project and task ids of a task branch (`feature|hotfix|fix/<pid>-<tid>`);
/// `None` for any other branch name or ids that do not fit an `i64`.
pub fn parse_branch_ref(branch: &str) -> (r: Option<(i64, i64)>)
    ensures
        r == branch_ids(branch@),
{
    let cs = chars_of(branch);
    let feature = pattern(&['f', 'e', 'a', 't', 'u', 'r', 'e', '/']);
    let hotfix = pattern(&['h', 'o', 't', 'f', 'i', 'x', '/']);
    let fix = pattern(&['f', 'i', 'x', '/']);
    proof {
        assert(feature@ =~= feature_prefix());
        assert(hotfix@ =~= hotfix_prefix());
        assert(fix@ =~= fix_prefix());
    }
    let from: usize = if strip_prefix_len(&cs, &feature) {
        8
    } else if strip_prefix_len(&cs, &hotfix) {
        7
    } else if strip_prefix_len(&cs, &fix) {
        4
    } else {
        return None;
    };
    let ghost rest = cs@.skip(from as int);
    proof { assert(branch_rest(cs@) == Some(rest)); }
    let n = cs.len();
    let d = first_dash_from(&cs, from);
    if !(d > from && d < n && n - d >= 2) {
        return None;
    }
    let left_ok = digits_between(&cs, from, d);
    let right_ok = digits_between(&cs, d + 1, n);
    proof {
        assert(rest.take(d - from) =~= cs@.subrange(from as int, d as int));
        assert(rest.skip(d - from + 1) =~= cs@.subrange(d + 1, n as int));
    }
    if !left_ok || !right_ok {
        return None;
    }
    let p = parse_i64_range(&cs, from, d);
    let q = parse_i64_range(&cs, d + 1, n);
    match (p, q) {
        (Some(pid), Some(tid)) => Some((pid, tid)),
        _ => None,
    }
}

pub open spec fn no_ref_no_branch_msg() -> Seq<char> {
    "Error: no task ref given and not in a git repository or HEAD is detached."@
}

pub open spec fn branch_mismatch_msg(b: Seq<char>) -> Seq<char> {
    "Error: no task ref given and branch '"@ + b
        + "' does not match expected pattern (feature|hotfix|fix)/PROJECT_ID-TASK_ID."@
}

/// The task a comment goes to: the given reference, else the git branch's ids;
/// without a reference, no branch or a branch that is not a task branch is an
/// error with status 2.
pub fn resolve_task_ref_for_comment(task_ref: Option<&str>, branch: Option<&str>, i18n: &I18n) -> (r: Result<(i64, i64), CliError>)
    ensures
        match task_ref {
            Some(s) => match r {
                Ok(ids) => task_ref_ids(s@) == Some(ids),
                Err(e) => task_ref_ids(s@) is None && e.code == 2
                    && e.message@ == translated(i18n.language@, i18n.catalog.entries@, cannot_parse_msg(s@)),
            },
            None => match branch {
                None => (r matches Err(e) && e.code == 2
                    && e.message@ == translated(i18n.language@, i18n.catalog.entries@, no_ref_no_branch_msg())),
                Some(b) => match r {
                    Ok(ids) => branch_ids(b@) == Some(ids),
                    Err(e) => branch_ids(b@) is None && e.code == 2
                        && e.message@ == translated(i18n.language@, i18n.catalog.entries@, branch_mismatch_msg(b@)),
                },
            },
        },
{
    if let Some(s) = task_ref {
        return parse_task_ref(s, i18n);
    }
    match branch {
        None => {
            let m = t(i18n, "Error: no task ref given and not in a git repository or HEAD is detached.");
            Err(CliError { code: 2, message: m })
        },
        Some(b) => match parse_branch_ref(b) {
            Some(ids) => Ok(ids),
            None => {
                let mut m = owned("Error: no task ref given and branch '");
                push_str(&mut m, b);
                push_str(&mut m, "' does not match expected pattern (feature|hotfix|fix)/PROJECT_ID-TASK_ID.");
                let msg = t(i18n, m.as_str());
                Err(CliError { code: 2, message: msg })
            },
        },
    }
}

// ---------------------------------------------------------------------------
// Instances.
// ---------------------------------------------------------------------------

pub open spec fn names_of(v: Seq<Instance>) -> Seq<Seq<char>> {
    v.map_values(|i: Instance| i.name@)
}

/// The index of the first instance named `n`.
pub open spec fn first_named(v: Seq<Instance>, n: Seq<char>) -> Option<int>
    decreases v.len(),
{
    if v.len() == 0 {
        None
    } else {
        match first_named(v.drop_last(), n) {
            Some(k) => Some(k),
            None => if v.last().name@ == n { Some(v.len() - 1) } else { None },
        }
    }
}

pub open spec fn comma_sep() -> Seq<char> {
    seq![',', ' ']
}

pub open spec fn no_instances_msg() -> Seq<char> {
    "Error: no instances configured. Run: active_collab.py setup add"@
}

pub open spec fn not_found_msg(n: Seq<char>, known: Seq<char>) -> Seq<char> {
    "Error: instance '"@ + n + "' not found. Known: "@ + known
}

pub open spec fn multiple_msg(names: Seq<char>) -> Seq<char> {
    "Error: multiple instances configured ("@ + names + "). Use --instance NAME."@
}

/// The instance a command uses, or the message it fails with.
pub open spec fn picked(v: Seq<Instance>, name: Option<Seq<char>>) -> Result<int, Seq<char>> {
    if v.len() == 0 {
        Err(no_instances_msg())
    } else {
        match name {
            Some(n) => match first_named(v, n) {
                Some(k) => Ok(k),
                None => Err(not_found_msg(n, join(names_of(v), comma_sep()))),
            },
            None => if v.len() == 1 {
                Ok(0)
            } else {
                Err(multiple_msg(join(names_of(v), comma_sep())))
            },
        }
    }
}

proof fn lemma_first_named(v: Seq<Instance>, n: Seq<char>)
    ensures
        match first_named(v, n) {
            Some(k) => 0 <= k < v.len() && v[k].name@ == n && forall|j: int| 0 <= j < k ==> (#[trigger] v[j]).name@ != n,
            None => forall|j: int| 0 <= j < v.len() ==> (#[trigger] v[j]).name@ != n,
        },
    decreases v.len(),
{
    if v.len() > 0 {
        let d = v.drop_last();
        lemma_first_named(d, n);
        assert forall|j: int| 0 <= j < d.len() implies #[trigger] d[j] == v[j] by {}
        match first_named(d, n) {
            Some(k) => {
                assert(first_named(v, n) == Some(k));
                assert(v[k] == d[k]);
                assert forall|j: int| 0 <= j < k implies (#[trigger] v[j]).name@ != n by {
                    assert(v[j] == d[j]);
                }
            },
            None => {
                assert forall|j: int| 0 <= j < v.len() - 1 implies (#[trigger] v[j]).name@ != n by {
                    assert(v[j] == d[j]);
                }
                assert(v.last() == v[v.len() - 1]);
            },
        }
    }
}

/// The instance a command runs on: with a name, the first instance of that
/// name (an unknown name is an error); without one, the only instance (none,
/// or several, is an error).
pub proof fn law_instance_choice(v: Seq<Instance>, name: Option<Seq<char>>)
    ensures
        picked(v, name) is Err <==> v.len() == 0
            || (name matches Some(n) && forall|j: int| 0 <= j < v.len() ==> (#[trigger] v[j]).name@ != n)
            || (name is None && v.len() >= 2),
        picked(v, name) matches Ok(k) ==> 0 <= k < v.len() && match name {
            Some(n) => v[k].name@ == n && forall|j: int| 0 <= j < k ==> (#[trigger] v[j]).name@ != n,
            None => k == 0 && v.len() == 1,
        },
{
    if let Some(n) = name {
        lemma_first_named(v, n);
        if first_named(v, n) is None {
            assert(forall|j: int| 0 <= j < v.len() ==> (#[trigger] v[j]).name@ != n);
        } else {
            let k = first_named(v, n)->0;
            assert(v[k].name@ == n);
        }
    }
}

fn joined_names(instances: &[Instance]) -> (r: String)
    ensures
        r@ == join(names_of(instances@), comma_sep()),
{
    let mut names: Vec<String> = Vec::new();
    let mut i: usize = 0;
    while i < instances.len()
        invariant
            i <= instances@.len(),
            strs(names@) == names_of(instances@).subrange(0, i as int),
        decreases instances.len() - i,
    {
        let ghost before = strs(names@);
        let nm = instances[i].name.clone();
        names.push(nm);
        proof {
            assert(strs(names@) =~= before.push(instances@[i as int].name@));
            assert(names_of(instances@).subrange(0, i + 1) =~= names_of(instances@).subrange(0, i as int).push(instances@[i as int].name@));
        }
        i += 1;
    }
    proof { assert(names_of(instances@).subrange(0, instances@.len() as int) =~= names_of(instances@)); }
    let sep = owned(", ");
    proof { reveal_strlit(", "); assert(sep@ =~= comma_sep()); }
    join_strings(&names, sep.as_str())
}

/// Which configured instance a command uses: the one named (first match), else
/// the only one; no instances, an unknown name, or several instances without a
/// name are errors with status 2.
pub fn pick_instance(instances: &[Instance], name: Option<&str>, i18n: &I18n) -> (r: Result<usize, CliError>)
    ensures
        match r {
            Ok(k) => picked(instances@, match name { Some(n) => Some(n@), None => None }) == Ok::<int, Seq<char>>(k as int),
            Err(e) => e.code == 2 && (picked(instances@, match name { Some(n) => Some(n@), None => None }) matches Err(m)
                && e.message@ == translated(i18n.language@, i18n.catalog.entries@, m)),
        },
{
    if instances.len() == 0 {
        let m = t(i18n, "Error: no instances configured. Run: active_collab.py setup add");
        return Err(CliError { code: 2, message: m });
    }
    if let Some(n) = name {
        let nc = chars_of(n);
        let mut i: usize = 0;
        while i < instances.len()
            invariant
                i <= instances@.len(),
                instances@.len() > 0,
                name == Some(n),
                nc@ == n@,
                first_named(instances@.subrange(0, i as int), n@) is None,
            decreases instances.len() - i,
        {
            let ic = chars_of(instances[i].name.as_str());
            proof {
                let nxt = instances@.subrange(0, i + 1);
                assert(nxt.drop_last() =~= instances@.subrange(0, i as int));
            }
            if crate::textutil::chars_eq(&ic, &nc) {
                proof {
                    let nxt = instances@.subrange(0, i + 1);
                    assert(nxt.last() == instances@[i as int]);
                    assert(first_named(nxt, n@) == Some(i as int));
                    lemma_first_named_prefix(instances@, n@, i + 1);
                }
                return Ok(i);
            }
            i += 1;
        }
        proof { assert(instances@.subrange(0, instances@.len() as int) =~= instances@); }
        let known = joined_names(instances);
        let mut m = owned("Error: instance '");
        push_str(&mut m, n);
        push_str(&mut m, "' not found. Known: ");
        push_str(&mut m, known.as_str());
        let msg = t(i18n, m.as_str());
        return Err(CliError { code: 2, message: msg });
    }
    if instances.len() == 1 {
        return Ok(0);
    }
    let names = joined_names(instances);
    let mut m = owned("Error: multiple instances configured (");
    push_str(&mut m, names.as_str());
    push_str(&mut m, "). Use --instance NAME.");
    let msg = t(i18n, m.as_str());
    Err(CliError { code: 2, message: msg })
}

/// A match found in a prefix is the first match of the whole list.
proof fn lemma_first_named_prefix(v: Seq<Instance>, n: Seq<char>, k: int)
    requires
        0 <= k <= v.len(),
        first_named(v.subrange(0, k), n) is Some,
    ensures
        first_named(v, n) == first_named(v.subrange(0, k), n),
    decreases v.len() - k,
{
    if k < v.len() {
        let nxt = v.subrange(0, k + 1);
        assert(nxt.drop_last() =~= v.subrange(0, k));
        lemma_first_named_prefix(v, n, k + 1);
    } else {
        assert(v.subrange(0, k) =~= v);
    }
}

} // verus!
