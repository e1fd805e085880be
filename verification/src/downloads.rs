//! Attachment downloads: safe file names for untrusted attachment names,
//! names made unique within a batch, and the summary of a batch.

use vstd::prelude::*;
use crate::textutil::{digits, u64_digits, strs, join, join_strings, owned};
use crate::unicode::{chars_of, string_of, push_char, push_str};
use crate::richparse::{trim_by, is_ws, trim_ws};
use crate::resolve::digits_value;
use crate::i18n::{I18n, t, translated};
use crate::render::{openable, Asset};

verus! {

pub open spec fn is_sep(c: char) -> bool {
    c == '/' || c == '\\'
}

/// The end of the last run of non-separator characters before `j` (0 when none).
pub open spec fn seg_end(s: Seq<char>, j: int) -> int
    decreases j,
{
    if j <= 0 || j > s.len() {
        0
    } else if !is_sep(s[j - 1]) {
        j
    } else {
        seg_end(s, j - 1)
    }
}

/// The start of the run of non-separator characters ending at `j`.
pub open spec fn seg_start(s: Seq<char>, j: int) -> int
    decreases j,
{
    if j <= 0 || j > s.len() || is_sep(s[j - 1]) {
        if j > s.len() { s.len() as int } else if j < 0 { 0 } else { j }
    } else {
        seg_start(s, j - 1)
    }
}

/// The last non-empty `/`- or `\`-separated segment of a name, trimmed.
pub open spec fn final_component(s: Seq<char>) -> Seq<char> {
    let b = seg_end(s, s.len() as int);
    let a = seg_start(s, b);
    trim_by(s.subrange(a, b), is_ws())
}

/// A usable file name: not empty and not made only of dots (so not `.` or `..`).
pub open spec fn safe_name(n: Seq<char>) -> bool {
    n.len() > 0 && !(forall|i: int| 0 <= i < n.len() ==> n[i] == '.')
}

pub open spec fn fallback_name(index: nat) -> Seq<char> {
    seq!['a', 's', 's', 'e', 't', '_'] + digits(index)
}

/// An attachment name as a file name: its final path component when that is
/// usable, else `asset_{index}`.
pub open spec fn sanitized(name: Seq<char>, index: nat) -> Seq<char> {
    let c = final_component(name);
    if safe_name(c) { c } else { fallback_name(index) }
}

proof fn lemma_seg_bounds(s: Seq<char>, j: int)
    requires
        0 <= j <= s.len(),
    ensures
        0 <= seg_end(s, j) <= j,
        0 <= seg_start(s, j) <= j,
    decreases j,
{
    if j > 0 {
        lemma_seg_bounds(s, j - 1);
    }
}

pub(crate) proof fn lemma_digits_chars(n: nat)
    ensures
        forall|i: int| 0 <= i < digits(n).len() ==> 48 <= #[trigger] digits(n)[i] as int <= 57,
        digits(n).len() > 0,
    decreases n,
{
    let d = digits(n);
    let c = (('0' as u32) + (n % 10)) as char;
    assert(c as int == 48 + n % 10);
    if n >= 10 {
        lemma_digits_chars(n / 10);
        assert forall|i: int| 0 <= i < d.len() implies 48 <= #[trigger] d[i] as int <= 57 by {
            if i < d.len() - 1 {
                assert(d[i] == digits(n / 10)[i]);
            } else {
                assert(d[i] == c);
            }
        }
    } else {
        assert(d =~= seq![c]);
    }
}

proof fn lemma_lead_trail_le(s: Seq<char>, p: spec_fn(char) -> bool)
    ensures
        crate::richparse::lead_len(s, p) <= s.len(),
        crate::richparse::trail_len(s, p) <= s.len(),
    decreases s.len(),
{
    if s.len() > 0 {
        lemma_lead_trail_le(s.drop_first(), p);
        lemma_lead_trail_le(s.drop_last(), p);
    }
}

proof fn lemma_trim_inside(s: Seq<char>, p: spec_fn(char) -> bool)
    ensures
        forall|i: int| 0 <= i < trim_by(s, p).len() ==>
            #[trigger] trim_by(s, p)[i] == s[i + crate::richparse::lead_len(s, p)] && i + crate::richparse::lead_len(s, p) < s.len(),
{
    lemma_lead_trail_le(s, p);
    let t = crate::richparse::trim_start_by(s, p);
    lemma_lead_trail_le(t, p);
}

proof fn lemma_seg_clean(s: Seq<char>, j: int)
    requires
        0 <= j <= s.len(),
    ensures
        forall|k: int| seg_start(s, j) <= k < j ==> !is_sep(#[trigger] s[k]),
    decreases j,
{
    if j > 0 && !is_sep(s[j - 1]) {
        lemma_seg_clean(s, j - 1);
    }
}

/// A sanitized attachment name is never empty, holds no path separator
/// (`/` or `\`), and is never `.` or `..`.
pub proof fn law_sanitized_name_is_safe(name: Seq<char>, index: nat)
    ensures
        sanitized(name, index).len() > 0,
        !sanitized(name, index).contains('/'),
        !sanitized(name, index).contains('\\'),
        sanitized(name, index) != seq!['.'],
        sanitized(name, index) != seq!['.', '.'],
{
    let c = final_component(name);
    let r = sanitized(name, index);
    if safe_name(c) {
        let b = seg_end(name, name.len() as int);
        lemma_seg_bounds(name, name.len() as int);
        let a = seg_start(name, b);
        lemma_seg_bounds(name, b);
        lemma_seg_clean(name, b);
        let seg = name.subrange(a, b);
        lemma_trim_inside(seg, is_ws());
        assert forall|i: int| 0 <= i < c.len() implies !is_sep(#[trigger] c[i]) by {
            let k = i + crate::richparse::lead_len(seg, is_ws());
            assert(c[i] == seg[k]);
            assert(seg[k] == name[a + k]);
        }
        if r == seq!['.'] {
            assert(forall|i: int| 0 <= i < r.len() ==> r[i] == '.');
        }
        if r == seq!['.', '.'] {
            assert(forall|i: int| 0 <= i < r.len() ==> r[i] == '.');
        }
    } else {
        let f = fallback_name(index);
        lemma_digits_chars(index);
        let pre = seq!['a', 's', 's', 'e', 't', '_'];
        assert forall|i: int| 0 <= i < f.len() implies !is_sep(#[trigger] f[i]) by {
            if i < 6 {
                assert(f[i] == pre[i]);
            } else {
                assert(f[i] == digits(index)[i - 6]);
            }
        }
        assert(f[0] == 'a');
    }
}

/// The final path component of a name (split at `/` and `\`), trimmed.
pub fn final_path_component(name: &str) -> (r: String)
    ensures
        r@ == final_component(name@),
{
    let cs = chars_of(name);
    let n = cs.len();
    let mut b = n;
    while b > 0 && (cs[b - 1] == '/' || cs[b - 1] == '\\')
        invariant
            b <= n == cs@.len(),
            seg_end(cs@, n as int) == seg_end(cs@, b as int),
        decreases b,
    {
        b -= 1;
    }
    let mut a = b;
    while a > 0 && !(cs[a - 1] == '/' || cs[a - 1] == '\\')
        invariant
            a <= b <= n == cs@.len(),
            seg_start(cs@, b as int) == seg_start(cs@, a as int),
        decreases a,
    {
        a -= 1;
    }
    let seg = crate::render::sub_chars(&cs, a, b);
    let tr = trim_ws(&seg);
    string_of(tr.as_slice())
}

/// Whether a name can be used as a file name as it is.
pub fn is_safe_filename(name: &str) -> (r: bool)
    ensures
        r == safe_name(name@),
{
    let cs = chars_of(name);
    if cs.len() == 0 {
        return false;
    }
    let mut i: usize = 0;
    while i < cs.len()
        invariant
            i <= cs@.len(),
            cs@ == name@,
            forall|k: int| 0 <= k < i ==> cs@[k] == '.',
        decreases cs.len() - i,
    {
        if cs[i] != '.' {
            proof { assert(!(cs@[i as int] == '.')); }
            return true;
        }
        i += 1;
    }
    false
}

/// A safe on-disk file name for an untrusted attachment name: its final path
/// component, or `asset_{fallback_index}` when that is empty or only dots.
pub fn sanitize_attachment_filename(name: &str, fallback_index: usize) -> (r: String)
    ensures
        r@ == sanitized(name@, fallback_index as nat),
{
    let candidate = final_path_component(name);
    if is_safe_filename(candidate.as_str()) {
        candidate
    } else {
        let mut s = owned("asset_");
        let d = u64_digits(fallback_index as u64);
        push_str(&mut s, d.as_str());
        proof { reveal_strlit("asset_"); assert(s@ =~= fallback_name(fallback_index as nat)); }
        s
    }
}

/// The position of the last `.` before `j` (-1 when none).
pub open spec fn last_dot(s: Seq<char>, j: int) -> int
    decreases j,
{
    if j <= 0 || j > s.len() {
        -1
    } else if s[j - 1] == '.' {
        j - 1
    } else {
        last_dot(s, j - 1)
    }
}

/// A name split at its last `.` into stem and extension, when both are
/// non-empty.
pub open spec fn stem_ext(name: Seq<char>) -> (Seq<char>, Option<Seq<char>>) {
    let d = last_dot(name, name.len() as int);
    if d > 0 && d < name.len() - 1 {
        (name.take(d), Some(name.skip(d + 1)))
    } else {
        (name, None)
    }
}

proof fn lemma_last_dot(s: Seq<char>, j: int)
    requires
        0 <= j <= s.len(),
    ensures
        -1 <= last_dot(s, j) < j,
        last_dot(s, j) >= 0 ==> s[last_dot(s, j)] == '.',
    decreases j,
{
    if j > 0 && s[j - 1] != '.' {
        lemma_last_dot(s, j - 1);
    }
}

pub fn split_stem_ext(name: &str) -> (r: (String, Option<String>))
    ensures
        (r.0@, match r.1 {
            Some(e) => Some(e@),
            None => None,
        }) == stem_ext(name@),
{
    let cs = chars_of(name);
    let n = cs.len();
    let mut j = n;
    while j > 0 && cs[j - 1] != '.'
        invariant
            j <= n == cs@.len(),
            last_dot(cs@, n as int) == last_dot(cs@, j as int),
        decreases j,
    {
        j -= 1;
    }
    if j >= 2 && j < n {
        let d = j - 1;
        let stem = crate::render::sub_string(&cs, 0, d);
        let ext = crate::render::sub_string(&cs, d + 1, n);
        proof {
            assert(cs@.take(d as int) =~= cs@.subrange(0, d as int));
            assert(cs@.skip(d + 1) =~= cs@.subrange(d + 1, n as int));
        }
        (stem, Some(ext))
    } else {
        (owned(name), None)
    }
}

/// The `k`-th alternative name: `{stem}_{k}.{ext}`, or `{stem}_{k}`.
pub open spec fn candidate(stem: Seq<char>, ext: Option<Seq<char>>, k: nat) -> Seq<char> {
    stem + seq!['_'] + digits(k) + match ext {
        Some(e) => seq!['.'] + e,
        None => Seq::empty(),
    }
}

proof fn lemma_digits_value(n: nat)
    ensures
        digits_value(digits(n)) == n,
    decreases n,
{
    let d = digits(n);
    let c = (('0' as u32) + (n % 10)) as char;
    assert(c as int == 48 + n % 10);
    if n >= 10 {
        lemma_digits_value(n / 10);
        assert(d.drop_last() =~= digits(n / 10));
        assert(d.last() == c);
        assert(digits_value(d) == digits_value(d.drop_last()) * 10 + (c as int - '0' as int));
        assert((n / 10) * 10 + n % 10 == n);
    } else {
        assert(d =~= seq![c]);
        assert(d.drop_last() =~= Seq::<char>::empty());
        assert(d.last() == c);
        assert(digits_value(Seq::<char>::empty()) == 0);
        assert(digits_value(d) == digits_value(d.drop_last()) * 10 + (c as int - '0' as int));
    }
}

proof fn lemma_candidate_injective(stem: Seq<char>, ext: Option<Seq<char>>, j: nat, k: nat)
    requires
        candidate(stem, ext, j) == candidate(stem, ext, k),
    ensures
        j == k,
{
    let tail = match ext {
        Some(e) => seq!['.'] + e,
        None => Seq::<char>::empty(),
    };
    let cj = candidate(stem, ext, j);
    let dj = digits(j);
    let dk = digits(k);
    assert(cj.len() == stem.len() + 1 + dj.len() + tail.len());
    assert(dj.len() == dk.len());
    assert(dj =~= cj.subrange(stem.len() as int + 1, stem.len() as int + 1 + dj.len() as int));
    assert(dk =~= candidate(stem, ext, k).subrange(stem.len() as int + 1, stem.len() as int + 1 + dk.len() as int));
    lemma_digits_value(j);
    lemma_digits_value(k);
}

/// A name for this batch: `base` when unused, else the first unused
/// alternative `{stem}_{k}[.{ext}]` with `k` counting up from 2.
pub open spec fn unique_name_ok(base: Seq<char>, used: Seq<Seq<char>>, r: Seq<char>) -> bool {
    if !used.contains(base) {
        r == base
    } else {
        exists|k: nat|
            #![trigger candidate(stem_ext(base).0, stem_ext(base).1, k)]
            k >= 2 && r == candidate(stem_ext(base).0, stem_ext(base).1, k) && !used.contains(r) && forall|j: nat|
                2 <= j < k ==> used.contains(#[trigger] candidate(stem_ext(base).0, stem_ext(base).1, j))
    }
}

fn contains_name(used: &Vec<String>, name: &str) -> (r: bool)
    ensures
        r == strs(used@).contains(name@),
{
    let mut i: usize = 0;
    while i < used.len()
        invariant
            i <= used@.len(),
            forall|k: int| 0 <= k < i ==> used@[k]@ != name@,
        decreases used.len() - i,
    {
        if crate::textutil::str_eq(used[i].as_str(), name) {
            proof { assert(strs(used@)[i as int] == name@); }
            return true;
        }
        i += 1;
    }
    proof {
        assert forall|k: int| 0 <= k < used@.len() implies strs(used@)[k] != name@ by {
            assert(strs(used@)[k] == used@[k]@);
        }
    }
    false
}

/// A file name not yet used in this batch, recorded as used: `base` itself, or
/// `{stem}_2.{ext}`, `{stem}_3.{ext}`, … (the extension kept) on collision.
pub fn unique_filename(base: String, used: &mut Vec<String>) -> (r: String)
    requires
        old(used)@.len() + 2 <= usize::MAX,
    ensures
        unique_name_ok(base@, strs(old(used)@), r@),
        !strs(old(used)@).contains(r@),
        strs(final(used)@) == strs(old(used)@).push(r@),
{
    if !contains_name(used, base.as_str()) {
        let c = base.clone();
        used.push(c);
        proof { assert(strs(used@) =~= strs(old(used)@).push(base@)); }
        return base;
    }
    let (stem, ext) = split_stem_ext(base.as_str());
    let ghost ge = match &ext {
        Some(e) => Some(e@),
        None => None::<Seq<char>>,
    };
    let ghost u = strs(used@);
    let mut suffix: usize = 2;
    let ghost mut seen: Set<Seq<char>> = Set::empty();
    proof {
        u.lemma_cardinality_of_set();
    }
    loop
        invariant
            2 <= suffix,
            u == strs(used@),
            u == strs(old(used)@),
            (stem@, ge) == stem_ext(base@),
            ge == match &ext {
                Some(e) => Some(e@),
                None => None::<Seq<char>>,
            },
            u.contains(base@),
            forall|j: nat| 2 <= j < suffix ==> u.contains(#[trigger] candidate(stem@, ge, j)),
            seen.finite(),
            seen.len() == suffix - 2,
            seen.subset_of(u.to_set()),
            forall|x: Seq<char>| seen.contains(x) ==> exists|j: nat| 2 <= j < suffix && x == #[trigger] candidate(stem@, ge, j),
            u.to_set().len() <= u.len(),
            u.len() == used@.len(),
            used@.len() + 2 <= usize::MAX,
        decreases used@.len() + 2 - suffix,
    {
        proof {
            vstd::set_lib::lemma_len_subset(seen, u.to_set());
        }
        let mut cand = stem.clone();
        push_char(&mut cand, '_');
        let d = u64_digits(suffix as u64);
        push_str(&mut cand, d.as_str());
        match &ext {
            Some(e) => {
                push_char(&mut cand, '.');
                push_str(&mut cand, e.as_str());
            },
            None => {},
        }
        proof { assert(cand@ =~= candidate(stem@, ge, suffix as nat)); }
        if !contains_name(used, cand.as_str()) {
            let c = cand.clone();
            used.push(c);
            proof {
                assert(strs(used@) =~= u.push(cand@));
                let ks = suffix as nat;
                assert(candidate(stem@, ge, ks) == cand@);
                assert(stem_ext(base@).0 == stem@ && stem_ext(base@).1 == ge);
                assert(ks >= 2 && cand@ == candidate(stem_ext(base@).0, stem_ext(base@).1, ks) && !u.contains(cand@) && forall|j: nat|
                    2 <= j < ks ==> u.contains(#[trigger] candidate(stem_ext(base@).0, stem_ext(base@).1, j)));
                assert(unique_name_ok(base@, u, cand@));
            }
            return cand;
        }
        proof {
            let ks = suffix as nat;
            let cs = candidate(stem@, ge, ks);
            assert(!seen.contains(cs)) by {
                if seen.contains(cs) {
                    let j = choose|j: nat| 2 <= j < suffix && cs == #[trigger] candidate(stem@, ge, j);
                    lemma_candidate_injective(stem@, ge, j, ks);
                }
            }
            assert(u.to_set().contains(cs));
            seen = seen.insert(cs);
            assert forall|x: Seq<char>| seen.contains(x) implies exists|j: nat| 2 <= j < suffix + 1 && x == #[trigger] candidate(stem@, ge, j) by {
                if x == cs {
                    assert(2 <= ks < suffix + 1 && x == candidate(stem@, ge, ks));
                }
            }
            vstd::set_lib::lemma_len_subset(seen, u.to_set());
        }
        suffix += 1;
    }
}

// ---------------------------------------------------------------------------
// The batch summary.
// ---------------------------------------------------------------------------

/// One attachment's outcome: the file path on success, the reason on failure.
#[derive(Debug, Clone, PartialEq)]
pub struct DownloadedAsset {
    pub name: String,
    pub url: String,
    pub path: Option<String>,
    pub error: Option<String>,
}

/// `name: reason` for each failed download, in order.
pub open spec fn failures(v: Seq<DownloadedAsset>) -> Seq<Seq<char>>
    decreases v.len(),
{
    if v.len() == 0 {
        Seq::empty()
    } else {
        failures(v.drop_last()) + match v.last().error {
            Some(e) => seq![v.last().name@ + seq![':', ' '] + e@],
            None => Seq::empty(),
        }
    }
}

/// ` (failed: a: x, b: y)` for the failed downloads, or nothing.
pub open spec fn failures_suffix(v: Seq<DownloadedAsset>) -> Seq<char> {
    let f = failures(v);
    if f.len() == 0 { Seq::empty() } else { " (failed: "@ + join(f, seq![',', ' ']) + ")"@ }
}

pub open spec fn succeeded(v: Seq<DownloadedAsset>) -> nat
    decreases v.len(),
{
    if v.len() == 0 {
        0
    } else {
        succeeded(v.drop_last()) + if v.last().error is None { 1nat } else { 0nat }
    }
}

pub fn download_failures_suffix(downloaded: &[DownloadedAsset]) -> (r: String)
    ensures
        r@ == failures_suffix(downloaded@),
{
    let mut parts: Vec<String> = Vec::new();
    let mut i: usize = 0;
    while i < downloaded.len()
        invariant
            i <= downloaded@.len(),
            strs(parts@) == failures(downloaded@.subrange(0, i as int)),
        decreases downloaded.len() - i,
    {
        let d = &downloaded[i];
        proof {
            let sub = downloaded@.subrange(0, i + 1);
            assert(sub.drop_last() =~= downloaded@.subrange(0, i as int));
            assert(sub.last() == downloaded@[i as int]);
        }
        match &d.error {
            Some(e) => {
                let mut s = d.name.clone();
                push_char(&mut s, ':');
                push_char(&mut s, ' ');
                push_str(&mut s, e.as_str());
                let ghost before = strs(parts@);
                proof { assert(s@ =~= d.name@ + seq![':', ' '] + e@); }
                parts.push(s);
                proof { assert(strs(parts@) =~= before.push(d.name@ + seq![':', ' '] + e@)); }
            },
            None => {
                proof {
                    assert(failures(downloaded@.subrange(0, i + 1)) =~= failures(downloaded@.subrange(0, i as int)));
                }
            },
        }
        i += 1;
    }
    proof { assert(downloaded@.subrange(0, downloaded@.len() as int) =~= downloaded@); }
    if parts.len() == 0 {
        return String::new();
    }
    let sep = string_of(&[',', ' ']);
    proof { assert(sep@ =~= seq![',', ' ']); }
    let joined = join_strings(&parts, sep.as_str());
    let mut s = owned(" (failed: ");
    push_str(&mut s, joined.as_str());
    push_str(&mut s, ")");
    s
}

pub open spec fn summary_msg(ok: nat, total: nat, dir: Seq<char>, suffix: Seq<char>) -> Seq<char> {
    "Downloaded "@ + digits(ok) + " of "@ + digits(total) + " attachment(s) to "@ + dir + suffix
}

/// The line that reports a download batch: successes out of the total, the
/// destination directory, and the failures.
pub fn download_summary_line(dest_dir: &str, downloaded: &[DownloadedAsset], i18n: &I18n) -> (r: String)
    ensures
        r@ == translated(
            i18n.language@,
            i18n.catalog.entries@,
            summary_msg(succeeded(downloaded@), downloaded@.len(), dest_dir@, failures_suffix(downloaded@)),
        ),
{
    let mut ok: usize = 0;
    let mut i: usize = 0;
    while i < downloaded.len()
        invariant
            i <= downloaded@.len(),
            ok <= i,
            ok as nat == succeeded(downloaded@.subrange(0, i as int)),
        decreases downloaded.len() - i,
    {
        proof {
            let sub = downloaded@.subrange(0, i + 1);
            assert(sub.drop_last() =~= downloaded@.subrange(0, i as int));
            assert(sub.last() == downloaded@[i as int]);
        }
        if downloaded[i].error.is_none() {
            ok += 1;
        }
        i += 1;
    }
    proof { assert(downloaded@.subrange(0, downloaded@.len() as int) =~= downloaded@); }
    let mut m = owned("Downloaded ");
    push_str(&mut m, u64_digits(ok as u64).as_str());
    push_str(&mut m, " of ");
    push_str(&mut m, u64_digits(downloaded.len() as u64).as_str());
    push_str(&mut m, " attachment(s) to ");
    push_str(&mut m, dest_dir);
    let suffix = download_failures_suffix(downloaded);
    push_str(&mut m, suffix.as_str());
    t(i18n, m.as_str())
}

/// The check before a URL is handed to the system opener: only `http` and
/// `https` URLs pass; anything else is refused with a message.
pub fn open_asset(url: &str) -> (r: Result<(), String>)
    ensures
        r is Ok <==> openable(url@),
        r matches Err(m) ==> m@ == "non-http/https URL rejected: "@ + url@,
{
    if crate::render::is_openable_url(url) {
        Ok(())
    } else {
        let mut m = owned("non-http/https URL rejected: ");
        push_str(&mut m, url);
        Err(m)
    }
}


// ---------------------------------------------------------------------------
// The download batch.
// ---------------------------------------------------------------------------

/// The largest attachment body accepted, in bytes.
pub const MAX_ATTACHMENT_BYTES: u64 = 26214400;

/// What a fetched attachment body is checked for: a 200 status, then a size
/// within the cap.
pub fn asset_fetch_check(status: u16, body_len: u64) -> (r: Result<(), String>)
    ensures
        status != 200 ==> (r matches Err(m) && m@ == "HTTP "@ + crate::textutil::decimal(status as int)),
        status == 200 && body_len > MAX_ATTACHMENT_BYTES ==> (r matches Err(m) && m@ == "attachment exceeds max size of 26214400 bytes"@),
        status == 200 && body_len <= MAX_ATTACHMENT_BYTES ==> r is Ok,
{
    if status != 200 {
        let mut m = owned("HTTP ");
        push_str(&mut m, crate::textutil::i64_decimal(status as i64).as_str());
        return Err(m);
    }
    if body_len > MAX_ATTACHMENT_BYTES {
        return Err(owned("attachment exceeds max size of 26214400 bytes"));
    }
    Ok(())
}

/// A file name the attachment may be written under: not empty and without a
/// path separator (`/` or `\`).
pub fn file_name_check(file_name: &str) -> (r: Result<(), String>)
    ensures
        (file_name@.len() == 0 || file_name@.contains('/') || file_name@.contains('\\'))
            ==> (r matches Err(m) && m@ == "unsafe file name: "@ + file_name@),
        !(file_name@.len() == 0 || file_name@.contains('/') || file_name@.contains('\\')) ==> r is Ok,
{
    let cs = crate::unicode::chars_of(file_name);
    let mut bad = cs.len() == 0;
    let mut i: usize = 0;
    while i < cs.len()
        invariant
            i <= cs@.len(),
            cs@ == file_name@,
            bad == (cs@.len() == 0 || exists|k: int| 0 <= k < i && (cs@[k] == '/' || cs@[k] == '\\')),
        decreases cs.len() - i,
    {
        if cs[i] == '/' || cs[i] == '\\' {
            bad = true;
        }
        i += 1;
    }
    proof {
        if file_name@.contains('/') {
            let k = choose|k: int| 0 <= k < file_name@.len() && file_name@[k] == '/';
            assert(cs@[k] == '/');
        }
        if file_name@.contains('\\') {
            let k = choose|k: int| 0 <= k < file_name@.len() && file_name@[k] == '\\';
            assert(cs@[k] == '\\');
        }
        if bad && cs@.len() > 0 {
            let k = choose|k: int| 0 <= k < cs@.len() && (cs@[k] == '/' || cs@[k] == '\\');
            assert(file_name@[k] == '/' || file_name@[k] == '\\');
        }
    }
    if bad {
        let mut m = owned("unsafe file name: ");
        push_str(&mut m, file_name);
        return Err(m);
    }
    Ok(())
}

/// The file names a batch writes to: each asset's sanitized name (its
/// 1-based position as the fallback), made unique against the names before it.
pub open spec fn batch_names_ok(names: Seq<Asset>, r: Seq<Seq<char>>) -> bool {
    &&& r.len() == names.len()
    &&& forall|i: int| 0 <= i < r.len() ==> unique_name_ok(#[trigger] sanitized(names[i].name@, (i + 1) as nat), r.subrange(0, i), r[i])
}

/// The file names for downloading `assets` into one directory.
pub fn batch_file_names(assets: &[Asset]) -> (r: Vec<String>)
    requires
        assets@.len() + 2 <= usize::MAX,
    ensures
        batch_names_ok(assets@, strs(r@)),
{
    let mut used: Vec<String> = Vec::new();
    let mut i: usize = 0;
    while i < assets.len()
        invariant
            i <= assets@.len(),
            assets@.len() + 2 <= usize::MAX,
            used@.len() == i,
            forall|k: int| 0 <= k < i ==> unique_name_ok(#[trigger] sanitized(assets@[k].name@, (k + 1) as nat), strs(used@).subrange(0, k), strs(used@)[k]),
        decreases assets.len() - i,
    {
        let base = sanitize_attachment_filename(assets[i].name.as_str(), i + 1);
        let ghost u0 = strs(used@);
        let name = unique_filename(base, &mut used);
        proof {
            assert(strs(used@) =~= u0.push(name@));
            assert forall|k: int| 0 <= k < i + 1 implies unique_name_ok(#[trigger] sanitized(assets@[k].name@, (k + 1) as nat), strs(used@).subrange(0, k), strs(used@)[k]) by {
                if k < i {
                    assert(strs(used@).subrange(0, k) =~= u0.subrange(0, k));
                    assert(strs(used@)[k] == u0[k]);
                } else {
                    assert(strs(used@).subrange(0, k) =~= u0);
                }
            }
        }
        i += 1;
    }
    used
}

/// Every asset's outcome when the destination directory cannot be created:
/// its sanitized name (position as fallback), its URL, and the error.
pub fn directory_failures(assets: &[Asset], err: &str) -> (r: Vec<DownloadedAsset>)
    requires
        assets@.len() < usize::MAX,
    ensures
        r@.len() == assets@.len(),
        forall|i: int| 0 <= i < r@.len() ==> {
            &&& (#[trigger] r@[i]).name@ == sanitized(assets@[i].name@, (i + 1) as nat)
            &&& r@[i].url@ == assets@[i].url@
            &&& r@[i].path is None
            &&& r@[i].error matches Some(e) && e@ == "failed to create destination directory: "@ + err@
        },
{
    let mut out: Vec<DownloadedAsset> = Vec::new();
    let mut i: usize = 0;
    while i < assets.len()
        invariant
            i <= assets@.len(),
            assets@.len() < usize::MAX,
            out@.len() == i,
            forall|k: int| 0 <= k < i ==> {
                &&& (#[trigger] out@[k]).name@ == sanitized(assets@[k].name@, (k + 1) as nat)
                &&& out@[k].url@ == assets@[k].url@
                &&& out@[k].path is None
                &&& out@[k].error matches Some(e) && e@ == "failed to create destination directory: "@ + err@
            },
        decreases assets.len() - i,
    {
        let mut e = owned("failed to create destination directory: ");
        push_str(&mut e, err);
        out.push(DownloadedAsset {
            name: sanitize_attachment_filename(assets[i].name.as_str(), i + 1),
            url: assets[i].url.clone(),
            path: None,
            error: Some(e),
        });
        i += 1;
    }
    out
}

/// One asset's outcome from the name it was written under and the result of
/// fetching and writing it (the written path, or the reason it failed).
pub fn download_outcome(name: String, asset: &Asset, result: Result<String, String>) -> (r: DownloadedAsset)
    ensures
        r.name == name,
        r.url@ == asset.url@,
        match result {
            Ok(p) => r.path == Some(p) && r.error is None,
            Err(e) => r.path is None && r.error == Some(e),
        },
{
    match result {
        Ok(p) => DownloadedAsset { name, url: asset.url.clone(), path: Some(p), error: None },
        Err(e) => DownloadedAsset { name, url: asset.url.clone(), path: None, error: Some(e) },
    }
}

} // verus!
