//! Scanners for the small text grammars the views recognise: web links
//! (`https://…`, `http://…`, `www.…` up to whitespace or `]`) and bracketed
//! tokens (`[…]` with no bracket inside). Positions are character indices.
//! Matches are found left to right without overlap, each scan resuming where
//! the previous match ended.

use vstd::prelude::*;
use crate::unicode::{white_space, is_white_space};

verus! {

/// `s[i..]` begins with `pat`.
pub open spec fn at(s: Seq<char>, i: int, pat: Seq<char>) -> bool {
    0 <= i && i + pat.len() <= s.len() && s.subrange(i, i + pat.len()) == pat
}

pub fn at_exec(s: &Vec<char>, i: usize, pat: &Vec<char>) -> (r: bool)
    ensures
        r == at(s@, i as int, pat@),
{
    let n = s.len();
    if i > n || pat.len() > n - i {
        return false;
    }
    let mut k: usize = 0;
    while k < pat.len()
        invariant
            n == s@.len(),
            k <= pat@.len(),
            i + pat@.len() <= s@.len(),
            forall|t: int| 0 <= t < k ==> s@[i + t] == pat@[t],
        decreases pat.len() - k,
    {
        if s[i + k] != pat[k] {
            proof {
                assert(s@.subrange(i as int, i + pat@.len())[k as int] != pat@[k as int]);
            }
            return false;
        }
        k += 1;
    }
    proof {
        assert(s@.subrange(i as int, i + pat@.len()) =~= pat@);
    }
    true
}

/// A character that may continue a web link: neither whitespace nor `]`.
pub open spec fn link_char(c: char) -> bool {
    !white_space(c) && c != ']'
}

/// The end of the run of link characters starting at `k`.
pub open spec fn link_run_end(s: Seq<char>, k: int) -> int
    decreases s.len() - k,
{
    if k < 0 || k >= s.len() || !link_char(s[k]) {
        k
    } else {
        link_run_end(s, k + 1)
    }
}

pub open spec fn https_pat() -> Seq<char> {
    seq!['h', 't', 't', 'p', 's', ':', '/', '/']
}

pub open spec fn http_pat() -> Seq<char> {
    seq!['h', 't', 't', 'p', ':', '/', '/']
}

pub open spec fn www_pat() -> Seq<char> {
    seq!['w', 'w', 'w', '.']
}

/// Where the link prefix at `i` ends, if one starts there.
pub open spec fn link_prefix_end(s: Seq<char>, i: int) -> Option<int> {
    if at(s, i, https_pat()) {
        Some(i + 8)
    } else if at(s, i, http_pat()) {
        Some(i + 7)
    } else if at(s, i, www_pat()) {
        Some(i + 4)
    } else {
        None
    }
}

/// The end of a link starting at `i`: a prefix followed by at least one link character.
pub open spec fn link_at(s: Seq<char>, i: int) -> Option<int> {
    match link_prefix_end(s, i) {
        Some(k) => if link_run_end(s, k) > k {
            Some(link_run_end(s, k))
        } else {
            None
        },
        None => None,
    }
}

/// The links of `s` from position `p` on, as `(start, end)` pairs.
pub open spec fn links_from(s: Seq<char>, p: int) -> Seq<(int, int)>
    decreases s.len() - p,
{
    if p < 0 || p >= s.len() {
        Seq::empty()
    } else {
        match link_at(s, p) {
            Some(e) => if e > p && e <= s.len() {
                seq![(p, e)] + links_from(s, e)
            } else {
                links_from(s, p + 1)
            },
            None => links_from(s, p + 1),
        }
    }
}

pub open spec fn links(s: Seq<char>) -> Seq<(int, int)> {
    links_from(s, 0)
}

/// Whether a link occurs anywhere in `s`.
pub open spec fn has_link(s: Seq<char>) -> bool {
    links(s).len() > 0
}

/// The first index at or after `k` holding `[` or `]` (the length when none).
pub open spec fn bracket_stop(s: Seq<char>, k: int) -> int
    decreases s.len() - k,
{
    if k < 0 || k >= s.len() || s[k] == '[' || s[k] == ']' {
        k
    } else {
        bracket_stop(s, k + 1)
    }
}

/// A bracketed token starting at `i`: `[`, one or more non-bracket
/// characters, `]`. Gives the index of the closing `]`.
pub open spec fn bracket_at(s: Seq<char>, i: int) -> Option<int> {
    if 0 <= i < s.len() && s[i] == '[' {
        let j = bracket_stop(s, i + 1);
        if j < s.len() && s[j] == ']' && j > i + 1 {
            Some(j)
        } else {
            None
        }
    } else {
        None
    }
}

/// The bracketed tokens from `p` on, as `(open, close)` index pairs.
pub open spec fn brackets_from(s: Seq<char>, p: int) -> Seq<(int, int)>
    decreases s.len() - p,
{
    if p < 0 || p >= s.len() {
        Seq::empty()
    } else {
        match bracket_at(s, p) {
            Some(j) => if j > p {
                seq![(p, j)] + brackets_from(s, j + 1)
            } else {
                brackets_from(s, p + 1)
            },
            None => brackets_from(s, p + 1),
        }
    }
}

pub open spec fn brackets(s: Seq<char>) -> Seq<(int, int)> {
    brackets_from(s, 0)
}

// ---------------------------------------------------------------------------

fn link_char_exec(c: char) -> (r: bool)
    ensures
        r == link_char(c),
{
    !is_white_space(c) && c != ']'
}

fn link_run_end_exec(s: &Vec<char>, k: usize) -> (r: usize)
    requires
        k <= s@.len(),
    ensures
        r as int == link_run_end(s@, k as int),
        k <= r <= s@.len(),
{
    let mut j = k;
    while j < s.len() && link_char_exec(s[j])
        invariant
            k <= j <= s@.len(),
            link_run_end(s@, k as int) == link_run_end(s@, j as int),
        decreases s.len() - j,
    {
        j += 1;
    }
    j
}

fn link_at_exec(s: &Vec<char>, i: usize) -> (r: Option<usize>)
    requires
        i <= s@.len(),
    ensures
        r matches Some(e) ==> link_at(s@, i as int) == Some(e as int) && e <= s@.len(),
        r is None ==> link_at(s@, i as int) is None,
{
    let https: Vec<char> = vec!['h', 't', 't', 'p', 's', ':', '/', '/'];
    let http: Vec<char> = vec!['h', 't', 't', 'p', ':', '/', '/'];
    let www: Vec<char> = vec!['w', 'w', 'w', '.'];
    let n = s.len();
    proof {
        assert(https@ =~= https_pat());
        assert(http@ =~= http_pat());
        assert(www@ =~= www_pat());
    }
    let k = if at_exec(s, i, &https) {
        i + 8
    } else if at_exec(s, i, &http) {
        i + 7
    } else if at_exec(s, i, &www) {
        i + 4
    } else {
        return None;
    };
    let e = link_run_end_exec(s, k);
    if e > k {
        Some(e)
    } else {
        None
    }
}

/// Every link of `s`, left to right, as `(start, end)` character positions.
pub fn find_links(s: &Vec<char>) -> (r: Vec<(usize, usize)>)
    ensures
        r@.len() == links(s@).len(),
        forall|k: int| 0 <= k < r@.len() ==> (#[trigger] r@[k]).0 as int == links(s@)[k].0 && r@[k].1 as int == links(s@)[k].1,
        forall|k: int| 0 <= k < r@.len() ==> (#[trigger] r@[k]).0 < r@[k].1 <= s@.len(),
{
    let mut out: Vec<(usize, usize)> = Vec::new();
    let mut p: usize = 0;
    while p < s.len()
        invariant
            p <= s@.len(),
            out@.len() + links_from(s@, p as int).len() == links(s@).len(),
            forall|k: int| 0 <= k < out@.len() ==> (#[trigger] out@[k]).0 as int == links(s@)[k].0 && out@[k].1 as int == links(s@)[k].1,
            forall|k: int| 0 <= k < out@.len() ==> (#[trigger] out@[k]).0 < out@[k].1 <= s@.len(),
            forall|k: int| 0 <= k < links_from(s@, p as int).len() ==> #[trigger] links_from(s@, p as int)[k] == links(s@)[out@.len() + k],
        decreases s.len() - p,
    {
        match link_at_exec(s, p) {
            Some(e) => {
                let ghost rest = links_from(s@, e as int);
                assert(links_from(s@, p as int) == seq![(p as int, e as int)] + rest);
                assert(links_from(s@, p as int)[0] == (p as int, e as int));
                out.push((p, e));
                assert forall|k: int| 0 <= k < rest.len() implies #[trigger] rest[k] == links(s@)[out@.len() + k] by {
                    assert(links_from(s@, p as int)[k + 1] == rest[k]);
                }
                p = e;
            },
            None => {
                assert(links_from(s@, p as int) == links_from(s@, p + 1));
                p += 1;
            },
        }
    }
    out
}

/// Whether `s` contains a web link.
pub fn contains_link(s: &Vec<char>) -> (r: bool)
    ensures
        r == has_link(s@),
{
    let v = find_links(s);
    v.len() > 0
}

fn bracket_stop_exec(s: &Vec<char>, k: usize) -> (r: usize)
    requires
        k <= s@.len(),
    ensures
        r as int == bracket_stop(s@, k as int),
        k <= r <= s@.len(),
{
    let mut j = k;
    while j < s.len() && s[j] != '[' && s[j] != ']'
        invariant
            k <= j <= s@.len(),
            bracket_stop(s@, k as int) == bracket_stop(s@, j as int),
        decreases s.len() - j,
    {
        j += 1;
    }
    j
}

fn bracket_at_exec(s: &Vec<char>, i: usize) -> (r: Option<usize>)
    requires
        i < s@.len(),
    ensures
        r matches Some(j) ==> bracket_at(s@, i as int) == Some(j as int) && j < s@.len(),
        r is None ==> bracket_at(s@, i as int) is None,
{
    let n = s.len();
    if s[i] != '[' {
        return None;
    }
    let j = bracket_stop_exec(s, i + 1);
    if j < s.len() && s[j] == ']' && j > i + 1 {
        Some(j)
    } else {
        None
    }
}

/// Every bracketed token of `s`, left to right, as `(open, close)` positions.
pub fn find_brackets(s: &Vec<char>) -> (r: Vec<(usize, usize)>)
    ensures
        r@.len() == brackets(s@).len(),
        forall|k: int| 0 <= k < r@.len() ==> (#[trigger] r@[k]).0 as int == brackets(s@)[k].0 && r@[k].1 as int == brackets(s@)[k].1,
        forall|k: int| 0 <= k < r@.len() ==> (#[trigger] r@[k]).0 + 1 < r@[k].1 && r@[k].1 < s@.len(),
{
    let mut out: Vec<(usize, usize)> = Vec::new();
    let mut p: usize = 0;
    while p < s.len()
        invariant
            p <= s@.len(),
            out@.len() + brackets_from(s@, p as int).len() == brackets(s@).len(),
            forall|k: int| 0 <= k < out@.len() ==> (#[trigger] out@[k]).0 as int == brackets(s@)[k].0 && out@[k].1 as int == brackets(s@)[k].1,
            forall|k: int| 0 <= k < out@.len() ==> (#[trigger] out@[k]).0 + 1 < out@[k].1 && out@[k].1 < s@.len(),
            forall|k: int| 0 <= k < brackets_from(s@, p as int).len() ==> #[trigger] brackets_from(s@, p as int)[k] == brackets(s@)[out@.len() + k],
        decreases s.len() - p,
    {
        match bracket_at_exec(s, p) {
            Some(j) => {
                let ghost rest = brackets_from(s@, j + 1);
                assert(brackets_from(s@, p as int) == seq![(p as int, j as int)] + rest);
                assert(brackets_from(s@, p as int)[0] == (p as int, j as int));
                out.push((p, j));
                assert forall|k: int| 0 <= k < rest.len() implies #[trigger] rest[k] == brackets(s@)[out@.len() + k] by {
                    assert(brackets_from(s@, p as int)[k + 1] == rest[k]);
                }
                p = j + 1;
            },
            None => {
                assert(brackets_from(s@, p as int) == brackets_from(s@, p + 1));
                p += 1;
            },
        }
    }
    out
}

proof fn lemma_link_run_end(s: Seq<char>, k: int)
    requires
        0 <= k <= s.len(),
    ensures
        k <= link_run_end(s, k) <= s.len(),
        k < s.len() && link_char(s[k]) ==> link_run_end(s, k) > k,
        forall|j: int| k <= j < link_run_end(s, k) ==> link_char(#[trigger] s[j]),
        link_run_end(s, k) < s.len() ==> !link_char(s[link_run_end(s, k)]),
    decreases s.len() - k,
{
    if k < s.len() && link_char(s[k]) {
        lemma_link_run_end(s, k + 1);
    }
}

/// A scan from `p` finds first the link from `p` over the link characters
/// from `k` on.
pub open spec fn finds_link_at(s: Seq<char>, p: int, k: int) -> bool {
    &&& links_from(s, p).len() > 0
    &&& links_from(s, p)[0] == (p, link_run_end(s, k))
    &&& forall|j: int| k <= j < link_run_end(s, k) ==> link_char(#[trigger] s[j])
    &&& (link_run_end(s, k) < s.len() ==> !link_char(s[link_run_end(s, k)]))
}

/// A web link starts wherever `https://`, `http://` or `www.` is followed by
/// a character that may continue a link (neither whitespace nor `]`), and
/// runs over all such characters that follow; a scan that reaches that
/// position finds exactly this link first.
pub proof fn law_web_links_found(s: Seq<char>, p: int)
    ensures
        at(s, p, seq!['h', 't', 't', 'p', 's', ':', '/', '/']) && p + 8 < s.len() && link_char(s[p + 8]) ==> finds_link_at(s, p, p + 8),
        at(s, p, seq!['h', 't', 't', 'p', ':', '/', '/']) && p + 7 < s.len() && link_char(s[p + 7]) ==> finds_link_at(s, p, p + 7),
        at(s, p, seq!['w', 'w', 'w', '.']) && p + 4 < s.len() && link_char(s[p + 4]) ==> finds_link_at(s, p, p + 4),
{
    let hs = seq!['h', 't', 't', 'p', 's', ':', '/', '/'];
    let h = seq!['h', 't', 't', 'p', ':', '/', '/'];
    let w = seq!['w', 'w', 'w', '.'];
    assert(https_pat() == hs);
    assert(http_pat() == h);
    assert(www_pat() == w);
    if at(s, p, hs) {
        lemma_link_run_end(s, p + 8);
        assert(s.subrange(p, p + 8)[4] == s[p + 4]);
        if at(s, p, h) {
            assert(s.subrange(p, p + 7)[4] == s[p + 4]);
        }
        if at(s, p, w) {
            assert(s.subrange(p, p + 4)[0] == s[p]);
            assert(s.subrange(p, p + 8)[0] == s[p]);
        }
    } else if at(s, p, h) {
        lemma_link_run_end(s, p + 7);
        if at(s, p, w) {
            assert(s.subrange(p, p + 4)[0] == s[p]);
            assert(s.subrange(p, p + 7)[0] == s[p]);
        }
    } else if at(s, p, w) {
        lemma_link_run_end(s, p + 4);
    }
}

/// The scan passes over positions where no link starts: from `p` it finds
/// the same links as from the first later position that starts one.
pub proof fn law_links_skip_plain_text(s: Seq<char>, p: int, i: int)
    requires
        0 <= p <= i <= s.len(),
        forall|j: int| p <= j < i ==> link_at(s, j) is None,
    ensures
        links_from(s, p) == links_from(s, i),
    decreases i - p,
{
    if p < i {
        law_links_skip_plain_text(s, p + 1, i);
    }
}

} // verus!
