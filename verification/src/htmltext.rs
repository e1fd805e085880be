//! Task HTML to plain text for the non-interactive views: block tags become
//! line breaks, other tags are dropped, entities are decoded, runs of three or
//! more line breaks shrink to two, and the result is trimmed.

use vstd::prelude::*;
use crate::textutil::{ascii_ws, is_ascii_ws};
use crate::unicode::{word_char, is_word_char, html_decoded, decode_entities, chars_of, string_of};

verus! {

/// ASCII lower case of `c` (other characters unchanged).
pub open spec fn lower(c: char) -> char {
    if 'A' <= c && c <= 'Z' {
        ((c as u32) + 32) as char
    } else {
        c
    }
}

/// `s[i..]` begins with the lower-case word `pat`, ignoring ASCII case.
pub open spec fn ci_at(s: Seq<char>, i: int, pat: Seq<char>) -> bool {
    0 <= i && i + pat.len() <= s.len() && forall|k: int| 0 <= k < pat.len() ==> lower(#[trigger] s[i + k]) == pat[k]
}

/// The end of a block tag name (`br`, `p`, `div`, `li`, `tr`, `h1`..`h6`, any
/// case) starting at `i`.
pub open spec fn block_name_end(s: Seq<char>, i: int) -> Option<int> {
    if ci_at(s, i, seq!['b', 'r']) {
        Some(i + 2)
    } else if ci_at(s, i, seq!['p']) {
        Some(i + 1)
    } else if ci_at(s, i, seq!['d', 'i', 'v']) {
        Some(i + 3)
    } else if ci_at(s, i, seq!['l', 'i']) {
        Some(i + 2)
    } else if ci_at(s, i, seq!['t', 'r']) {
        Some(i + 2)
    } else if ci_at(s, i, seq!['h']) && i + 1 < s.len() && '1' <= s[i + 1] && s[i + 1] <= '6' {
        Some(i + 2)
    } else {
        None
    }
}

/// The first `>` at or after `k` (the length when there is none).
pub open spec fn gt_from(s: Seq<char>, k: int) -> int
    decreases s.len() - k,
{
    if k < 0 || k >= s.len() {
        s.len() as int
    } else if s[k] == '>' {
        k
    } else {
        gt_from(s, k + 1)
    }
}

pub proof fn lemma_gt_from(s: Seq<char>, k: int)
    requires
        0 <= k <= s.len(),
    ensures
        k <= gt_from(s, k) <= s.len(),
    decreases s.len() - k,
{
    if k < s.len() && s[k] != '>' {
        lemma_gt_from(s, k + 1);
    }
}

/// `<(br|p|div|li|tr|h[1-6])\b[^>]*>` (any case) matched at `i`: its end.
pub open spec fn block_tag_at(s: Seq<char>, i: int) -> Option<int> {
    if 0 <= i < s.len() && s[i] == '<' {
        match block_name_end(s, i + 1) {
            Some(e) => if e < s.len() && !word_char(s[e]) && gt_from(s, e) < s.len() {
                Some(gt_from(s, e) + 1)
            } else {
                None
            },
            None => None,
        }
    } else {
        None
    }
}

/// `<[^>]+>` matched at `i`: its end.
pub open spec fn any_tag_at(s: Seq<char>, i: int) -> Option<int> {
    if 0 <= i < s.len() && s[i] == '<' && i + 1 < s.len() && s[i + 1] != '>' && gt_from(s, i + 1) < s.len() {
        Some(gt_from(s, i + 1) + 1)
    } else {
        None
    }
}

pub proof fn lemma_block_tag_end(s: Seq<char>, p: int)
    requires
        block_tag_at(s, p) is Some,
    ensures
        p < block_tag_at(s, p)->0 <= s.len(),
{
    let e = block_name_end(s, p + 1)->0;
    lemma_gt_from(s, e);
}

/// `s[p..]` with each block tag replaced by a line feed.
pub open spec fn blocks_to_breaks(s: Seq<char>, p: int) -> Seq<char>
    decreases s.len() - p,
{
    if p < 0 || p >= s.len() {
        Seq::empty()
    } else {
        match block_tag_at(s, p) {
            Some(e) => {
                proof { lemma_block_tag_end(s, p); }
                seq!['\n'] + blocks_to_breaks(s, e)
            },
            None => seq![s[p]] + blocks_to_breaks(s, p + 1),
        }
    }
}

/// `s[p..]` with every tag removed.
pub open spec fn tags_removed(s: Seq<char>, p: int) -> Seq<char>
    decreases s.len() - p,
{
    if p < 0 || p >= s.len() {
        Seq::empty()
    } else {
        match any_tag_at(s, p) {
            Some(e) => {
                proof { lemma_gt_from(s, p + 1); }
                tags_removed(s, e)
            },
            None => seq![s[p]] + tags_removed(s, p + 1),
        }
    }
}

/// The end of the run of line feeds starting at `k`.
pub open spec fn nl_end(s: Seq<char>, k: int) -> int
    decreases s.len() - k,
{
    if k < 0 || k >= s.len() || s[k] != '\n' {
        k
    } else {
        nl_end(s, k + 1)
    }
}

pub proof fn lemma_nl_end(s: Seq<char>, k: int)
    requires
        0 <= k <= s.len(),
    ensures
        k <= nl_end(s, k) <= s.len(),
    decreases s.len() - k,
{
    if k < s.len() && s[k] == '\n' {
        lemma_nl_end(s, k + 1);
    }
}

/// `s[p..]` with every run of three or more line feeds shrunk to two.
pub open spec fn breaks_collapsed(s: Seq<char>, p: int) -> Seq<char>
    decreases s.len() - p,
{
    if p < 0 || p >= s.len() {
        Seq::empty()
    } else if s[p] == '\n' && nl_end(s, p) - p >= 3 {
        proof { lemma_nl_end(s, p); }
        seq!['\n', '\n'] + breaks_collapsed(s, nl_end(s, p))
    } else {
        seq![s[p]] + breaks_collapsed(s, p + 1)
    }
}

/// The first position at or after `i` that is not ASCII whitespace.
pub open spec fn lead_end(s: Seq<char>, i: int) -> int
    decreases s.len() - i,
{
    if i < 0 || i >= s.len() || !ascii_ws(s[i]) {
        i
    } else {
        lead_end(s, i + 1)
    }
}

/// The end of `s[..j]` without its trailing ASCII whitespace.
pub open spec fn trail_end(s: Seq<char>, j: int) -> int
    decreases j,
{
    if j <= 0 || j > s.len() {
        if j > s.len() { s.len() as int } else { 0 }
    } else if ascii_ws(s[j - 1]) {
        trail_end(s, j - 1)
    } else {
        j
    }
}

/// `s` without leading and trailing ASCII whitespace.
pub open spec fn ascii_trimmed(s: Seq<char>) -> Seq<char> {
    let a = lead_end(s, 0);
    let b = trail_end(s, s.len() as int);
    if a < b { s.subrange(a, b) } else { Seq::empty() }
}

/// The plain text of task HTML.
pub open spec fn html_text(html: Seq<char>) -> Seq<char> {
    ascii_trimmed(breaks_collapsed(html_decoded(tags_removed(blocks_to_breaks(html, 0), 0)), 0))
}

pub(crate) fn lower_exec(c: char) -> (r: char)
    ensures
        r == lower(c),
{
    if 'A' <= c && c <= 'Z' {
        match c {
            'A' => 'a', 'B' => 'b', 'C' => 'c', 'D' => 'd', 'E' => 'e', 'F' => 'f', 'G' => 'g',
            'H' => 'h', 'I' => 'i', 'J' => 'j', 'K' => 'k', 'L' => 'l', 'M' => 'm', 'N' => 'n',
            'O' => 'o', 'P' => 'p', 'Q' => 'q', 'R' => 'r', 'S' => 's', 'T' => 't', 'U' => 'u',
            'V' => 'v', 'W' => 'w', 'X' => 'x', 'Y' => 'y', _ => 'z',
        }
    } else {
        c
    }
}

pub(crate) fn ci_at_exec(s: &Vec<char>, i: usize, pat: &[char]) -> (r: bool)
    ensures
        r == ci_at(s@, i as int, pat@),
{
    let n = s.len();
    if i > n || pat.len() > n - i {
        return false;
    }
    let mut k: usize = 0;
    while k < pat.len()
        invariant
            n == s@.len(),
            i + pat@.len() <= n,
            k <= pat@.len(),
            forall|t: int| 0 <= t < k ==> lower(#[trigger] s@[i + t]) == pat@[t],
        decreases pat.len() - k,
    {
        if lower_exec(s[i + k]) != pat[k] {
            return false;
        }
        k += 1;
    }
    true
}

fn gt_from_exec(s: &Vec<char>, k: usize) -> (r: usize)
    requires
        k <= s@.len(),
    ensures
        r as int == gt_from(s@, k as int),
        k <= r <= s@.len(),
{
    let mut j = k;
    while j < s.len() && s[j] != '>'
        invariant
            k <= j <= s@.len(),
            gt_from(s@, k as int) == gt_from(s@, j as int),
        decreases s.len() - j,
    {
        j += 1;
    }
    j
}

fn block_name_end_exec(s: &Vec<char>, i: usize) -> (r: Option<usize>)
    ensures
        match r {
            Some(e) => block_name_end(s@, i as int) == Some(e as int) && e <= s@.len(),
            None => block_name_end(s@, i as int) is None,
        },
{
    let n = s.len();
    if ci_at_exec(s, i, &['b', 'r']) {
        return Some(i + 2);
    }
    if ci_at_exec(s, i, &['p']) {
        return Some(i + 1);
    }
    if ci_at_exec(s, i, &['d', 'i', 'v']) {
        return Some(i + 3);
    }
    if ci_at_exec(s, i, &['l', 'i']) {
        return Some(i + 2);
    }
    if ci_at_exec(s, i, &['t', 'r']) {
        return Some(i + 2);
    }
    if ci_at_exec(s, i, &['h']) && i + 1 < s.len() && '1' <= s[i + 1] && s[i + 1] <= '6' {
        return Some(i + 2);
    }
    None
}

fn block_tag_at_exec(s: &Vec<char>, i: usize) -> (r: Option<usize>)
    requires
        i < s@.len(),
    ensures
        match r {
            Some(e) => block_tag_at(s@, i as int) == Some(e as int) && i < e <= s@.len(),
            None => block_tag_at(s@, i as int) is None,
        },
{
    let n = s.len();
    if s[i] != '<' {
        return None;
    }
    match block_name_end_exec(s, i + 1) {
        Some(e) => {
            if e < s.len() && !is_word_char(s[e]) {
                let g = gt_from_exec(s, e);
                if g < s.len() {
                    return Some(g + 1);
                }
            }
            None
        },
        None => None,
    }
}

pub(crate) fn any_tag_at_exec(s: &Vec<char>, i: usize) -> (r: Option<usize>)
    requires
        i < s@.len(),
    ensures
        match r {
            Some(e) => any_tag_at(s@, i as int) == Some(e as int) && i < e <= s@.len(),
            None => any_tag_at(s@, i as int) is None,
        },
{
    let n = s.len();
    if s[i] != '<' || i + 1 >= n || s[i + 1] == '>' {
        return None;
    }
    let g = gt_from_exec(s, i + 1);
    if g < s.len() {
        Some(g + 1)
    } else {
        None
    }
}

fn blocks_to_breaks_exec(s: &Vec<char>) -> (r: Vec<char>)
    ensures
        r@ == blocks_to_breaks(s@, 0),
{
    let mut out: Vec<char> = Vec::new();
    let mut p: usize = 0;
    while p < s.len()
        invariant
            p <= s@.len(),
            out@ + blocks_to_breaks(s@, p as int) == blocks_to_breaks(s@, 0),
        decreases s.len() - p,
    {
        let ghost before = out@;
        match block_tag_at_exec(s, p) {
            Some(e) => {
                out.push('\n');
                proof { assert(out@ + blocks_to_breaks(s@, e as int) =~= before + (seq!['\n'] + blocks_to_breaks(s@, e as int))); }
                p = e;
            },
            None => {
                out.push(s[p]);
                proof { assert(out@ + blocks_to_breaks(s@, p + 1) =~= before + (seq![s@[p as int]] + blocks_to_breaks(s@, p + 1))); }
                p += 1;
            },
        }
    }
    proof { assert(out@ + Seq::<char>::empty() =~= out@); }
    out
}

fn tags_removed_exec(s: &Vec<char>) -> (r: Vec<char>)
    ensures
        r@ == tags_removed(s@, 0),
{
    let mut out: Vec<char> = Vec::new();
    let mut p: usize = 0;
    while p < s.len()
        invariant
            p <= s@.len(),
            out@ + tags_removed(s@, p as int) == tags_removed(s@, 0),
        decreases s.len() - p,
    {
        let ghost before = out@;
        match any_tag_at_exec(s, p) {
            Some(e) => {
                p = e;
            },
            None => {
                out.push(s[p]);
                proof { assert(out@ + tags_removed(s@, p + 1) =~= before + (seq![s@[p as int]] + tags_removed(s@, p + 1))); }
                p += 1;
            },
        }
    }
    proof { assert(out@ + Seq::<char>::empty() =~= out@); }
    out
}

fn nl_end_exec(s: &Vec<char>, k: usize) -> (r: usize)
    requires
        k <= s@.len(),
    ensures
        r as int == nl_end(s@, k as int),
        k <= r <= s@.len(),
{
    let mut j = k;
    while j < s.len() && s[j] == '\n'
        invariant
            k <= j <= s@.len(),
            nl_end(s@, k as int) == nl_end(s@, j as int),
        decreases s.len() - j,
    {
        j += 1;
    }
    j
}

fn breaks_collapsed_exec(s: &Vec<char>) -> (r: Vec<char>)
    ensures
        r@ == breaks_collapsed(s@, 0),
{
    let mut out: Vec<char> = Vec::new();
    let mut p: usize = 0;
    while p < s.len()
        invariant
            p <= s@.len(),
            out@ + breaks_collapsed(s@, p as int) == breaks_collapsed(s@, 0),
        decreases s.len() - p,
    {
        let ghost before = out@;
        if s[p] == '\n' {
            let e = nl_end_exec(s, p);
            if e - p >= 3 {
                out.push('\n');
                out.push('\n');
                proof { assert(out@ + breaks_collapsed(s@, e as int) =~= before + (seq!['\n', '\n'] + breaks_collapsed(s@, e as int))); }
                p = e;
                continue;
            }
        }
        out.push(s[p]);
        proof { assert(out@ + breaks_collapsed(s@, p + 1) =~= before + (seq![s@[p as int]] + breaks_collapsed(s@, p + 1))); }
        p += 1;
    }
    proof { assert(out@ + Seq::<char>::empty() =~= out@); }
    out
}

fn ascii_trimmed_exec(s: &Vec<char>) -> (r: Vec<char>)
    ensures
        r@ == ascii_trimmed(s@),
{
    let n = s.len();
    let mut a: usize = 0;
    while a < n && is_ascii_ws(s[a])
        invariant
            a <= n == s@.len(),
            lead_end(s@, 0) == lead_end(s@, a as int),
        decreases n - a,
    {
        a += 1;
    }
    let mut b: usize = n;
    while b > 0 && is_ascii_ws(s[b - 1])
        invariant
            b <= n == s@.len(),
            trail_end(s@, n as int) == trail_end(s@, b as int),
        decreases b,
    {
        b -= 1;
    }
    let mut out: Vec<char> = Vec::new();
    if a < b {
        let mut k = a;
        while k < b
            invariant
                a <= k <= b <= s@.len(),
                out@ == s@.subrange(a as int, k as int),
            decreases b - k,
        {
            out.push(s[k]);
            k += 1;
            proof { assert(out@ =~= s@.subrange(a as int, k as int)); }
        }
    }
    out
}

/// The plain text of task HTML: `<br>`, `<p>`, `<div>`, `<li>`, `<tr>` and
/// heading tags become line breaks, other tags are dropped, entities are
/// decoded, three or more consecutive line breaks become two, and leading and
/// trailing ASCII whitespace is trimmed.
pub fn html_to_text(html: &str) -> (r: String)
    ensures
        r@ == html_text(html@),
{
    let cs = chars_of(html);
    let a = blocks_to_breaks_exec(&cs);
    let b = tags_removed_exec(&a);
    let bs = string_of(b.as_slice());
    let decoded = decode_entities(bs.as_str());
    let dc = chars_of(decoded.as_str());
    let c = breaks_collapsed_exec(&dc);
    let d = ascii_trimmed_exec(&c);
    string_of(d.as_slice())
}

} // verus!
