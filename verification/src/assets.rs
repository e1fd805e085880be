//! Assets of a task: images and links in the task's and comments' HTML, and
//! its attachments, each with a display label; deduplicated by URL.

use vstd::prelude::*;
use crate::render::{Asset, filename_like, looks_like_filename, sub_string};
use crate::richparse::{trim_by, is_ws, quote_from};
use crate::htmltext::{lower, ci_at, gt_from, html_text, html_to_text, lemma_gt_from};
use crate::unicode::{word_char, is_word_char, url_host_of, parse_url_host, chars_of, string_of};
use crate::fields::{JsonField, field_str, as_text};
use crate::cli_render::{TaskFields, CommentFields, str_or_empty, text_or_empty};

verus! {

// ---------------------------------------------------------------------------
// Labels.
// ---------------------------------------------------------------------------

/// The part of `url` after its last `/`, or the whole URL when that is empty.
pub open spec fn basename(url: Seq<char>) -> Seq<char> {
    let k = last_slash(url, url.len() as int);
    let seg = url.skip(k + 1);
    if seg.len() == 0 { url } else { seg }
}

/// The position of the last `/` before `j` (-1 when none).
pub open spec fn last_slash(s: Seq<char>, j: int) -> int
    decreases j,
{
    if j <= 0 || j > s.len() {
        -1
    } else if s[j - 1] == '/' {
        j - 1
    } else {
        last_slash(s, j - 1)
    }
}

/// The last `/`-separated segment of a URL, or the URL when that is empty.
pub fn url_basename(url: &str) -> (r: String)
    ensures
        r@ == basename(url@),
{
    let cs = chars_of(url);
    let mut j = cs.len();
    while j > 0 && cs[j - 1] != '/'
        invariant
            j <= cs@.len(),
            last_slash(cs@, cs@.len() as int) == last_slash(cs@, j as int),
        decreases j,
    {
        j -= 1;
    }
    let from = j;
    let n = cs.len();
    proof {
        let k = last_slash(cs@, n as int);
        assert(k + 1 == from);
        assert(cs@.skip(k + 1) =~= cs@.subrange(from as int, n as int));
    }
    if from == n {
        crate::textutil::owned(url)
    } else {
        sub_string(&cs, from, n)
    }
}

/// The host of a URL, when it parses and the host is not empty.
pub open spec fn host_of(url: Seq<char>) -> Option<Seq<char>> {
    match url_host_of(url) {
        Some(h) => if h.len() > 0 { Some(h) } else { None },
        None => None,
    }
}

pub fn url_host(url: &str) -> (r: Option<String>)
    ensures
        match r {
            Some(h) => host_of(url@) == Some(h@),
            None => host_of(url@) is None,
        },
{
    match parse_url_host(url) {
        Some(h) => if h.as_str().is_empty() { None } else { Some(h) },
        None => None,
    }
}

/// An asset's label: the link text (trimmed) when it is non-empty and not the
/// URL itself, else the URL's last segment when it looks like a file name,
/// else the URL's host, else empty.
pub open spec fn asset_label_of(url: Seq<char>, anchor: Option<Seq<char>>) -> Seq<char> {
    let from_text = match anchor {
        Some(t) => {
            let tt = trim_by(t, is_ws());
            if tt.len() > 0 && tt != url { Some(tt) } else { None }
        },
        None => None,
    };
    match from_text {
        Some(tt) => tt,
        None => {
            let b = basename(url);
            if filename_like(b) {
                b
            } else {
                match host_of(url) {
                    Some(h) => h,
                    None => Seq::empty(),
                }
            }
        },
    }
}

/// The display label of an asset: link text, then a real file name, then the
/// host; empty when none applies.
pub fn derive_asset_label(url: &str, anchor_text: Option<&str>) -> (r: String)
    ensures
        r@ == asset_label_of(url@, match anchor_text {
            Some(t) => Some(t@),
            None => None,
        }),
{
    if let Some(text) = anchor_text {
        let tc = chars_of(text);
        let tt = crate::richparse::trim_ws(&tc);
        let uc = chars_of(url);
        if tt.len() > 0 && !crate::textutil::chars_eq(&tt, &uc) {
            return string_of(tt.as_slice());
        }
    }
    let b = url_basename(url);
    if looks_like_filename(b.as_str()) {
        return b;
    }
    match url_host(url) {
        Some(h) => h,
        None => String::new(),
    }
}

// ---------------------------------------------------------------------------
// The HTML scanners.
// ---------------------------------------------------------------------------

/// `s` (any case, also the long s `ſ`, which folds to `s`).
pub open spec fn ci_s(c: char) -> bool {
    c == 's' || c == 'S' || c == '\u{17F}'
}

pub open spec fn is_quote(c: char) -> bool {
    c == '"' || c == '\''
}

/// `\bsrc=["']([^"']+)["']` (any case) matched at `k`: the value's range.
pub open spec fn src_attr_at(s: Seq<char>, k: int) -> Option<(int, int)> {
    if 0 < k && k + 4 < s.len() && !word_char(s[k - 1]) && ci_s(s[k]) && lower(s[k + 1]) == 'r'
        && lower(s[k + 2]) == 'c' && s[k + 3] == '=' && is_quote(s[k + 4]) {
        let q = quote_from(s, k + 5);
        if k + 5 < q < s.len() { Some((k + 5, q)) } else { None }
    } else {
        None
    }
}

/// The last position in `[lo, k]` where a `src` attribute matches.
pub open spec fn last_src(s: Seq<char>, lo: int, k: int) -> Option<int>
    decreases k - lo + 1,
{
    if k < lo {
        None
    } else if src_attr_at(s, k) is Some {
        Some(k)
    } else {
        last_src(s, lo, k - 1)
    }
}

/// `<img\b[^>]*\bsrc=["']([^"']+)["']` (any case) matched at `i`: the source
/// value's range (the last `src` inside the tag, as the greedy match takes).
pub open spec fn img_at(s: Seq<char>, i: int) -> Option<(int, int)> {
    if 0 <= i < s.len() && s[i] == '<' && ci_at(s, i + 1, seq!['i', 'm', 'g']) {
        let e = i + 4;
        if e < s.len() && word_char(s[e]) {
            None
        } else {
            match last_src(s, e, gt_from(s, e)) {
                Some(k) => src_attr_at(s, k),
                None => None,
            }
        }
    } else {
        None
    }
}

/// The image sources of `s` from `p` on, left to right.
pub open spec fn imgs_from(s: Seq<char>, p: int) -> Seq<Seq<char>>
    decreases s.len() + 1 - p,
{
    if p < 0 || p > s.len() {
        Seq::empty()
    } else {
        match img_at(s, p) {
            Some(m) => {
                proof { lemma_img_at(s, p); }
                seq![s.subrange(m.0, m.1)] + imgs_from(s, m.1 + 1)
            },
            None => imgs_from(s, p + 1),
        }
    }
}

pub proof fn lemma_quote_from(s: Seq<char>, k: int)
    requires
        0 <= k <= s.len(),
    ensures
        k <= quote_from(s, k) <= s.len(),
    decreases s.len() - k,
{
    if k < s.len() && !is_quote(s[k]) {
        lemma_quote_from(s, k + 1);
    }
}

pub proof fn lemma_last_src(s: Seq<char>, lo: int, k: int)
    ensures
        last_src(s, lo, k) matches Some(x) ==> lo <= x <= k && src_attr_at(s, x) is Some,
    decreases k - lo + 1,
{
    if k >= lo && src_attr_at(s, k) is None {
        lemma_last_src(s, lo, k - 1);
    }
}

pub proof fn lemma_img_at(s: Seq<char>, i: int)
    requires
        img_at(s, i) is Some,
    ensures
        ({
            let m = img_at(s, i)->0;
            i < m.0 <= m.1 < s.len()
        }),
{
    let e = i + 4;
    lemma_gt_from(s, e);
    lemma_last_src(s, e, gt_from(s, e));
}

/// `\bhref=["']([^"']+)["']` (any case) matched at `k`: the value's range.
pub open spec fn href_attr_at(s: Seq<char>, k: int) -> Option<(int, int)> {
    if 0 < k && k + 5 < s.len() && !word_char(s[k - 1]) && ci_at(s, k, seq!['h', 'r', 'e', 'f', '='])
        && is_quote(s[k + 5]) {
        let q = quote_from(s, k + 6);
        if k + 6 < q < s.len() { Some((k + 6, q)) } else { None }
    } else {
        None
    }
}

/// The lazy `(.*?)</a>` from `j`: the first `</a>` (any case) before any line feed.
pub open spec fn close_a_from(s: Seq<char>, j: int) -> Option<int>
    decreases s.len() - j,
{
    if j < 0 || j >= s.len() {
        None
    } else if ci_at(s, j, seq!['<', '/', 'a', '>']) {
        Some(j)
    } else if s[j] == '\n' {
        None
    } else {
        close_a_from(s, j + 1)
    }
}

/// The rest of `<a …href="URL"…>TEXT</a>` after an `href` at `k`: the URL's
/// range and the text's range.
pub open spec fn anchor_rest(s: Seq<char>, k: int) -> Option<(int, int, int, int)> {
    match href_attr_at(s, k) {
        Some(m) => {
            let g = gt_from(s, m.1 + 1);
            if g < s.len() {
                match close_a_from(s, g + 1) {
                    Some(j) => Some((m.0, m.1, g + 1, j)),
                    None => None,
                }
            } else {
                None
            }
        },
        None => None,
    }
}

pub open spec fn last_href(s: Seq<char>, lo: int, k: int) -> Option<int>
    decreases k - lo + 1,
{
    if k < lo {
        None
    } else if anchor_rest(s, k) is Some {
        Some(k)
    } else {
        last_href(s, lo, k - 1)
    }
}

/// `<a\b[^>]*\bhref=["']([^"']+)["'][^>]*>(.*?)</a>` (any case) matched at `i`.
pub open spec fn a_at(s: Seq<char>, i: int) -> Option<(int, int, int, int)> {
    if 0 <= i < s.len() && s[i] == '<' && ci_at(s, i + 1, seq!['a']) {
        let e = i + 2;
        if e < s.len() && word_char(s[e]) {
            None
        } else {
            match last_href(s, e, gt_from(s, e)) {
                Some(k) => anchor_rest(s, k),
                None => None,
            }
        }
    } else {
        None
    }
}

pub proof fn lemma_close_a(s: Seq<char>, j: int)
    ensures
        close_a_from(s, j) matches Some(x) ==> j <= x && x + 4 <= s.len(),
    decreases s.len() - j,
{
    if 0 <= j < s.len() && !ci_at(s, j, seq!['<', '/', 'a', '>']) && s[j] != '\n' {
        lemma_close_a(s, j + 1);
    }
}

pub proof fn lemma_last_href(s: Seq<char>, lo: int, k: int)
    ensures
        last_href(s, lo, k) matches Some(x) ==> lo <= x <= k && anchor_rest(s, x) is Some,
    decreases k - lo + 1,
{
    if k >= lo && anchor_rest(s, k) is None {
        lemma_last_href(s, lo, k - 1);
    }
}

pub proof fn lemma_a_at(s: Seq<char>, i: int)
    requires
        a_at(s, i) is Some,
    ensures
        ({
            let m = a_at(s, i)->0;
            i < m.0 <= m.1 < m.2 <= m.3 && m.3 + 4 <= s.len()
        }),
{
    let e = i + 2;
    lemma_gt_from(s, e);
    lemma_last_href(s, e, gt_from(s, e));
    let k = last_href(s, e, gt_from(s, e))->0;
    let m = href_attr_at(s, k)->0;
    lemma_gt_from(s, m.1 + 1);
    let g = gt_from(s, m.1 + 1);
    lemma_close_a(s, g + 1);
}

/// The links of `s` from `p` on: each URL with its raw inner HTML.
pub open spec fn anchors_from(s: Seq<char>, p: int) -> Seq<(Seq<char>, Seq<char>)>
    decreases s.len() + 1 - p,
{
    if p < 0 || p > s.len() {
        Seq::empty()
    } else {
        match a_at(s, p) {
            Some(m) => {
                proof { lemma_a_at(s, p); }
                seq![(s.subrange(m.0, m.1), s.subrange(m.2, m.3))] + anchors_from(s, m.3 + 4)
            },
            None => anchors_from(s, p + 1),
        }
    }
}

fn quote_from_exec(s: &Vec<char>, k: usize) -> (r: usize)
    requires
        k <= s@.len(),
    ensures
        r as int == quote_from(s@, k as int),
        k <= r <= s@.len(),
{
    let mut j = k;
    while j < s.len() && s[j] != '"' && s[j] != '\''
        invariant
            k <= j <= s@.len(),
            quote_from(s@, k as int) == quote_from(s@, j as int),
        decreases s.len() - j,
    {
        j += 1;
    }
    j
}

fn gt_from_exec(s: &Vec<char>, k: usize) -> (r: usize)
    requires
        k <= s@.len(),
    ensures
        r as int == gt_from(s@, k as int),
        k <= r <= s@.len(),
{
    let mut j = k;
    while j < s.len() && s[j] != '>'
        invariant
            k <= j <= s@.len(),
            gt_from(s@, k as int) == gt_from(s@, j as int),
        decreases s.len() - j,
    {
        j += 1;
    }
    j
}

fn lower_is(c: char, x: char) -> (r: bool)
    ensures
        r == (lower(c) == x),
{
    crate::htmltext::lower_exec(c) == x
}

fn src_attr_at_exec(s: &Vec<char>, k: usize) -> (r: Option<(usize, usize)>)
    ensures
        match r {
            Some(m) => src_attr_at(s@, k as int) == Some((m.0 as int, m.1 as int)),
            None => src_attr_at(s@, k as int) is None,
        },
{
    let n = s.len();
    if k == 0 || k >= n || n - k <= 4 {
        return None;
    }
    let c = s[k];
    if is_word_char(s[k - 1]) || !(c == 's' || c == 'S' || c == '\u{17F}') || !lower_is(s[k + 1], 'r')
        || !lower_is(s[k + 2], 'c') || s[k + 3] != '=' || !(s[k + 4] == '"' || s[k + 4] == '\'') {
        return None;
    }
    let q = quote_from_exec(s, k + 5);
    if k + 5 < q && q < n {
        Some((k + 5, q))
    } else {
        None
    }
}

fn img_at_exec(s: &Vec<char>, i: usize) -> (r: Option<(usize, usize)>)
    requires
        i < s@.len(),
    ensures
        match r {
            Some(m) => img_at(s@, i as int) == Some((m.0 as int, m.1 as int)),
            None => img_at(s@, i as int) is None,
        },
{
    let n = s.len();
    if s[i] != '<' || !crate::htmltext::ci_at_exec(s, i + 1, &['i', 'm', 'g']) {
        return None;
    }
    let e = i + 4;
    if e < n && is_word_char(s[e]) {
        return None;
    }
    let g = gt_from_exec(s, e);
    let mut k = g;
    proof {
        assert(img_at(s@, i as int) == match last_src(s@, e as int, g as int) {
            Some(x) => src_attr_at(s@, x),
            None => None,
        });
    }
    loop
        invariant
            e <= k,
            k <= g,
            g == gt_from(s@, e as int),
            g <= s@.len(),
            last_src(s@, e as int, g as int) == last_src(s@, e as int, k as int),
            img_at(s@, i as int) == match last_src(s@, e as int, g as int) {
                Some(x) => src_attr_at(s@, x),
                None => None,
            },
        decreases k,
    {
        match src_attr_at_exec(s, k) {
            Some(m) => {
                return Some(m);
            },
            None => {},
        }
        if k == e {
            proof { assert(last_src(s@, e as int, e - 1) is None); }
            return None;
        }
        k -= 1;
    }
}

fn href_attr_at_exec(s: &Vec<char>, k: usize) -> (r: Option<(usize, usize)>)
    ensures
        match r {
            Some(m) => href_attr_at(s@, k as int) == Some((m.0 as int, m.1 as int)),
            None => href_attr_at(s@, k as int) is None,
        },
{
    let n = s.len();
    if k == 0 || k >= n || n - k <= 5 {
        return None;
    }
    if is_word_char(s[k - 1]) || !crate::htmltext::ci_at_exec(s, k, &['h', 'r', 'e', 'f', '='])
        || !(s[k + 5] == '"' || s[k + 5] == '\'') {
        return None;
    }
    let q = quote_from_exec(s, k + 6);
    if k + 6 < q && q < n {
        Some((k + 6, q))
    } else {
        None
    }
}

fn close_a_exec(s: &Vec<char>, j: usize) -> (r: Option<usize>)
    requires
        j <= s@.len(),
    ensures
        match r {
            Some(x) => close_a_from(s@, j as int) == Some(x as int),
            None => close_a_from(s@, j as int) is None,
        },
{
    let mut k = j;
    while k < s.len()
        invariant
            j <= k <= s@.len(),
            close_a_from(s@, j as int) == close_a_from(s@, k as int),
        decreases s.len() - k,
    {
        if crate::htmltext::ci_at_exec(s, k, &['<', '/', 'a', '>']) {
            return Some(k);
        }
        if s[k] == '\n' {
            return None;
        }
        k += 1;
    }
    None
}

fn anchor_rest_exec(s: &Vec<char>, k: usize) -> (r: Option<(usize, usize, usize, usize)>)
    ensures
        match r {
            Some(m) => anchor_rest(s@, k as int) == Some((m.0 as int, m.1 as int, m.2 as int, m.3 as int)),
            None => anchor_rest(s@, k as int) is None,
        },
{
    let n = s.len();
    match href_attr_at_exec(s, k) {
        Some(m) => {
            let g = gt_from_exec(s, m.1 + 1);
            if g < s.len() {
                match close_a_exec(s, g + 1) {
                    Some(j) => Some((m.0, m.1, g + 1, j)),
                    None => None,
                }
            } else {
                None
            }
        },
        None => None,
    }
}

fn a_at_exec(s: &Vec<char>, i: usize) -> (r: Option<(usize, usize, usize, usize)>)
    requires
        i < s@.len(),
    ensures
        match r {
            Some(m) => a_at(s@, i as int) == Some((m.0 as int, m.1 as int, m.2 as int, m.3 as int)),
            None => a_at(s@, i as int) is None,
        },
{
    let n = s.len();
    if s[i] != '<' || !crate::htmltext::ci_at_exec(s, i + 1, &['a']) {
        return None;
    }
    let e = i + 2;
    if e < n && is_word_char(s[e]) {
        return None;
    }
    let g = gt_from_exec(s, e);
    let mut k = g;
    proof {
        assert(a_at(s@, i as int) == match last_href(s@, e as int, g as int) {
            Some(x) => anchor_rest(s@, x),
            None => None,
        });
    }
    loop
        invariant
            e <= k,
            k <= g,
            g == gt_from(s@, e as int),
            g <= s@.len(),
            last_href(s@, e as int, g as int) == last_href(s@, e as int, k as int),
            a_at(s@, i as int) == match last_href(s@, e as int, g as int) {
                Some(x) => anchor_rest(s@, x),
                None => None,
            },
        decreases k,
    {
        match anchor_rest_exec(s, k) {
            Some(m) => {
                return Some(m);
            },
            None => {},
        }
        if k == e {
            proof { assert(last_href(s@, e as int, e - 1) is None); }
            return None;
        }
        k -= 1;
    }
}

/// The image sources of an HTML text, left to right.
fn image_sources(s: &Vec<char>) -> (r: Vec<String>)
    ensures
        crate::textutil::strs(r@) == imgs_from(s@, 0),
{
    let mut out: Vec<String> = Vec::new();
    let n = s.len();
    let mut p: usize = 0;
    while p < n
        invariant
            n == s@.len(),
            p <= n + 1,
            crate::textutil::strs(out@) + imgs_from(s@, p as int) == imgs_from(s@, 0),
        decreases n + 1 - p,
    {
        let ghost before = crate::textutil::strs(out@);
        match img_at_exec(s, p) {
            Some(m) => {
                proof { lemma_img_at(s@, p as int); }
                let v = sub_string(s, m.0, m.1);
                out.push(v);
                proof {
                    assert(crate::textutil::strs(out@) =~= before.push(s@.subrange(m.0 as int, m.1 as int)));
                    assert(crate::textutil::strs(out@) + imgs_from(s@, m.1 + 1)
                        =~= before + (seq![s@.subrange(m.0 as int, m.1 as int)] + imgs_from(s@, m.1 + 1)));
                }
                p = m.1 + 1;
            },
            None => {
                p += 1;
            },
        }
    }
    proof {
        if p == n {
            assert(img_at(s@, n as int) is None);
            assert(imgs_from(s@, n + 1) == Seq::<Seq<char>>::empty());
        }
        assert(imgs_from(s@, p as int) == Seq::<Seq<char>>::empty());
        assert(crate::textutil::strs(out@) + Seq::<Seq<char>>::empty() =~= crate::textutil::strs(out@));
    }
    out
}

pub open spec fn pair_views(v: Seq<(String, String)>) -> Seq<(Seq<char>, Seq<char>)> {
    v.map_values(|p: (String, String)| (p.0@, p.1@))
}

/// The links of an HTML text, left to right: URL and raw inner HTML.
fn anchor_links(s: &Vec<char>) -> (r: Vec<(String, String)>)
    ensures
        pair_views(r@) == anchors_from(s@, 0),
{
    let mut out: Vec<(String, String)> = Vec::new();
    let n = s.len();
    let mut p: usize = 0;
    while p < n
        invariant
            n == s@.len(),
            p <= n + 1,
            pair_views(out@) + anchors_from(s@, p as int) == anchors_from(s@, 0),
        decreases n + 1 - p,
    {
        let ghost before = pair_views(out@);
        match a_at_exec(s, p) {
            Some(m) => {
                proof { lemma_a_at(s@, p as int); }
                let url = sub_string(s, m.0, m.1);
                let text = sub_string(s, m.2, m.3);
                out.push((url, text));
                let ghost x = (s@.subrange(m.0 as int, m.1 as int), s@.subrange(m.2 as int, m.3 as int));
                proof {
                    assert(pair_views(out@) =~= before.push(x));
                    assert(pair_views(out@) + anchors_from(s@, m.3 + 4) =~= before + (seq![x] + anchors_from(s@, m.3 + 4)));
                }
                p = m.3 + 4;
            },
            None => {
                p += 1;
            },
        }
    }
    proof {
        if p == n {
            assert(a_at(s@, n as int) is None);
            assert(anchors_from(s@, n + 1) == Seq::<(Seq<char>, Seq<char>)>::empty());
        }
        assert(anchors_from(s@, p as int) == Seq::<(Seq<char>, Seq<char>)>::empty());
        assert(pair_views(out@) + Seq::<(Seq<char>, Seq<char>)>::empty() =~= pair_views(out@));
    }
    out
}

pub open spec fn asset_view(a: Asset) -> (Seq<char>, Seq<char>) {
    (a.name@, a.url@)
}

pub open spec fn assets_view(v: Seq<Asset>) -> Seq<(Seq<char>, Seq<char>)> {
    v.map_values(|a: Asset| asset_view(a))
}

/// The image assets of an HTML text: each source, labelled by its URL.
pub open spec fn image_assets(html: Seq<char>) -> Seq<(Seq<char>, Seq<char>)> {
    imgs_from(html, 0).map_values(|u: Seq<char>| (asset_label_of(u, None), u))
}

/// The assets of an HTML text: its images, then its links labelled by their
/// text.
pub open spec fn html_assets(html: Seq<char>) -> Seq<(Seq<char>, Seq<char>)> {
    image_assets(html) + anchors_from(html, 0).map_values(
        |p: (Seq<char>, Seq<char>)| (asset_label_of(p.0, Some(html_text(p.1))), p.0),
    )
}

fn image_assets_from_html(html: &str) -> (r: Vec<Asset>)
    ensures
        assets_view(r@) == image_assets(html@),
{
    let cs = chars_of(html);
    let srcs = image_sources(&cs);
    let ghost want = image_assets(html@);
    let mut out: Vec<Asset> = Vec::new();
    let mut i: usize = 0;
    while i < srcs.len()
        invariant
            i <= srcs@.len(),
            crate::textutil::strs(srcs@) == imgs_from(html@, 0),
            want == image_assets(html@),
            assets_view(out@) == want.subrange(0, i as int),
        decreases srcs.len() - i,
    {
        let url = srcs[i].clone();
        let name = derive_asset_label(url.as_str(), None);
        let ghost before = assets_view(out@);
        out.push(Asset { name, url });
        proof {
            assert(crate::textutil::strs(srcs@)[i as int] == srcs@[i as int]@);
            assert(assets_view(out@) =~= before.push(want[i as int]));
            assert(want.subrange(0, i + 1) =~= want.subrange(0, i as int).push(want[i as int]));
        }
        i += 1;
    }
    proof { assert(want.subrange(0, srcs@.len() as int) =~= want); }
    out
}

fn assets_from_html(html: &str) -> (r: Vec<Asset>)
    ensures
        assets_view(r@) == html_assets(html@),
{
    let mut out = image_assets_from_html(html);
    let cs = chars_of(html);
    let links = anchor_links(&cs);
    let ghost base = assets_view(out@);
    let ghost tail = anchors_from(html@, 0).map_values(
        |p: (Seq<char>, Seq<char>)| (asset_label_of(p.0, Some(html_text(p.1))), p.0),
    );
    let mut i: usize = 0;
    while i < links.len()
        invariant
            i <= links@.len(),
            pair_views(links@) == anchors_from(html@, 0),
            base == image_assets(html@),
            tail == anchors_from(html@, 0).map_values(
                |p: (Seq<char>, Seq<char>)| (asset_label_of(p.0, Some(html_text(p.1))), p.0),
            ),
            assets_view(out@) == base + tail.subrange(0, i as int),
        decreases links.len() - i,
    {
        let url = links[i].0.clone();
        let text = html_to_text(links[i].1.as_str());
        let name = derive_asset_label(url.as_str(), Some(text.as_str()));
        let ghost before = assets_view(out@);
        out.push(Asset { name, url });
        proof {
            assert(pair_views(links@)[i as int] == (links@[i as int].0@, links@[i as int].1@));
            assert(assets_view(out@) =~= before.push(tail[i as int]));
            assert(tail.subrange(0, i + 1) =~= tail.subrange(0, i as int).push(tail[i as int]));
        }
        i += 1;
    }
    proof { assert(tail.subrange(0, links@.len() as int) =~= tail); }
    out
}

// ---------------------------------------------------------------------------
// Attachments and the asset list.
// ---------------------------------------------------------------------------

/// The fields of one attachment record.
#[derive(Debug, Clone)]
pub struct AttachmentFields {
    pub url: JsonField,
    pub download_url: JsonField,
    pub name: JsonField,
}

/// An attachment as an asset: its URL (`url`, or `download_url` when `url` is
/// absent) must be a non-empty string; its name, or the URL's last segment.
pub open spec fn attachment_asset(a: AttachmentFields) -> Option<(Seq<char>, Seq<char>)> {
    let f = match a.url {
        JsonField::Absent => a.download_url,
        other => other,
    };
    match field_str(f) {
        Some(u) => if u.len() > 0 {
            let n = match field_str(a.name) {
                Some(x) => if x.len() > 0 { x } else { basename(u) },
                None => basename(u),
            };
            Some((n, u))
        } else {
            None
        },
        None => None,
    }
}

/// The assets of a task's attachments, in order.
pub open spec fn attachment_assets(v: Seq<AttachmentFields>) -> Seq<(Seq<char>, Seq<char>)>
    decreases v.len(),
{
    if v.len() == 0 {
        Seq::empty()
    } else {
        attachment_assets(v.drop_last()) + match attachment_asset(v.last()) {
            Some(x) => seq![x],
            None => Seq::empty(),
        }
    }
}

fn assets_from_attachments(atts: &Vec<AttachmentFields>) -> (r: Vec<Asset>)
    ensures
        assets_view(r@) == attachment_assets(atts@),
{
    let mut out: Vec<Asset> = Vec::new();
    let mut i: usize = 0;
    while i < atts.len()
        invariant
            i <= atts@.len(),
            assets_view(out@) == attachment_assets(atts@.subrange(0, i as int)),
        decreases atts.len() - i,
    {
        let a = &atts[i];
        let f = match &a.url {
            JsonField::Absent => &a.download_url,
            other => other,
        };
        let ghost before = assets_view(out@);
        proof {
            let sub = atts@.subrange(0, i + 1);
            assert(sub.drop_last() =~= atts@.subrange(0, i as int));
            assert(sub.last() == atts@[i as int]);
        }
        match as_text(f) {
            Some(u) => {
                if !u.as_str().is_empty() {
                    let name = match as_text(&a.name) {
                        Some(x) => if x.as_str().is_empty() { url_basename(u.as_str()) } else { x },
                        None => url_basename(u.as_str()),
                    };
                    out.push(Asset { name, url: u });
                    proof { assert(assets_view(out@) =~= before.push(attachment_asset(atts@[i as int])->0)); }
                }
            },
            None => {},
        }
        i += 1;
    }
    proof { assert(atts@.subrange(0, atts@.len() as int) =~= atts@); }
    out
}

/// `v` without the entries whose URL an earlier entry (or `seen`) has.
pub open spec fn dedup_urls(seen: Seq<Seq<char>>, v: Seq<(Seq<char>, Seq<char>)>) -> Seq<(Seq<char>, Seq<char>)>
    decreases v.len(),
{
    if v.len() == 0 {
        Seq::empty()
    } else {
        let x = v[0];
        if seen.contains(x.1) {
            dedup_urls(seen, v.drop_first())
        } else {
            seq![x] + dedup_urls(seen.push(x.1), v.drop_first())
        }
    }
}

/// The HTML assets of each comment, in order.
pub open spec fn comments_assets(cs: Seq<CommentFields>, images_only: bool) -> Seq<(Seq<char>, Seq<char>)>
    decreases cs.len(),
{
    if cs.len() == 0 {
        Seq::empty()
    } else {
        let h = str_or_empty(cs.last().body);
        comments_assets(cs.drop_last(), images_only) + if images_only { image_assets(h) } else { html_assets(h) }
    }
}

/// All assets of a task: those of its body, of each comment, then its
/// attachments; the first entry for each URL kept.
pub open spec fn task_assets(task: TaskFields, comments: Seq<CommentFields>, images_only: bool) -> Seq<(Seq<char>, Seq<char>)> {
    let body = str_or_empty(task.body);
    let atts = match task.attachments {
        Some(v) => attachment_assets(v@),
        None => Seq::empty(),
    };
    dedup_urls(
        Seq::empty(),
        (if images_only { image_assets(body) } else { html_assets(body) }) + comments_assets(comments, images_only) + atts,
    )
}

/// Every asset entry of a task before duplicates are dropped: those of its
/// body, of each comment, then its attachments.
pub open spec fn asset_listing(task: TaskFields, comments: Seq<CommentFields>, images_only: bool) -> Seq<(Seq<char>, Seq<char>)> {
    let body = str_or_empty(task.body);
    let atts = match task.attachments {
        Some(v) => attachment_assets(v@),
        None => Seq::empty(),
    };
    (if images_only { image_assets(body) } else { html_assets(body) }) + comments_assets(comments, images_only) + atts
}

fn contains_url(seen: &Vec<String>, u: &str) -> (r: bool)
    ensures
        r == crate::textutil::strs(seen@).contains(u@),
{
    let mut i: usize = 0;
    while i < seen.len()
        invariant
            i <= seen@.len(),
            forall|k: int| 0 <= k < i ==> seen@[k]@ != u@,
        decreases seen.len() - i,
    {
        if crate::textutil::str_eq(seen[i].as_str(), u) {
            proof { assert(crate::textutil::strs(seen@)[i as int] == u@); }
            return true;
        }
        i += 1;
    }
    proof {
        assert forall|k: int| 0 <= k < seen@.len() implies crate::textutil::strs(seen@)[k] != u@ by {
            assert(crate::textutil::strs(seen@)[k] == seen@[k]@);
        }
    }
    false
}

/// Appends the assets of `more` whose URL is not yet seen.
fn add_unique(out: &mut Vec<Asset>, seen: &mut Vec<String>, more: Vec<Asset>)
    ensures
        assets_view(final(out)@) == assets_view(old(out)@) + dedup_urls(crate::textutil::strs(old(seen)@), assets_view(more@)),
        crate::textutil::strs(final(seen)@) == crate::textutil::strs(old(seen)@) + dedup_urls(crate::textutil::strs(old(seen)@), assets_view(more@)).map_values(|x: (Seq<char>, Seq<char>)| x.1),
{
    let ghost mv = assets_view(more@);
    let ghost s0 = crate::textutil::strs(seen@);
    let ghost o0 = assets_view(out@);
    let mut i: usize = 0;
    proof {
        assert(mv.skip(0) =~= mv);
        assert(o0 + Seq::<(Seq<char>, Seq<char>)>::empty() =~= o0);
        assert(s0 + Seq::<Seq<char>>::empty() =~= s0);
    }
    let ghost mut added: Seq<(Seq<char>, Seq<char>)> = Seq::empty();
    while i < more.len()
        invariant
            i <= more@.len(),
            mv == assets_view(more@),
            assets_view(out@) == o0 + added,
            crate::textutil::strs(seen@) == s0 + added.map_values(|x: (Seq<char>, Seq<char>)| x.1),
            added + dedup_urls(crate::textutil::strs(seen@), mv.skip(i as int)) == dedup_urls(s0, mv),
        decreases more.len() - i,
    {
        let a = &more[i];
        let ghost rest = mv.skip(i as int);
        proof {
            assert(rest[0] == (a.name@, a.url@));
            assert(rest.drop_first() =~= mv.skip(i + 1));
        }
        if !contains_url(seen, a.url.as_str()) {
            let c = a.copy();
            let u = a.url.clone();
            let ghost ob = assets_view(out@);
            let ghost sb = crate::textutil::strs(seen@);
            out.push(c);
            seen.push(u);
            proof {
                assert(assets_view(out@) =~= ob.push(rest[0]));
                assert(crate::textutil::strs(seen@) =~= sb.push(a.url@));
                added = added.push(rest[0]);
                assert(added.map_values(|x: (Seq<char>, Seq<char>)| x.1) =~= (added.drop_last()).map_values(|x: (Seq<char>, Seq<char>)| x.1).push(a.url@));
                assert(added + dedup_urls(crate::textutil::strs(seen@), mv.skip(i + 1)) =~= added.drop_last() + (seq![rest[0]] + dedup_urls(sb.push(a.url@), mv.skip(i + 1))));
            }
        }
        i += 1;
    }
    proof {
        assert(mv.skip(more@.len() as int) =~= Seq::<(Seq<char>, Seq<char>)>::empty());
        assert(added + Seq::<(Seq<char>, Seq<char>)>::empty() =~= added);
    }
}

proof fn lemma_dedup_concat(seen: Seq<Seq<char>>, a: Seq<(Seq<char>, Seq<char>)>, b: Seq<(Seq<char>, Seq<char>)>)
    ensures
        dedup_urls(seen, a + b) == dedup_urls(seen, a) + dedup_urls(
            seen + dedup_urls(seen, a).map_values(|x: (Seq<char>, Seq<char>)| x.1),
            b,
        ),
    decreases a.len(),
{
    if a.len() == 0 {
        assert(a + b =~= b);
        assert(seen + Seq::<(Seq<char>, Seq<char>)>::empty().map_values(|x: (Seq<char>, Seq<char>)| x.1) =~= seen);
    } else {
        let x = a[0];
        assert((a + b).drop_first() =~= a.drop_first() + b);
        assert((a + b)[0] == x);
        if seen.contains(x.1) {
            lemma_dedup_concat(seen, a.drop_first(), b);
        } else {
            lemma_dedup_concat(seen.push(x.1), a.drop_first(), b);
            let d = dedup_urls(seen.push(x.1), a.drop_first());
            assert((seq![x] + d).map_values(|y: (Seq<char>, Seq<char>)| y.1) =~= seq![x.1] + d.map_values(|y: (Seq<char>, Seq<char>)| y.1));
            assert(seen + (seq![x.1] + d.map_values(|y: (Seq<char>, Seq<char>)| y.1)) =~= seen.push(x.1) + d.map_values(|y: (Seq<char>, Seq<char>)| y.1));
        }
    }
}

fn collect_assets(task: &TaskFields, comments: &[CommentFields], images_only: bool) -> (r: Vec<Asset>)
    ensures
        assets_view(r@) == task_assets(*task, comments@, images_only),
{
    let mut out: Vec<Asset> = Vec::new();
    let mut seen: Vec<String> = Vec::new();
    let body = text_or_empty(&task.body);
    let first = if images_only { image_assets_from_html(body.as_str()) } else { assets_from_html(body.as_str()) };
    let ghost a0 = assets_view(first@);
    add_unique(&mut out, &mut seen, first);
    proof {
        assert(crate::textutil::strs(Seq::<String>::empty()) =~= Seq::<Seq<char>>::empty());
        assert(assets_view(Seq::<Asset>::empty()) =~= Seq::<(Seq<char>, Seq<char>)>::empty());
    }
    let ghost mut all = a0;
    proof {
        assert(assets_view(out@) =~= dedup_urls(Seq::empty(), all));
        assert(crate::textutil::strs(seen@) =~= dedup_urls(Seq::empty(), all).map_values(|x: (Seq<char>, Seq<char>)| x.1));
        assert(comments_assets(comments@.subrange(0, 0), images_only) =~= Seq::<(Seq<char>, Seq<char>)>::empty());
        assert(all =~= a0 + comments_assets(comments@.subrange(0, 0), images_only));
    }
    let mut i: usize = 0;
    while i < comments.len()
        invariant
            i <= comments@.len(),
            all == a0 + comments_assets(comments@.subrange(0, i as int), images_only),
            assets_view(out@) == dedup_urls(Seq::empty(), all),
            crate::textutil::strs(seen@) == dedup_urls(Seq::empty(), all).map_values(|x: (Seq<char>, Seq<char>)| x.1),
        decreases comments.len() - i,
    {
        let h = text_or_empty(&comments[i].body);
        let more = if images_only { image_assets_from_html(h.as_str()) } else { assets_from_html(h.as_str()) };
        let ghost mv = assets_view(more@);
        let ghost s_before = crate::textutil::strs(seen@);
        add_unique(&mut out, &mut seen, more);
        proof {
            lemma_dedup_concat(Seq::empty(), all, mv);
            assert(Seq::<Seq<char>>::empty() + dedup_urls(Seq::empty(), all).map_values(|x: (Seq<char>, Seq<char>)| x.1)
                =~= s_before);
            let sub = comments@.subrange(0, i + 1);
            assert(sub.drop_last() =~= comments@.subrange(0, i as int));
            assert(sub.last() == comments@[i as int]);
            assert(all + mv =~= a0 + comments_assets(sub, images_only));
            assert(dedup_urls(Seq::empty(), all + mv).map_values(|x: (Seq<char>, Seq<char>)| x.1)
                =~= s_before + dedup_urls(s_before, mv).map_values(|x: (Seq<char>, Seq<char>)| x.1));
            all = all + mv;
        }
        i += 1;
    }
    proof { assert(comments@.subrange(0, comments@.len() as int) =~= comments@); }
    match &task.attachments {
        Some(atts) => {
            let more = assets_from_attachments(atts);
            let ghost mv = assets_view(more@);
            let ghost s_before = crate::textutil::strs(seen@);
            add_unique(&mut out, &mut seen, more);
            proof {
                lemma_dedup_concat(Seq::empty(), all, mv);
                assert(Seq::<Seq<char>>::empty() + dedup_urls(Seq::empty(), all).map_values(|x: (Seq<char>, Seq<char>)| x.1)
                    =~= s_before);
            }
        },
        None => {
            proof { assert(all + Seq::<(Seq<char>, Seq<char>)>::empty() =~= all); }
        },
    }
    out
}

/// Every asset of a task (images, links and attachments of the task and its
/// comments), the first entry for each URL kept.
pub fn extract_assets(task: &TaskFields, comments: &[CommentFields]) -> (r: Vec<Asset>)
    ensures
        assets_view(r@) == task_assets(*task, comments@, false),
{
    collect_assets(task, comments, false)
}

/// The assets worth downloading as files: attachments and inline images, never
/// links; the first entry for each URL kept.
pub fn downloadable_assets(task: &TaskFields, comments: &[CommentFields]) -> (r: Vec<Asset>)
    ensures
        assets_view(r@) == task_assets(*task, comments@, true),
{
    collect_assets(task, comments, true)
}

/// The extracted assets never repeat a URL.
pub proof fn law_assets_unique(task: TaskFields, comments: Seq<CommentFields>, images_only: bool)
    ensures
        ({
            let r = task_assets(task, comments, images_only);
            forall|i: int, j: int| 0 <= i < j < r.len() ==> r[i].1 != r[j].1
        }),
{
    let body = str_or_empty(task.body);
    let atts = match task.attachments {
        Some(v) => attachment_assets(v@),
        None => Seq::empty(),
    };
    let all = (if images_only { image_assets(body) } else { html_assets(body) }) + comments_assets(comments, images_only) + atts;
    lemma_dedup_unique(Seq::empty(), all);
}

proof fn lemma_dedup_unique(seen: Seq<Seq<char>>, v: Seq<(Seq<char>, Seq<char>)>)
    ensures
        ({
            let r = dedup_urls(seen, v);
            &&& forall|i: int, j: int| 0 <= i < j < r.len() ==> r[i].1 != r[j].1
            &&& forall|i: int| 0 <= i < r.len() ==> !seen.contains(#[trigger] r[i].1)
        }),
    decreases v.len(),
{
    if v.len() > 0 {
        let x = v[0];
        if seen.contains(x.1) {
            lemma_dedup_unique(seen, v.drop_first());
            assert(dedup_urls(seen, v) == dedup_urls(seen, v.drop_first()));
        } else {
            let s2 = seen.push(x.1);
            lemma_dedup_unique(s2, v.drop_first());
            let d = dedup_urls(s2, v.drop_first());
            let r = seq![x] + d;
            assert(dedup_urls(seen, v) == r);
            assert(s2[seen.len() as int] == x.1);
            assert(s2.contains(x.1));
            assert forall|i: int| 0 <= i < r.len() implies !seen.contains(#[trigger] r[i].1) by {
                if i > 0 {
                    assert(r[i] == d[i - 1]);
                    assert(!s2.contains(d[i - 1].1));
                    if seen.contains(d[i - 1].1) {
                        let k = choose|k: int| 0 <= k < seen.len() && seen[k] == d[i - 1].1;
                        assert(s2[k] == seen[k]);
                        assert(s2.contains(d[i - 1].1));
                    }
                }
            }
            assert forall|i: int, j: int| 0 <= i < j < r.len() implies r[i].1 != r[j].1 by {
                if i == 0 {
                    assert(r[j] == d[j - 1]);
                    assert(!s2.contains(d[j - 1].1));
                } else {
                    assert(r[i] == d[i - 1] && r[j] == d[j - 1]);
                }
            }
        }
    }
}

/// Entry `k` of `v` is the first with its URL.
pub open spec fn first_of_url(v: Seq<(Seq<char>, Seq<char>)>, k: int) -> bool {
    forall|j: int| 0 <= j < k ==> (#[trigger] v[j]).1 != v[k].1
}

proof fn lemma_first_of_url_shift(v: Seq<(Seq<char>, Seq<char>)>, k1: int)
    requires
        v.len() > 0,
        0 <= k1 < v.len() - 1,
        first_of_url(v.drop_first(), k1),
        v[0].1 != v[k1 + 1].1,
    ensures
        first_of_url(v, k1 + 1),
{
    let v1 = v.drop_first();
    assert forall|j: int| 0 <= j < k1 + 1 implies (#[trigger] v[j]).1 != v[k1 + 1].1 by {
        if j > 0 {
            assert(v[j] == v1[j - 1]);
        }
    }
    assert(v[k1 + 1] == v1[k1]);
}

#[verifier::rlimit(40)]
proof fn lemma_dedup_first(seen: Seq<Seq<char>>, v: Seq<(Seq<char>, Seq<char>)>)
    ensures
        forall|i: int| 0 <= i < dedup_urls(seen, v).len() ==> exists|k: int| 0 <= k < v.len()
            && v[k] == #[trigger] dedup_urls(seen, v)[i] && !seen.contains(v[k].1) && first_of_url(v, k),
    decreases v.len(),
{
    if v.len() > 0 {
        let x = v[0];
        let v1 = v.drop_first();
        if seen.contains(x.1) {
            lemma_dedup_first(seen, v1);
            let r = dedup_urls(seen, v1);
            assert(dedup_urls(seen, v) == r);
            assert forall|i: int| 0 <= i < r.len() implies exists|k: int| 0 <= k < v.len()
                && v[k] == #[trigger] r[i] && !seen.contains(v[k].1) && first_of_url(v, k) by {
                let k1 = choose|k1: int| 0 <= k1 < v1.len() && v1[k1] == r[i] && !seen.contains(v1[k1].1) && first_of_url(v1, k1);
                assert(v[k1 + 1] == v1[k1]);
                lemma_first_of_url_shift(v, k1);
            }
        } else {
            let s2 = seen.push(x.1);
            lemma_dedup_first(s2, v1);
            let d = dedup_urls(s2, v1);
            let r = seq![x] + d;
            assert(dedup_urls(seen, v) == r);
            assert(s2.contains(x.1)) by { assert(s2[seen.len() as int] == x.1); }
            assert forall|i: int| 0 <= i < r.len() implies exists|k: int| 0 <= k < v.len()
                && v[k] == #[trigger] r[i] && !seen.contains(v[k].1) && first_of_url(v, k) by {
                if i == 0 {
                    assert(v[0] == r[0]);
                    assert(first_of_url(v, 0));
                } else {
                    assert(r[i] == d[i - 1]);
                    let k1 = choose|k1: int| 0 <= k1 < v1.len() && v1[k1] == d[i - 1] && !s2.contains(v1[k1].1) && first_of_url(v1, k1);
                    assert(v[k1 + 1] == v1[k1]);
                    assert(v1[k1].1 != x.1);
                    if seen.contains(v1[k1].1) {
                        let w = choose|w: int| 0 <= w < seen.len() && seen[w] == v1[k1].1;
                        assert(s2[w] == seen[w]);
                    }
                    lemma_first_of_url_shift(v, k1);
                }
            }
        }
    }
}

#[verifier::rlimit(40)]
proof fn lemma_dedup_covers(seen: Seq<Seq<char>>, v: Seq<(Seq<char>, Seq<char>)>)
    ensures
        forall|k: int| 0 <= k < v.len() ==> seen.contains((#[trigger] v[k]).1)
            || exists|i: int| 0 <= i < dedup_urls(seen, v).len() && dedup_urls(seen, v)[i].1 == v[k].1,
    decreases v.len(),
{
    if v.len() > 0 {
        let x = v[0];
        let v1 = v.drop_first();
        if seen.contains(x.1) {
            lemma_dedup_covers(seen, v1);
            let r = dedup_urls(seen, v1);
            assert(dedup_urls(seen, v) == r);
            assert forall|k: int| 0 <= k < v.len() implies seen.contains((#[trigger] v[k]).1)
                || exists|i: int| 0 <= i < r.len() && r[i].1 == v[k].1 by {
                if k > 0 {
                    assert(v[k] == v1[k - 1]);
                }
            }
        } else {
            let s2 = seen.push(x.1);
            lemma_dedup_covers(s2, v1);
            let d = dedup_urls(s2, v1);
            let r = seq![x] + d;
            assert(dedup_urls(seen, v) == r);
            assert forall|k: int| 0 <= k < v.len() implies seen.contains((#[trigger] v[k]).1)
                || exists|i: int| 0 <= i < r.len() && r[i].1 == v[k].1 by {
                if k == 0 {
                    assert(r[0].1 == v[0].1);
                } else {
                    assert(v[k] == v1[k - 1]);
                    if s2.contains(v1[k - 1].1) {
                        let w = choose|w: int| 0 <= w < s2.len() && s2[w] == v1[k - 1].1;
                        if w < seen.len() {
                            assert(seen[w] == s2[w]);
                        } else {
                            assert(r[0].1 == v[k].1);
                        }
                    } else {
                        let i1 = choose|i1: int| 0 <= i1 < d.len() && d[i1].1 == v1[k - 1].1;
                        assert(r[i1 + 1] == d[i1]);
                    }
                }
            }
        }
    }
}

/// The assets keep the first entry of each URL, in the listing's order: every
/// URL of the listing is among the assets, and each asset is the first entry
/// of the listing with its URL.
pub proof fn law_assets_first_occurrence(task: TaskFields, comments: Seq<CommentFields>, images_only: bool)
    ensures
        ({
            let all = asset_listing(task, comments, images_only);
            let r = task_assets(task, comments, images_only);
            &&& forall|k: int| 0 <= k < all.len() ==> exists|i: int| 0 <= i < r.len() && r[i].1 == (#[trigger] all[k]).1
            &&& forall|i: int| 0 <= i < r.len() ==> exists|k: int| 0 <= k < all.len()
                && all[k] == #[trigger] r[i] && first_of_url(all, k)
        }),
{
    let all = asset_listing(task, comments, images_only);
    assert(task_assets(task, comments, images_only) == dedup_urls(Seq::empty(), all));
    lemma_dedup_first(Seq::empty(), all);
    lemma_dedup_covers(Seq::empty(), all);
}

proof fn lemma_attachment_assets_concat(a: Seq<AttachmentFields>, b: Seq<AttachmentFields>)
    ensures
        attachment_assets(a + b) == attachment_assets(a) + attachment_assets(b),
    decreases b.len(),
{
    if b.len() == 0 {
        assert(a + b =~= a);
        assert(attachment_assets(a) + attachment_assets(b) =~= attachment_assets(a));
    } else {
        lemma_attachment_assets_concat(a, b.drop_last());
        assert((a + b).drop_last() =~= a + b.drop_last());
        assert((a + b).last() == b.last());
        let x = match attachment_asset(b.last()) { Some(x) => seq![x], None => Seq::empty() };
        assert(attachment_assets(a) + (attachment_assets(b.drop_last()) + x) =~= (attachment_assets(a) + attachment_assets(b.drop_last())) + x);
    }
}

/// An attachment with a URL `u` and a non-empty name `n` is listed under its
/// own name: its entry is `(n, u)`, whatever the URL's last segment is.
pub proof fn law_attachment_keeps_its_name(v: Seq<AttachmentFields>, k: int, u: Seq<char>, n: Seq<char>)
    requires
        0 <= k < v.len(),
        field_str(v[k].url) == Some(u),
        u.len() > 0,
        field_str(v[k].name) == Some(n),
        n.len() > 0,
    ensures
        attachment_assets(v) == attachment_assets(v.subrange(0, k)) + seq![(n, u)] + attachment_assets(v.subrange(k + 1, v.len() as int)),
{
    let a = v.subrange(0, k);
    let b = v.subrange(k + 1, v.len() as int);
    assert(v =~= a + seq![v[k]] + b);
    lemma_attachment_assets_concat(a + seq![v[k]], b);
    lemma_attachment_assets_concat(a, seq![v[k]]);
    let one = seq![v[k]];
    assert(one.drop_last() =~= Seq::<AttachmentFields>::empty());
    assert(one.last() == v[k]);
    assert(v[k].url !is Absent);
    assert(attachment_asset(v[k]) == Some((n, u)));
    assert(attachment_assets(Seq::<AttachmentFields>::empty()) =~= Seq::<(Seq<char>, Seq<char>)>::empty());
    assert(attachment_assets(one) =~= seq![(n, u)]);
}

proof fn lemma_listing_split(task: TaskFields, comments: Seq<CommentFields>, k: int, u: Seq<char>, n: Seq<char>)
    requires
        task.attachments matches Some(v) && 0 <= k < v@.len() && field_str(v@[k].url) == Some(u) && field_str(v@[k].name) == Some(n),
        u.len() > 0,
        n.len() > 0,
    ensures
        ({
            let v = task.attachments->0@;
            let pre = html_assets(str_or_empty(task.body)) + comments_assets(comments, false) + attachment_assets(v.subrange(0, k));
            asset_listing(task, comments, false) == pre + seq![(n, u)] + attachment_assets(v.subrange(k + 1, v.len() as int))
        }),
{
    let v = task.attachments->0@;
    law_attachment_keeps_its_name(v, k, u, n);
    let h = html_assets(str_or_empty(task.body));
    let c = comments_assets(comments, false);
    let t = attachment_assets(v.subrange(0, k));
    let post = attachment_assets(v.subrange(k + 1, v.len() as int));
    assert(asset_listing(task, comments, false) == h + c + attachment_assets(v));
    assert(h + c + (t + seq![(n, u)] + post) =~= (h + c + t) + seq![(n, u)] + post);
}

proof fn lemma_pre_free(h: Seq<(Seq<char>, Seq<char>)>, c: Seq<(Seq<char>, Seq<char>)>, t: Seq<(Seq<char>, Seq<char>)>, u: Seq<char>)
    requires
        forall|j: int| 0 <= j < h.len() ==> (#[trigger] h[j]).1 != u,
        forall|j: int| 0 <= j < c.len() ==> (#[trigger] c[j]).1 != u,
        forall|j: int| 0 <= j < t.len() ==> (#[trigger] t[j]).1 != u,
    ensures
        forall|j: int| 0 <= j < (h + c + t).len() ==> (#[trigger] (h + c + t)[j]).1 != u,
{
    assert forall|j: int| 0 <= j < (h + c + t).len() implies (#[trigger] (h + c + t)[j]).1 != u by {
        if j < h.len() {
            assert((h + c + t)[j] == h[j]);
        } else if j < h.len() + c.len() {
            assert((h + c + t)[j] == c[j - h.len()]);
        } else {
            assert((h + c + t)[j] == t[j - h.len() - c.len()]);
        }
    }
}

/// The first entry of a URL is kept whole.
#[verifier::rlimit(40)]
proof fn lemma_first_entry_kept(all: Seq<(Seq<char>, Seq<char>)>, p: int)
    requires
        0 <= p < all.len(),
        forall|j: int| 0 <= j < p ==> (#[trigger] all[j]).1 != all[p].1,
    ensures
        dedup_urls(Seq::empty(), all).contains(all[p]),
{
    let r = dedup_urls(Seq::empty(), all);
    lemma_dedup_covers(Seq::empty(), all);
    assert(!Seq::<Seq<char>>::empty().contains(all[p].1));
    let i = choose|i: int| 0 <= i < r.len() && r[i].1 == all[p].1;
    lemma_dedup_first(Seq::empty(), all);
    assert(0 <= i < r.len());
    let q = choose|q: int| 0 <= q < all.len() && all[q] == r[i] && !Seq::<Seq<char>>::empty().contains(all[q].1) && first_of_url(all, q);
    assert(all[q].1 == all[p].1);
    if q > p {
        assert(first_of_url(all, q));
        assert(all[p].1 != all[q].1);
    } else if q < p {
        assert(all[q].1 != all[p].1);
    }
    assert(r[i] == all[p]);
}

/// The asset the task shows for such an attachment carries its own name, when
/// nothing listed before it (the body's and the comments' assets, the earlier
/// attachments) has its URL.
#[verifier::rlimit(40)]
pub proof fn law_attachment_asset_named(task: TaskFields, comments: Seq<CommentFields>, k: int, u: Seq<char>, n: Seq<char>)
    requires
        task.attachments matches Some(v) && 0 <= k < v@.len() && field_str(v@[k].url) == Some(u) && field_str(v@[k].name) == Some(n),
        u.len() > 0,
        n.len() > 0,
        forall|j: int| 0 <= j < html_assets(str_or_empty(task.body)).len() ==> (#[trigger] html_assets(str_or_empty(task.body))[j]).1 != u,
        forall|j: int| 0 <= j < comments_assets(comments, false).len() ==> (#[trigger] comments_assets(comments, false)[j]).1 != u,
        task.attachments matches Some(v) && forall|j: int| 0 <= j < attachment_assets(v@.subrange(0, k)).len()
            ==> (#[trigger] attachment_assets(v@.subrange(0, k))[j]).1 != u,
    ensures
        task_assets(task, comments, false).contains((n, u)),
{
    let v = task.attachments->0@;
    lemma_listing_split(task, comments, k, u, n);
    let h = html_assets(str_or_empty(task.body));
    let c = comments_assets(comments, false);
    let t = attachment_assets(v.subrange(0, k));
    let pre = h + c + t;
    lemma_pre_free(h, c, t, u);
    let all = asset_listing(task, comments, false);
    let p = pre.len() as int;
    assert(all[p] == (n, u));
    assert forall|j: int| 0 <= j < p implies (#[trigger] all[j]).1 != all[p].1 by {
        assert(all[j] == pre[j]);
    }
    lemma_first_entry_kept(all, p);
    assert(task_assets(task, comments, false) == dedup_urls(Seq::empty(), all));
}

} // verus!
