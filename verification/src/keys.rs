//! Terminal input as the browsers understand it: which key or mouse event
//! becomes which message, and the lines the shell reports for asset actions.

use vstd::prelude::*;
use crate::app::{Msg, FlatMsg};
use crate::i18n::{I18n, t, translated};
use crate::resolve::{Instance, first_named};
use crate::textutil::str_eq;
use crate::unicode::push_str;

verus! {

/// A key as the terminal reports it.
#[derive(Debug, Clone, Copy, PartialEq, Eq, Structural)]
pub enum Key {
    Char(char),
    Esc,
    Up,
    Down,
    PageUp,
    PageDown,
    Enter,
    Other,
}

/// A mouse event as the terminal reports it; a button press carries its row.
#[derive(Debug, Clone, Copy, PartialEq, Eq, Structural)]
pub enum Mouse {
    ScrollUp,
    ScrollDown,
    Press(usize),
    Other,
}

/// The browse keys: `q` quits, Esc or `b` goes back, Ctrl+C quits, `r`
/// refreshes, the arrows (or `k`/`j`) and page keys move, Enter selects, `d`
/// arms a download, a digit opens that asset; anything else is ignored.
pub open spec fn browse_key(key: Key, ctrl: bool) -> Option<Msg> {
    match key {
        Key::Char(c) => if c == 'q' {
            Some(Msg::Quit)
        } else if c == 'b' {
            Some(Msg::Back)
        } else if c == 'c' && ctrl {
            Some(Msg::Quit)
        } else if c == 'r' {
            Some(Msg::Refresh)
        } else if c == 'd' {
            Some(Msg::TogglePendingDownload)
        } else if c == 'k' {
            Some(Msg::Up)
        } else if c == 'j' {
            Some(Msg::Down)
        } else if '0' <= c && c <= '9' {
            Some(Msg::AssetOpen(c))
        } else {
            None
        },
        Key::Esc => Some(Msg::Back),
        Key::Up => Some(Msg::Up),
        Key::Down => Some(Msg::Down),
        Key::PageUp => Some(Msg::PageUp),
        Key::PageDown => Some(Msg::PageDown),
        Key::Enter => Some(Msg::Select),
        Key::Other => None,
    }
}

/// The message a key gives in the browser (`ctrl`: Control was held).
pub fn map_browse_key_event(key: Key, ctrl: bool) -> (r: Option<Msg>)
    ensures
        r == browse_key(key, ctrl),
{
    match key {
        Key::Char(c) => {
            if c == 'q' {
                Some(Msg::Quit)
            } else if c == 'b' {
                Some(Msg::Back)
            } else if c == 'c' && ctrl {
                Some(Msg::Quit)
            } else if c == 'r' {
                Some(Msg::Refresh)
            } else if c == 'd' {
                Some(Msg::TogglePendingDownload)
            } else if c == 'k' {
                Some(Msg::Up)
            } else if c == 'j' {
                Some(Msg::Down)
            } else if '0' <= c && c <= '9' {
                Some(Msg::AssetOpen(c))
            } else {
                None
            }
        },
        Key::Esc => Some(Msg::Back),
        Key::Up => Some(Msg::Up),
        Key::Down => Some(Msg::Down),
        Key::PageUp => Some(Msg::PageUp),
        Key::PageDown => Some(Msg::PageDown),
        Key::Enter => Some(Msg::Select),
        Key::Other => None,
    }
}

/// The wheel scrolls and a button press clicks its row.
pub fn map_browse_mouse_event(mouse: Mouse) -> (r: Option<Msg>)
    ensures
        r == (match mouse {
            Mouse::ScrollUp => Some(Msg::ScrollUp),
            Mouse::ScrollDown => Some(Msg::ScrollDown),
            Mouse::Press(row) => Some(Msg::Click(row)),
            Mouse::Other => None::<Msg>,
        }),
{
    match mouse {
        Mouse::ScrollUp => Some(Msg::ScrollUp),
        Mouse::ScrollDown => Some(Msg::ScrollDown),
        Mouse::Press(row) => Some(Msg::Click(row)),
        Mouse::Other => None,
    }
}

/// The list keys: `q`, Esc or Ctrl+C quit; the arrows (or `k`/`j`) move.
pub fn map_flat_key_event(key: Key, ctrl: bool) -> (r: Option<FlatMsg>)
    ensures
        r == (match key {
            Key::Char(c) => if c == 'q' || (c == 'c' && ctrl) {
                Some(FlatMsg::Quit)
            } else if c == 'k' {
                Some(FlatMsg::Up)
            } else if c == 'j' {
                Some(FlatMsg::Down)
            } else {
                None
            },
            Key::Esc => Some(FlatMsg::Quit),
            Key::Up => Some(FlatMsg::Up),
            Key::Down => Some(FlatMsg::Down),
            _ => None::<FlatMsg>,
        }),
{
    match key {
        Key::Char(c) => if c == 'q' || (c == 'c' && ctrl) {
                Some(FlatMsg::Quit)
            } else if c == 'k' {
                Some(FlatMsg::Up)
            } else if c == 'j' {
                Some(FlatMsg::Down)
            } else {
                None
            },
        Key::Esc => Some(FlatMsg::Quit),
        Key::Up => Some(FlatMsg::Up),
        Key::Down => Some(FlatMsg::Down),
        _ => None,
    }
}

/// The wheel scrolls the list and a button press clicks its row.
pub fn map_flat_mouse_event(mouse: Mouse) -> (r: Option<FlatMsg>)
    ensures
        r == (match mouse {
            Mouse::ScrollUp => Some(FlatMsg::ScrollUp),
            Mouse::ScrollDown => Some(FlatMsg::ScrollDown),
            Mouse::Press(row) => Some(FlatMsg::Click(row)),
            Mouse::Other => None::<FlatMsg>,
        }),
{
    match mouse {
        Mouse::ScrollUp => Some(FlatMsg::ScrollUp),
        Mouse::ScrollDown => Some(FlatMsg::ScrollDown),
        Mouse::Press(row) => Some(FlatMsg::Click(row)),
        Mouse::Other => None,
    }
}

/// The configured instance a command names: the first with that name.
pub fn find_instance(targets: &[Instance], name: &str) -> (r: Option<usize>)
    ensures
        match r {
            Some(k) => first_named(targets@, name@) == Some(k as int),
            None => first_named(targets@, name@) is None,
        },
{
    let mut i: usize = 0;
    while i < targets.len()
        invariant
            i <= targets@.len(),
            first_named(targets@.subrange(0, i as int), name@) is None,
        decreases targets.len() - i,
    {
        proof {
            let sub = targets@.subrange(0, i + 1);
            assert(sub.drop_last() =~= targets@.subrange(0, i as int));
            assert(sub.last() == targets@[i as int]);
        }
        if str_eq(targets[i].name.as_str(), name) {
            proof { lemma_first_named_prefix(targets@, name@, i + 1); }
            return Some(i);
        }
        i += 1;
    }
    proof { assert(targets@.subrange(0, targets@.len() as int) =~= targets@); }
    None
}

proof fn lemma_first_named_prefix(v: Seq<Instance>, n: Seq<char>, k: int)
    requires
        0 <= k <= v.len(),
        first_named(v.subrange(0, k), n) is Some,
    ensures
        first_named(v, n) == first_named(v.subrange(0, k), n),
    decreases v.len() - k,
{
    if k < v.len() {
        assert(v.subrange(0, k + 1).drop_last() =~= v.subrange(0, k));
        lemma_first_named_prefix(v, n, k + 1);
    } else {
        assert(v.subrange(0, k) =~= v);
    }
}

/// What the shell reports after an asset action: the translated word, a
/// space, and the detail.
pub fn status_line(i18n: &I18n, word: &str, detail: &str) -> (r: String)
    ensures
        r@ == translated(i18n.language@, i18n.catalog.entries@, word@) + " "@ + detail@,
{
    let mut s = t(i18n, word);
    push_str(&mut s, " ");
    push_str(&mut s, detail);
    s
}

/// The first step of opening an asset: report an error, or start the system
/// opener on the URL.
#[derive(Debug, Clone)]
pub enum OpenerStep {
    Report(String),
    Start,
}

/// Before the system opener starts: no such instance, or a URL that is not
/// `http`/`https`, is reported instead.
pub fn opener_step(instance_found: bool, url: &str, i18n: &I18n) -> (r: OpenerStep)
    ensures
        !instance_found ==> (r matches OpenerStep::Report(m) && m@ == translated(i18n.language@, i18n.catalog.entries@, "Error: instance not found"@)),
        instance_found && crate::render::openable(url@) ==> r is Start,
        instance_found && !crate::render::openable(url@) ==> (r matches OpenerStep::Report(m)
            && m@ == translated(i18n.language@, i18n.catalog.entries@, "Error:"@) + " "@ + "non-http/https URL rejected: "@ + url@),
{
    if !instance_found {
        return OpenerStep::Report(t(i18n, "Error: instance not found"));
    }
    match crate::downloads::open_asset(url) {
        Ok(()) => OpenerStep::Start,
        Err(e) => OpenerStep::Report(status_line(i18n, "Error:", e.as_str())),
    }
}

/// What starting the opener reports: the URL handed over, or the error.
pub fn opener_result(started: Result<(), String>, url: &str, i18n: &I18n) -> (r: String)
    ensures
        match started {
            Ok(_) => r@ == translated(i18n.language@, i18n.catalog.entries@, "Downloaded:"@) + " "@ + url@,
            Err(e) => r@ == translated(i18n.language@, i18n.catalog.entries@, "Error:"@) + " "@ + e@,
        },
{
    match started {
        Ok(_) => status_line(i18n, "Downloaded:", url),
        Err(e) => status_line(i18n, "Error:", e.as_str()),
    }
}

} // verus!
