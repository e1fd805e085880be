//! Command-line arguments and their routing before parsing: a bare task
//! reference becomes `get`, and an empty command line on a task branch becomes
//! `current`.

use vstd::prelude::*;
use crate::textutil::{ascii_digit, is_ascii_digit, chars_eq, strs};
use crate::unicode::{chars_of, string_of};

verus! {

/// The parsed command line.
#[derive(Debug)]
pub struct Cli {
    pub command: Option<Command>,
}

/// The subcommands.
#[derive(Debug)]
pub enum Command {
    /// Manage instance configuration.
    Setup(SetupOpts),
    /// Fetch and display a task.
    Get(GetArgs),
    /// Fetch the task of the current git branch.
    Current(DisplayArgs),
    /// List open tasks assigned to you (also `list`).
    Mine(MineArgs),
    /// Interactive browser for your tasks.
    Browse(BrowseArgs),
    /// Post a comment to a task.
    Comment(CommentArgs),
    /// Print an embedded agent skill.
    Skill(SkillArgs),
}

/// Holds the setup subcommand.
#[derive(Debug)]
pub struct SetupOpts {
    pub subcommand: SetupCmd,
}

/// The setup subcommands.
#[derive(Debug)]
pub enum SetupCmd {
    /// Register an instance.
    Add(SetupAddArgs),
    /// List configured instances (no tokens).
    List,
    /// Remove an instance.
    Remove(RemoveArgs),
    /// Test connectivity.
    Test(TestArgs),
    /// Show or set the display language.
    Language(LanguageArgs),
    /// Show or set the color theme.
    Theme(ThemeArgs),
}

#[derive(Debug)]
pub struct SetupAddArgs {
    pub name: Option<String>,
    pub url: Option<String>,
    pub email: Option<String>,
}

#[derive(Debug)]
pub struct RemoveArgs {
    pub name: String,
}

#[derive(Debug)]
pub struct TestArgs {
    pub name: Option<String>,
}

#[derive(Debug)]
pub struct LanguageArgs {
    pub code: Option<String>,
}

#[derive(Debug)]
pub struct ThemeArgs {
    pub code: Option<String>,
}

#[derive(Debug)]
pub struct GetArgs {
    pub ref_: String,
    pub display: DisplayArgs,
}

#[derive(Debug)]
pub struct DisplayArgs {
    pub instance: Option<String>,
    pub short: bool,
    pub no_comments: bool,
    pub json: bool,
    pub refresh: bool,
}

#[derive(Debug)]
pub struct MineArgs {
    pub instance: Option<String>,
    pub json: bool,
}

#[derive(Debug)]
pub struct BrowseArgs {
    pub instance: Option<String>,
    pub json: bool,
}

#[derive(Debug)]
pub struct CommentArgs {
    pub task_ref: Option<String>,
    pub message: Option<String>,
    pub json: bool,
    pub instance: Option<String>,
}

#[derive(Debug)]
pub struct SkillArgs {
    pub name: Option<String>,
}

/// The command names the parser knows.
pub open spec fn known_commands() -> Seq<Seq<char>> {
    seq![
        seq!['s', 'e', 't', 'u', 'p'],
        seq!['g', 'e', 't'],
        seq!['c', 'u', 'r', 'r', 'e', 'n', 't'],
        seq!['m', 'i', 'n', 'e'],
        seq!['l', 'i', 's', 't'],
        seq!['b', 'r', 'o', 'w', 's', 'e'],
        seq!['c', 'o', 'm', 'm', 'e', 'n', 't'],
        seq!['s', 'k', 'i', 'l', 'l'],
    ]
}

pub open spec fn get_word() -> Seq<char> {
    seq!['g', 'e', 't']
}

pub open spec fn current_word() -> Seq<char> {
    seq!['c', 'u', 'r', 'r', 'e', 'n', 't']
}

pub open spec fn all_digits(s: Seq<char>) -> bool {
    forall|i: int| 0 <= i < s.len() ==> ascii_digit(#[trigger] s[i])
}

/// `r` is `\d+-\d+`: digits, a dash, digits.
pub open spec fn digits_dash_digits(r: Seq<char>) -> bool {
    exists|d: int|
        #![trigger r[d]]
        0 < d < r.len() - 1 && r[d] == '-' && all_digits(r.take(d)) && all_digits(r.skip(d + 1))
}

pub open spec fn has_prefix(s: Seq<char>, p: Seq<char>) -> bool {
    s.len() >= p.len() && s.take(p.len() as int) == p
}

pub open spec fn feature_prefix() -> Seq<char> {
    seq!['f', 'e', 'a', 't', 'u', 'r', 'e', '/']
}

pub open spec fn hotfix_prefix() -> Seq<char> {
    seq!['h', 'o', 't', 'f', 'i', 'x', '/']
}

pub open spec fn fix_prefix() -> Seq<char> {
    seq!['f', 'i', 'x', '/']
}

/// A task branch: `feature/`, `hotfix/` or `fix/` followed by `<pid>-<tid>`.
pub open spec fn task_branch(b: Seq<char>) -> bool {
    ||| has_prefix(b, feature_prefix()) && digits_dash_digits(b.skip(8))
    ||| has_prefix(b, hotfix_prefix()) && digits_dash_digits(b.skip(7))
    ||| has_prefix(b, fix_prefix()) && digits_dash_digits(b.skip(4))
}

/// The command line after routing: a first argument that is neither a known
/// command nor a flag gets `get` put before it; an empty command line on a task
/// branch becomes `current`; anything else is unchanged.
pub open spec fn normalized_argv(argv: Seq<Seq<char>>, branch: Option<Seq<char>>) -> Seq<Seq<char>> {
    if argv.len() > 0 {
        let first = argv[0];
        if !(first.len() > 0 && first[0] == '-') && !known_commands().contains(first) {
            seq![get_word()] + argv
        } else {
            argv
        }
    } else {
        match branch {
            Some(b) => if task_branch(b) { seq![current_word()] } else { argv },
            None => argv,
        }
    }
}

/// Routing settles the command line: what it gives starts with a known command
/// or a flag (when not empty), keeps the given arguments as its tail, and is
/// left unchanged by routing it again.
pub proof fn law_argv_routing(argv: Seq<Seq<char>>, branch: Option<Seq<char>>)
    ensures
        normalized_argv(normalized_argv(argv, branch), branch) == normalized_argv(argv, branch),
        normalized_argv(argv, branch).len() > 0 ==> {
            let f = normalized_argv(argv, branch)[0];
            known_commands().contains(f) || (f.len() > 0 && f[0] == '-')
        },
        argv.len() > 0 ==> normalized_argv(argv, branch).len() >= argv.len()
            && normalized_argv(argv, branch).subrange(normalized_argv(argv, branch).len() - argv.len(), normalized_argv(argv, branch).len() as int) == argv,
{
    assert(known_commands()[1] == get_word());
    assert(known_commands()[2] == current_word());
    assert(known_commands().contains(get_word()));
    assert(known_commands().contains(current_word()));
    let r = normalized_argv(argv, branch);
    if argv.len() > 0 {
        let first = argv[0];
        if !(first.len() > 0 && first[0] == '-') && !known_commands().contains(first) {
            assert(r == seq![get_word()] + argv);
            assert(r[0] == get_word());
            assert(r.subrange(1, r.len() as int) =~= argv);
        } else {
            assert(r.subrange(0, r.len() as int) =~= argv);
        }
    } else {
        if r.len() > 0 {
            assert(r =~= seq![current_word()]);
        }
    }
}

fn word(cs: &[char]) -> (r: String)
    ensures
        r@ == cs@,
{
    string_of(cs)
}

fn is_known_command(s: &str) -> (r: bool)
    ensures
        r == known_commands().contains(s@),
{
    let c = chars_of(s);
    let names: Vec<Vec<char>> = vec![
        vec!['s', 'e', 't', 'u', 'p'],
        vec!['g', 'e', 't'],
        vec!['c', 'u', 'r', 'r', 'e', 'n', 't'],
        vec!['m', 'i', 'n', 'e'],
        vec!['l', 'i', 's', 't'],
        vec!['b', 'r', 'o', 'w', 's', 'e'],
        vec!['c', 'o', 'm', 'm', 'e', 'n', 't'],
        vec!['s', 'k', 'i', 'l', 'l'],
    ];
    let ghost want = known_commands();
    proof {
        assert(names@[0]@ =~= want[0]);
        assert(names@[1]@ =~= want[1]);
        assert(names@[2]@ =~= want[2]);
        assert(names@[3]@ =~= want[3]);
        assert(names@[4]@ =~= want[4]);
        assert(names@[5]@ =~= want[5]);
        assert(names@[6]@ =~= want[6]);
        assert(names@[7]@ =~= want[7]);
    }
    let mut i: usize = 0;
    while i < names.len()
        invariant
            names@.len() == 8,
            want == known_commands(),
            want.len() == 8,
            forall|k: int| 0 <= k < 8 ==> (#[trigger] names@[k])@ == want[k],
            c@ == s@,
            i <= 8,
            forall|k: int| 0 <= k < i ==> want[k] != s@,
        decreases 8 - i,
    {
        if chars_eq(&names[i], &c) {
            proof { assert(want[i as int] == s@); }
            return true;
        }
        i += 1;
    }
    proof {
        assert forall|k: int| 0 <= k < want.len() implies want[k] != s@ by {}
    }
    false
}

pub(crate) fn digits_between(cs: &Vec<char>, from: usize, to: usize) -> (r: bool)
    requires
        from <= to <= cs@.len(),
    ensures
        r == all_digits(cs@.subrange(from as int, to as int)),
{
    let mut i = from;
    while i < to
        invariant
            from <= i <= to <= cs@.len(),
            forall|k: int| from <= k < i ==> ascii_digit(#[trigger] cs@[k]),
        decreases to - i,
    {
        if !is_ascii_digit(cs[i]) {
            proof { assert(cs@.subrange(from as int, to as int)[i - from] == cs@[i as int]); }
            return false;
        }
        i += 1;
    }
    proof {
        assert forall|k: int| 0 <= k < to - from implies ascii_digit(#[trigger] cs@.subrange(from as int, to as int)[k]) by {
            assert(cs@.subrange(from as int, to as int)[k] == cs@[from + k]);
        }
    }
    true
}

/// `cs` from position `from` on is `\d+-\d+`.
fn digits_dash_digits_from(cs: &Vec<char>, from: usize) -> (r: bool)
    requires
        from <= cs@.len(),
    ensures
        r == digits_dash_digits(cs@.skip(from as int)),
{
    let n = cs.len();
    let mut d = from;
    while d < n && cs[d] != '-'
        invariant
            from <= d <= n,
            n == cs@.len(),
            forall|k: int| from <= k < d ==> cs@[k] != '-',
        decreases n - d,
    {
        d += 1;
    }
    let ghost r = cs@.skip(from as int);
    if d == n {
        proof {
            assert forall|e: int| 0 < e < r.len() - 1 && #[trigger] r[e] == '-' implies false by {
                assert(r[e] == cs@[from + e]);
            }
        }
        return false;
    }
    let left = digits_between(cs, from, d);
    let right = digits_between(cs, d + 1, n);
    let res = d > from && d + 1 < n && left && right;
    proof {
        let dd = d - from;
        assert(r[dd] == cs@[d as int]);
        assert(r.take(dd) =~= cs@.subrange(from as int, d as int));
        assert(r.skip(dd + 1) =~= cs@.subrange(d + 1, n as int));
        if !res {
            assert forall|e: int|
                0 < e < r.len() - 1 && #[trigger] r[e] == '-' && all_digits(r.take(e)) implies !all_digits(r.skip(e + 1)) by {
                assert(r[e] == cs@[from + e]);
                if e < dd {
                    assert(r.take(e)[e] == r[e]) by {}
                    assert(r[e] == cs@[from + e]);
                } else if e > dd {
                    assert(r.take(e)[dd] == r[dd]);
                    assert(!ascii_digit(r[dd]));
                } else {
                }
            }
        }
    }
    res
}

pub(crate) fn strip_prefix_len(cs: &Vec<char>, p: &Vec<char>) -> (r: bool)
    ensures
        r == has_prefix(cs@, p@),
{
    if cs.len() < p.len() {
        return false;
    }
    let mut i: usize = 0;
    while i < p.len()
        invariant
            p@.len() <= cs@.len(),
            i <= p@.len(),
            forall|k: int| 0 <= k < i ==> cs@[k] == p@[k],
        decreases p.len() - i,
    {
        if cs[i] != p[i] {
            proof { assert(cs@.take(p@.len() as int)[i as int] != p@[i as int]); }
            return false;
        }
        i += 1;
    }
    proof { assert(cs@.take(p@.len() as int) =~= p@); }
    true
}

/// Whether `branch` is `feature/`, `hotfix/` or `fix/` followed by `<pid>-<tid>`.
pub fn branch_matches_task_pattern(branch: &str) -> (r: bool)
    ensures
        r == task_branch(branch@),
{
    let cs = chars_of(branch);
    let feature: Vec<char> = vec!['f', 'e', 'a', 't', 'u', 'r', 'e', '/'];
    let hotfix: Vec<char> = vec!['h', 'o', 't', 'f', 'i', 'x', '/'];
    let fix: Vec<char> = vec!['f', 'i', 'x', '/'];
    proof {
        assert(feature@ =~= feature_prefix());
        assert(hotfix@ =~= hotfix_prefix());
        assert(fix@ =~= fix_prefix());
    }
    let ghost b = cs@;
    if strip_prefix_len(&cs, &feature) {
        proof {
            assert(!has_prefix(b, hotfix_prefix())) by { assert(b.take(7)[0] == b[0]); assert(b.take(8)[0] == b[0]); }
            assert(!has_prefix(b, fix_prefix())) by { assert(b.take(4)[1] == b[1]); assert(b.take(8)[1] == b[1]); }
        }
        digits_dash_digits_from(&cs, 8)
    } else if strip_prefix_len(&cs, &hotfix) {
        proof {
            assert(!has_prefix(b, fix_prefix())) by { assert(b.take(4)[0] == b[0]); assert(b.take(7)[0] == b[0]); }
        }
        digits_dash_digits_from(&cs, 7)
    } else if strip_prefix_len(&cs, &fix) {
        digits_dash_digits_from(&cs, 4)
    } else {
        false
    }
}

/// Routes the raw arguments: a first argument that is neither a known command
/// nor a flag gets `get` put in front; an empty argument list on a task branch
/// (`feature|hotfix|fix/<pid>-<tid>`) becomes `current`; all else is unchanged.
pub fn normalize_argv(argv: &[String], current_branch: Option<&str>) -> (r: Vec<String>)
    ensures
        strs(r@) == normalized_argv(strs(argv@), match current_branch {
            Some(b) => Some(b@),
            None => None,
        }),
{
    let mut out: Vec<String> = Vec::new();
    if argv.len() > 0 {
        let first = argv[0].as_str();
        let fc = chars_of(first);
        let is_flag = fc.len() > 0 && fc[0] == '-';
        if !is_flag && !is_known_command(first) {
            out.push(word(&['g', 'e', 't']));
        }
        let ghost pre = strs(out@);
        let mut i: usize = 0;
        while i < argv.len()
            invariant
                i <= argv@.len(),
                strs(out@) == pre + strs(argv@).subrange(0, i as int),
            decreases argv.len() - i,
        {
            let ghost before = strs(out@);
            let a = argv[i].clone();
            out.push(a);
            proof {
                assert(strs(out@) =~= before.push(argv@[i as int]@));
                assert(strs(argv@).subrange(0, i + 1) =~= strs(argv@).subrange(0, i as int).push(argv@[i as int]@));
                assert(strs(out@) =~= pre + strs(argv@).subrange(0, i + 1));
            }
            i += 1;
        }
        proof {
            assert(strs(argv@).subrange(0, argv@.len() as int) =~= strs(argv@));
            assert(strs(argv@)[0] == argv@[0]@);
            if !is_flag && !known_commands().contains(argv@[0]@) {
                assert(pre =~= seq![get_word()]);
            } else {
                assert(pre =~= Seq::<Seq<char>>::empty());
                assert(pre + strs(argv@) =~= strs(argv@));
            }
        }
        return out;
    }
    if let Some(b) = current_branch {
        if branch_matches_task_pattern(b) {
            out.push(word(&['c', 'u', 'r', 'r', 'e', 'n', 't']));
            proof { assert(strs(out@) =~= seq![current_word()]); }
            return out;
        }
    }
    proof { assert(strs(out@) =~= strs(argv@)); }
    out
}

/// What a bare invocation (no subcommand) does.
#[derive(Debug, PartialEq, Eq, Structural)]
pub enum BareNoCommandAction {
    /// Open the personal task view.
    RunMine,
    /// Print help and exit with status 2.
    HelpExit2,
}

/// In a terminal, a bare invocation opens the task view; in a pipe or script
/// it prints help, so scripts are unaffected.
pub fn bare_no_command_action(is_tty: bool) -> (r: BareNoCommandAction)
    ensures
        r == (if is_tty { BareNoCommandAction::RunMine } else { BareNoCommandAction::HelpExit2 }),
{
    if is_tty {
        BareNoCommandAction::RunMine
    } else {
        BareNoCommandAction::HelpExit2
    }
}

} // verus!
