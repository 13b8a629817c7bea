//! The command builder: how a user's command line, working directory and
//! environment block become a process to spawn.
use vstd::prelude::*;
use vstd::string::*;
use crate::text::{chars_of, lines, split_lines, split_once, string_of, trim, trimmed, views};

verus! {

/// The family of command interpreter that launches a command.
#[derive(Debug, Clone, Copy, PartialEq, Eq, Structural)]
pub enum Platform {
    /// `cmd.exe /C`, with the console switched to UTF-8 first.
    Windows,
    /// `sh -c`.
    Unix,
}

/// A process ready to spawn: the interpreter, its arguments, where it runs
/// and the variables set for it, in order (a later one of the same name
/// wins). Its standard output and error are piped and its input closed.
pub struct LaunchSpec {
    pub program: String,
    pub args: Vec<String>,
    pub working_dir: Option<String>,
    pub env: Vec<(String, String)>,
    /// A diagnostic line to emit before the spawn, if any.
    pub notice: Option<String>,
}

pub open spec fn shell_program(platform: Platform) -> Seq<char> {
    match platform {
        Platform::Windows => "cmd.exe"@,
        Platform::Unix => "sh"@,
    }
}

pub open spec fn shell_args(platform: Platform, command: Seq<char>) -> Seq<Seq<char>> {
    match platform {
        Platform::Windows => seq!["/C"@, "chcp 65001 >nul && "@ + command],
        Platform::Unix => seq!["-c"@, command],
    }
}

/// The variables that force UTF-8 text in the child.
pub open spec fn utf8_defaults() -> Seq<(Seq<char>, Seq<char>)> {
    seq![("PYTHONIOENCODING"@, "utf-8"@), ("PYTHONUTF8"@, "1"@), ("CHCP"@, "65001"@)]
}

/// `s` cut at its first `c`.
pub open spec fn cut_at(s: Seq<char>, c: char) -> Option<(Seq<char>, Seq<char>)>
    decreases s.len(),
{
    if s.len() == 0 {
        None
    } else if s[0] == c {
        Some((Seq::empty(), s.drop_first()))
    } else {
        match cut_at(s.drop_first(), c) {
            Some(p) => Some((seq![s[0]] + p.0, p.1)),
            None => None,
        }
    }
}

/// The variable one line of an environment block sets: the trimmed text
/// before its first `=` and the trimmed text after it. Lines without `=`
/// set nothing.
pub open spec fn env_entry(line: Seq<char>) -> Option<(Seq<char>, Seq<char>)> {
    match cut_at(trimmed(line, false), '=') {
        Some(p) => Some((trimmed(p.0, false), trimmed(p.1, false))),
        None => None,
    }
}

/// The variables of the block's lines, in order.
pub open spec fn env_entries(ls: Seq<Seq<char>>) -> Seq<(Seq<char>, Seq<char>)>
    decreases ls.len(),
{
    if ls.len() == 0 {
        Seq::empty()
    } else {
        let t = env_entries(ls.drop_last());
        match env_entry(ls.last()) {
            Some(e) => t.push(e),
            None => t,
        }
    }
}

pub open spec fn pairs_view(v: Seq<(String, String)>) -> Seq<(Seq<char>, Seq<char>)> {
    v.map_values(|e: (String, String)| (e.0@, e.1@))
}

pub open spec fn strings_view(v: Seq<String>) -> Seq<Seq<char>> {
    v.map_values(|e: String| e@)
}

/// The directory the command runs in: an explicit one when given, else the
/// existing parent directory of the command's path when it is not empty,
/// else the one inherited.
pub open spec fn chosen_dir(explicit_dir: Seq<char>, existing_parent: Option<Seq<char>>) -> Option<
    Seq<char>,
> {
    if explicit_dir.len() > 0 {
        Some(explicit_dir)
    } else {
        match existing_parent {
            Some(p) => if p.len() > 0 {
                Some(p)
            } else {
                None
            },
            None => None,
        }
    }
}

proof fn lemma_cut_at(s: Seq<char>, c: char, a: Seq<char>, b: Seq<char>)
    requires
        s == a + seq![c] + b,
        !a.contains(c),
    ensures
        cut_at(s, c) == Some((a, b)),
    decreases a.len(),
{
    if a.len() == 0 {
        assert(s[0] == c);
        assert(s.drop_first() =~= b);
        assert(a =~= Seq::<char>::empty());
    } else {
        assert(s[0] == a[0]);
        assert(a[0] != c);
        let a1 = a.drop_first();
        assert(!a1.contains(c)) by {
            if a1.contains(c) {
                let k = choose|k: int| 0 <= k < a1.len() && a1[k] == c;
                assert(a[k + 1] == c);
            }
        }
        assert(s.drop_first() =~= a1 + seq![c] + b);
        lemma_cut_at(s.drop_first(), c, a1, b);
        assert(seq![s[0]] + a1 =~= a);
    }
}

proof fn lemma_cut_none(s: Seq<char>, c: char)
    requires
        !s.contains(c),
    ensures
        cut_at(s, c) is None,
    decreases s.len(),
{
    if s.len() > 0 {
        assert(s[0] != c);
        assert(!s.drop_first().contains(c)) by {
            if s.drop_first().contains(c) {
                let k = choose|k: int| 0 <= k < s.len() - 1 && s.drop_first()[k] == c;
                assert(s[k + 1] == c);
            }
        }
        lemma_cut_none(s.drop_first(), c);
    }
}

fn env_entry_of(line: &Vec<char>) -> (r: Option<(String, String)>)
    ensures
        match env_entry(line@) {
            Some(e) => r matches Some(x) && x.0@ == e.0 && x.1@ == e.1,
            None => r is None,
        },
{
    let t = trim(line, false);
    match split_once(&t, '=') {
        Some(p) => {
            proof {
                lemma_cut_at(t@, '=', p.0@, p.1@);
            }
            let k = trim(&p.0, false);
            let v = trim(&p.1, false);
            Some((string_of(&k), string_of(&v)))
        },
        None => {
            proof {
                lemma_cut_none(t@, '=');
            }
            None
        },
    }
}

/// The variables an environment block sets: one per line holding `=`,
/// name and value trimmed.
pub fn parse_env_block(block: &str) -> (r: Vec<(String, String)>)
    ensures
        pairs_view(r@) == env_entries(lines(block@)),
{
    let text = chars_of(block);
    let ls = split_lines(&text);
    let ghost lv = views(ls@);
    let mut r: Vec<(String, String)> = Vec::new();
    let mut i: usize = 0;
    assert(lv.subrange(0, 0) =~= Seq::<Seq<char>>::empty());
    assert(pairs_view(r@) =~= Seq::<(Seq<char>, Seq<char>)>::empty());
    while i < ls.len()
        invariant
            lv == views(ls@),
            lv == lines(block@),
            i <= ls@.len(),
            pairs_view(r@) == env_entries(lv.subrange(0, i as int)),
        decreases ls@.len() - i,
    {
        let ghost old_r = r@;
        assert(lv.subrange(0, i + 1).drop_last() =~= lv.subrange(0, i as int));
        assert(lv[i as int] == ls@[i as int]@);
        match env_entry_of(&ls[i]) {
            Some(e) => {
                let ghost ev = (e.0@, e.1@);
                r.push(e);
                assert(pairs_view(r@) =~= pairs_view(old_r).push(ev));
            },
            None => {},
        }
        i = i + 1;
    }
    assert(lv.subrange(0, i as int) =~= lv);
    r
}

/// The parent directory of a path, as `Path::parent` gives it.
pub uninterp spec fn parent_of(p: Seq<char>) -> Option<Seq<char>>;

/// Relies on std's `Path::parent`: the path without its final component,
/// or none for a root or an empty path.
#[verifier::external_body]
fn path_parent(p: &str) -> (r: Option<String>)
    ensures
        match r {
            Some(d) => parent_of(p@) == Some(d@),
            None => parent_of(p@) is None,
        },
{
    std::path::Path::new(p).parent().map(|d| d.to_string_lossy().into_owned())
}

/// The directory that would hold the command if the command line is a
/// path: its parent. The caller keeps it only if it exists.
pub fn command_parent(command: &str) -> (r: Option<String>)
    ensures
        match r {
            Some(d) => parent_of(command@) == Some(d@),
            None => parent_of(command@) is None,
        },
{
    path_parent(command)
}

/// Builds the process that runs `command` through the platform's command
/// interpreter. `existing_parent` is the command's parent directory when
/// it exists on disk; `env_block` holds `KEY=VALUE` lines, set after the
/// UTF-8 defaults so that they override them.
pub fn build_launch(
    platform: Platform,
    command: &str,
    explicit_dir: &str,
    existing_parent: Option<&str>,
    env_block: &str,
) -> (r: LaunchSpec)
    ensures
        r.program@ == shell_program(platform),
        strings_view(r.args@) == shell_args(platform, command@),
        match chosen_dir(
            explicit_dir@,
            match existing_parent {
                Some(p) => Some(p@),
                None => None,
            },
        ) {
            Some(d) => r.working_dir matches Some(w) && w@ == d,
            None => r.working_dir is None,
        },
        pairs_view(r.env@) == utf8_defaults() + env_entries(lines(env_block@)),
        explicit_dir@.len() > 0 ==> (r.notice matches Some(n) && n@ == "📁 Working dir: "@
            + explicit_dir@),
        explicit_dir@.len() == 0 ==> r.notice is None,
{
    let (program, args) = match platform {
        Platform::Windows => {
            let prefix = String::from_str("chcp 65001 >nul && ");
            let line = prefix.concat(command);
            (String::from_str("cmd.exe"), vec![String::from_str("/C"), line])
        },
        Platform::Unix => (String::from_str("sh"), vec![String::from_str("-c"), String::from_str(command)]),
    };
    proof {
        assert(strings_view(args@) =~= shell_args(platform, command@));
    }
    let mut working_dir: Option<String> = None;
    let mut notice: Option<String> = None;
    if !explicit_dir.is_empty() {
        working_dir = Some(String::from_str(explicit_dir));
        let s = String::from_str("📁 Working dir: ");
        notice = Some(s.concat(explicit_dir));
    } else {
        match existing_parent {
            Some(p) => {
                if !p.is_empty() {
                    working_dir = Some(String::from_str(p));
                }
            },
            None => {},
        }
    }
    let mut env: Vec<(String, String)> = Vec::new();
    env.push((String::from_str("PYTHONIOENCODING"), String::from_str("utf-8")));
    env.push((String::from_str("PYTHONUTF8"), String::from_str("1")));
    env.push((String::from_str("CHCP"), String::from_str("65001")));
    assert(pairs_view(env@) =~= utf8_defaults());
    let mut user = parse_env_block(env_block);
    let ghost uv = pairs_view(user@);
    env.append(&mut user);
    assert(pairs_view(env@) =~= utf8_defaults() + uv);
    LaunchSpec { program, args, working_dir, env, notice }
}

} // verus!
