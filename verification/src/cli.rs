//! Shell completion installation: where completion scripts and startup
//! files live, and how a managed block is added to or removed from a startup
//! file.
//!
//! A managed block is the text between
//! `# >>> <name> <shell> completions >>>` and
//! `# <<< <name> <shell> completions <<<`. Adding it replaces an existing
//! block and keeps one blank line between the block and the text around it.

use vstd::prelude::*;
use crate::binding::{is_white_space, lemma_trim_end_take, lemma_trim_start_skip, trim_end, trim_start};
use crate::path::{join_path, spec_join};
use crate::text::{chars_of, decimal, decimal_text, push_char, string_of};

verus! {

/// The shells completions can be installed for.
#[derive(Clone, Copy, Debug, PartialEq, Eq, Structural)]
pub enum ShellKind {
    /// Bash.
    Bash,
    /// Elvish.
    Elvish,
    /// Fish.
    Fish,
    /// PowerShell.
    PowerShell,
    /// Zsh.
    Zsh,
}

/// The shell's name as the command line spells it.
pub open spec fn shell_name(shell: ShellKind) -> Seq<char> {
    match shell {
        ShellKind::Bash => "bash"@,
        ShellKind::Elvish => "elvish"@,
        ShellKind::Fish => "fish"@,
        ShellKind::PowerShell => "powershell"@,
        ShellKind::Zsh => "zsh"@,
    }
}

/// The completion script file name the shell's generator writes for a
/// binary.
pub open spec fn completion_file_name(shell: ShellKind, bin: Seq<char>) -> Seq<char> {
    match shell {
        ShellKind::Bash => bin + ".bash"@,
        ShellKind::Elvish => bin + ".elv"@,
        ShellKind::Fish => bin + ".fish"@,
        ShellKind::PowerShell => "_"@ + bin + ".ps1"@,
        ShellKind::Zsh => "_"@ + bin,
    }
}

impl ShellKind {
    /// Returns the shell's name as the command line spells it.
    pub fn name(&self) -> (r: String)
        ensures
            r@ == shell_name(*self),
    {
        match self {
            ShellKind::Bash => String::from_str("bash"),
            ShellKind::Elvish => String::from_str("elvish"),
            ShellKind::Fish => String::from_str("fish"),
            ShellKind::PowerShell => String::from_str("powershell"),
            ShellKind::Zsh => String::from_str("zsh"),
        }
    }

    /// Returns the completion script file name for a binary.
    pub fn file_name(&self, bin_name: &str) -> (r: String)
        ensures
            r@ == completion_file_name(*self, bin_name@),
    {
        match self {
            ShellKind::Bash => {
                let mut s = bin_name.to_owned();
                s.append(".bash");
                s
            },
            ShellKind::Elvish => {
                let mut s = bin_name.to_owned();
                s.append(".elv");
                s
            },
            ShellKind::Fish => {
                let mut s = bin_name.to_owned();
                s.append(".fish");
                s
            },
            ShellKind::PowerShell => {
                let mut s = String::from_str("_");
                s.append(bin_name);
                s.append(".ps1");
                s
            },
            ShellKind::Zsh => {
                let mut s = String::from_str("_");
                s.append(bin_name);
                s
            },
        }
    }
}

/// Where a shell's completion script and startup file live.
#[derive(Debug)]
pub struct ShellInstallTarget {
    /// The shell.
    pub shell: ShellKind,
    /// Directory that receives the completion script.
    pub completion_dir: String,
    /// Startup file that loads the script, when the shell needs one.
    pub rc_path: Option<String>,
}

/// The completion directory of a shell under a home directory.
pub open spec fn completion_dir_for(shell: ShellKind, home: Seq<char>) -> Seq<char> {
    match shell {
        ShellKind::Bash => spec_join(home, ".bash_completion.d"@),
        ShellKind::Elvish => spec_join(spec_join(spec_join(home, ".config"@), "elvish"@), "lib"@),
        ShellKind::Fish => spec_join(spec_join(spec_join(home, ".config"@), "fish"@), "completions"@),
        ShellKind::PowerShell => spec_join(spec_join(spec_join(home, "Documents"@), "PowerShell"@), "Completions"@),
        ShellKind::Zsh => spec_join(spec_join(home, ".zsh"@), "completions"@),
    }
}

/// The startup file of a shell under a home directory; fish needs none.
pub open spec fn rc_path_for(shell: ShellKind, home: Seq<char>) -> Option<Seq<char>> {
    match shell {
        ShellKind::Bash => Some(spec_join(home, ".bashrc"@)),
        ShellKind::Elvish => Some(spec_join(spec_join(spec_join(home, ".config"@), "elvish"@), "rc.elv"@)),
        ShellKind::Fish => None,
        ShellKind::PowerShell => Some(
            spec_join(spec_join(spec_join(home, "Documents"@), "PowerShell"@), "Microsoft.PowerShell_profile.ps1"@),
        ),
        ShellKind::Zsh => Some(spec_join(home, ".zshrc"@)),
    }
}

/// The startup-file lines that load a generated completion script.
pub open spec fn rc_block_text(shell: ShellKind, generated: Seq<char>, completion_dir: Seq<char>) -> Option<Seq<char>> {
    match shell {
        ShellKind::Bash => Some("[[ -r \""@ + generated + "\" ]] && source \""@ + generated + "\"\n"@),
        ShellKind::Elvish => Some("use "@ + generated + "\n"@),
        ShellKind::PowerShell => Some("if (Test-Path \""@ + generated + "\") { . \""@ + generated + "\" }\n"@),
        ShellKind::Zsh => Some(
            "typeset -U fpath\nfpath=(\""@ + completion_dir + "\" $fpath)\n\nautoload -Uz compinit\ncompinit\n"@,
        ),
        ShellKind::Fish => None,
    }
}

impl ShellInstallTarget {
    /// The install locations of a shell under a home directory.
    pub fn new(shell: ShellKind, home_dir: &str) -> (r: Self)
        ensures
            r.shell == shell,
            r.completion_dir@ == completion_dir_for(shell, home_dir@),
            match rc_path_for(shell, home_dir@) {
                Some(p) => r.rc_path is Some && r.rc_path->0@ == p,
                None => r.rc_path is None,
            },
            match startup_file_below_home(shell) {
                Some(c) => r.rc_path is Some && r.rc_path->0@ == path_below(home_dir@, c),
                None => r.rc_path is None,
            },
            r.completion_dir@ == path_below(home_dir@, completion_dir_below_home(shell)),
    {
        proof {
            lemma_install_locations(shell, home_dir@);
        }
        match shell {
            ShellKind::Bash => ShellInstallTarget {
                shell,
                completion_dir: join_path(home_dir, ".bash_completion.d"),
                rc_path: Some(join_path(home_dir, ".bashrc")),
            },
            ShellKind::Elvish => {
                let config = join_path(home_dir, ".config");
                let elvish = join_path(config.as_str(), "elvish");
                ShellInstallTarget {
                    shell,
                    completion_dir: join_path(elvish.as_str(), "lib"),
                    rc_path: Some(join_path(elvish.as_str(), "rc.elv")),
                }
            },
            ShellKind::Fish => {
                let config = join_path(home_dir, ".config");
                let fish = join_path(config.as_str(), "fish");
                ShellInstallTarget { shell, completion_dir: join_path(fish.as_str(), "completions"), rc_path: None }
            },
            ShellKind::PowerShell => {
                let docs = join_path(home_dir, "Documents");
                let ps = join_path(docs.as_str(), "PowerShell");
                ShellInstallTarget {
                    shell,
                    completion_dir: join_path(ps.as_str(), "Completions"),
                    rc_path: Some(join_path(ps.as_str(), "Microsoft.PowerShell_profile.ps1")),
                }
            },
            ShellKind::Zsh => {
                let zsh = join_path(home_dir, ".zsh");
                ShellInstallTarget {
                    shell,
                    completion_dir: join_path(zsh.as_str(), "completions"),
                    rc_path: Some(join_path(home_dir, ".zshrc")),
                }
            },
        }
    }

    /// The startup-file lines that load a generated completion script;
    /// `None` for fish, which loads completions by itself.
    pub fn rc_block_body(&self, generated_path: &str, completion_dir: &str) -> (r: Option<String>)
        ensures
            match rc_block_text(self.shell, generated_path@, completion_dir@) {
                Some(t) => r is Some && r->0@ == t,
                None => r is None,
            },
            self.shell != ShellKind::Zsh && self.shell != ShellKind::Fish ==> r is Some && occurs_in(
                r->0@,
                generated_path@,
            ),
            self.shell == ShellKind::Elvish ==> r is Some && r->0@ == seq!['u', 's', 'e', ' '] + generated_path@
                + seq!['\n'],
            self.shell == ShellKind::Zsh ==> r is Some && occurs_in(r->0@, completion_dir@),
    {
        proof {
            lemma_rc_block_loads_script(self.shell, generated_path@, completion_dir@, generated_path@, completion_dir@);
        }
        match self.shell {
            ShellKind::Bash => {
                let mut s = String::from_str("[[ -r \"");
                s.append(generated_path);
                s.append("\" ]] && source \"");
                s.append(generated_path);
                s.append("\"\n");
                Some(s)
            },
            ShellKind::Elvish => {
                let mut s = String::from_str("use ");
                s.append(generated_path);
                s.append("\n");
                Some(s)
            },
            ShellKind::PowerShell => {
                let mut s = String::from_str("if (Test-Path \"");
                s.append(generated_path);
                s.append("\") { . \"");
                s.append(generated_path);
                s.append("\" }\n");
                Some(s)
            },
            ShellKind::Zsh => {
                let mut s = String::from_str("typeset -U fpath\nfpath=(\"");
                s.append(completion_dir);
                s.append("\" $fpath)\n\nautoload -Uz compinit\ncompinit\n");
                Some(s)
            },
            ShellKind::Fish => None,
        }
    }

    /// The path of the completion script for a binary.
    pub fn completion_file_path(&self, bin_name: &str) -> (r: String)
        ensures
            r@ == spec_join(self.completion_dir@, completion_file_name(self.shell, bin_name@)),
    {
        let name = self.shell.file_name(bin_name);
        join_path(self.completion_dir.as_str(), name.as_str())
    }

    /// The name of the managed block: zsh shares one block among binaries,
    /// since it only adds the completion directory to `fpath`.
    pub fn managed_block_name(&self, bin_name: &str) -> (r: String)
        ensures
            r@ == (if self.shell == ShellKind::Zsh {
                "rust-config-tree"@
            } else {
                bin_name@
            }),
    {
        match self.shell {
            ShellKind::Zsh => String::from_str("rust-config-tree"),
            _ => bin_name.to_owned(),
        }
    }
}

/// The begin marker of a managed block.
pub open spec fn begin_marker(name: Seq<char>, shell: ShellKind) -> Seq<char> {
    "# >>> "@ + name + " "@ + shell_name(shell) + " completions >>>"@
}

/// The end marker of a managed block.
pub open spec fn end_marker(name: Seq<char>, shell: ShellKind) -> Seq<char> {
    "# <<< "@ + name + " "@ + shell_name(shell) + " completions <<<"@
}

/// Returns the begin and end markers of a managed block.
pub fn managed_block_markers(block_name: &str, shell: ShellKind) -> (r: (String, String))
    ensures
        r.0@ == begin_marker(block_name@, shell),
        r.1@ == end_marker(block_name@, shell),
{
    let name = shell.name();
    let mut begin = String::from_str("# >>> ");
    begin.append(block_name);
    begin.append(" ");
    begin.append(name.as_str());
    begin.append(" completions >>>");
    let mut end = String::from_str("# <<< ");
    end.append(block_name);
    end.append(" ");
    end.append(name.as_str());
    end.append(" completions <<<");
    (begin, end)
}

/// The first position at or after `i` where `pat` occurs in `s`.
pub open spec fn find_from(s: Seq<char>, pat: Seq<char>, i: int) -> Option<int>
    decreases s.len() + 1 - i,
{
    if i < 0 || i + pat.len() > s.len() {
        None
    } else if s.subrange(i, i + pat.len()) == pat {
        Some(i)
    } else {
        find_from(s, pat, i + 1)
    }
}

/// Where the managed block of `existing` sits: the start of its begin
/// marker and the end of the first end marker after it.
pub open spec fn block_span(existing: Seq<char>, begin: Seq<char>, end: Seq<char>) -> Option<(int, int)> {
    match find_from(existing, begin, 0) {
        Some(b) => match find_from(existing, end, b) {
            Some(e) => Some((b, e + end.len())),
            None => None,
        },
        None => None,
    }
}

/// The text of a managed block.
pub open spec fn managed_block_text(begin: Seq<char>, end: Seq<char>, body: Seq<char>) -> Seq<char> {
    begin + "\n"@ + body + "\n"@ + end + "\n"@
}

/// A startup file with the managed block written in: an existing block is
/// replaced, keeping one blank line to the text before and after it; a new
/// block goes after the existing text and a blank line. `None` when the
/// begin marker has no end marker after it.
pub open spec fn upserted(existing: Seq<char>, begin: Seq<char>, end: Seq<char>, body: Seq<char>) -> Option<Seq<char>> {
    let block = managed_block_text(begin, end, body);
    match find_from(existing, begin, 0) {
        Some(b) => match block_span(existing, begin, end) {
            Some((bs, es)) => {
                let before = trim_end(existing.take(bs));
                let after = trim_start(existing.skip(es));
                Some(
                    if before.len() == 0 && after.len() == 0 {
                        block
                    } else if before.len() == 0 {
                        block + "\n"@ + after
                    } else if after.len() == 0 {
                        before + "\n\n"@ + block
                    } else {
                        before + "\n\n"@ + block + "\n"@ + after
                    },
                )
            },
            None => None,
        },
        None => {
            let t = trim_end(existing);
            Some(
                if t.len() == 0 {
                    block
                } else {
                    t + "\n\n"@ + block
                },
            )
        },
    }
}

/// A startup file with its managed block taken out, keeping one blank line
/// between the text before and after it. `Ok(None)` when there is no block;
/// `Err` when the begin marker has no end marker after it.
pub open spec fn removed(existing: Seq<char>, begin: Seq<char>, end: Seq<char>) -> Result<Option<Seq<char>>, ()> {
    match find_from(existing, begin, 0) {
        None => Ok(None),
        Some(b) => match block_span(existing, begin, end) {
            None => Err(()),
            Some((bs, es)) => {
                let before = trim_end(existing.take(bs));
                let after = trim_start(existing.skip(es));
                Ok(
                    Some(
                        if before.len() == 0 && after.len() == 0 {
                            Seq::empty()
                        } else if before.len() == 0 {
                            after
                        } else if after.len() == 0 {
                            before + "\n"@
                        } else {
                            before + "\n\n"@ + after
                        },
                    ),
                )
            },
        },
    }
}

/// A begin marker without an end marker after it.
#[derive(Debug)]
pub struct MissingEndMarker {
    /// The begin marker that was found.
    pub begin: String,
    /// The end marker that was missing.
    pub end: String,
}

impl MissingEndMarker {
    /// Describes the error.
    pub fn message(&self) -> (r: String)
        ensures
            r@ == "found `"@ + self.begin@ + "` but missing `"@ + self.end@ + "`"@,
    {
        let mut s = String::from_str("found `");
        s.append(self.begin.as_str());
        s.append("` but missing `");
        s.append(self.end.as_str());
        s.append("`");
        s
    }
}

/// Returns the first position at or after `from` where `pat` occurs in
/// `s`.
pub fn find_text(s: &Vec<char>, pat: &Vec<char>, from: usize) -> (r: Option<usize>)
    ensures
        match find_from(s@, pat@, from as int) {
            Some(i) => r == Some(i as usize),
            None => r is None,
        },
{
    let n = s.len();
    let m = pat.len();
    let mut i: usize = from;
    while i <= n && m <= n - i
        invariant
            n == s@.len(),
            m == pat@.len(),
            from <= i,
            find_from(s@, pat@, from as int) == find_from(s@, pat@, i as int),
        decreases n + 1 - i,
    {
        let mut j: usize = 0;
        while j < m && s[i + j] == pat[j]
            invariant
                j <= m,
                i + m <= n,
                n == s@.len(),
                m == pat@.len(),
                forall|k: int| 0 <= k < j ==> s@[i + k] == pat@[k],
            decreases m - j,
        {
            j = j + 1;
        }
        if j == m {
            proof {
                assert(s@.subrange(i as int, i + m) =~= pat@);
            }
            return Some(i);
        }
        proof {
            assert(s@.subrange(i as int, i + m)[j as int] != pat@[j as int]);
        }
        i = i + 1;
    }
    None
}

/// Returns the characters of `s` from `lo` to `hi`.
fn slice_chars(s: &Vec<char>, lo: usize, hi: usize) -> (r: Vec<char>)
    requires
        lo <= hi <= s@.len(),
    ensures
        r@ == s@.subrange(lo as int, hi as int),
{
    let mut out: Vec<char> = Vec::new();
    let mut i: usize = lo;
    while i < hi
        invariant
            lo <= i <= hi <= s@.len(),
            out@ == s@.subrange(lo as int, i as int),
        decreases hi - i,
    {
        out.push(s[i]);
        i = i + 1;
        proof {
            assert(out@ =~= s@.subrange(lo as int, i as int));
        }
    }
    out
}

/// Returns `s` without leading white space.
pub(crate) fn trim_start_chars(s: &Vec<char>) -> (r: Vec<char>)
    ensures
        r@ == trim_start(s@),
{
    let n = s.len();
    let mut i: usize = 0;
    proof {
        assert(s@.skip(0) =~= s@);
    }
    while i < n && is_ws(s[i])
        invariant
            i <= n,
            n == s@.len(),
            trim_start(s@) == trim_start(s@.skip(i as int)),
        decreases n - i,
    {
        proof {
            assert(s@.skip(i as int).drop_first() =~= s@.skip(i + 1));
        }
        i = i + 1;
    }
    proof {
        if i < n {
            assert(s@.skip(i as int)[0] == s@[i as int]);
        }
    }
    slice_chars(s, i, n)
}

/// Returns `s` without trailing white space.
pub(crate) fn trim_end_chars(s: &Vec<char>) -> (r: Vec<char>)
    ensures
        r@ == trim_end(s@),
{
    let n = s.len();
    let mut k: usize = n;
    proof {
        assert(s@.take(n as int) =~= s@);
    }
    while k > 0 && is_ws(s[k - 1])
        invariant
            k <= n,
            n == s@.len(),
            trim_end(s@) == trim_end(s@.take(k as int)),
        decreases k,
    {
        proof {
            assert(s@.take(k as int).drop_last() =~= s@.take(k - 1));
        }
        k = k - 1;
    }
    slice_chars(s, 0, k)
}

/// Whether a character is white space.
fn is_ws(c: char) -> (r: bool)
    ensures
        r == is_white_space(c),
{
    c == ' ' || ('\u{9}' <= c && c <= '\u{d}') || c == '\u{85}' || c == '\u{a0}' || c == '\u{1680}' || ('\u{2000}'
        <= c && c <= '\u{200a}') || c == '\u{2028}' || c == '\u{2029}' || c == '\u{202f}' || c == '\u{205f}' || c
        == '\u{3000}'
}

/// Finds the managed block of `existing`.
fn find_block(existing: &Vec<char>, begin: &Vec<char>, end: &Vec<char>) -> (r: (Option<usize>, Option<(usize, usize)>))
    ensures
        match find_from(existing@, begin@, 0) {
            Some(b) => r.0 == Some(b as usize),
            None => r.0 is None,
        },
        match block_span(existing@, begin@, end@) {
            Some((bs, es)) => r.1 == Some((bs as usize, es as usize)),
            None => r.1 is None,
        },
{
    let n0 = existing.len();
    match find_text(existing, begin, 0) {
        None => (None, None),
        Some(b) => {
            proof {
                lemma_find_bounds(existing@, begin@, 0);
                assert(find_from(existing@, begin@, 0) == Some(b as int));
            }
            match find_text(existing, end, b) {
                None => (Some(b), None),
                Some(e) => {
                    let n = existing.len();
                    proof {
                        lemma_find_bounds(existing@, end@, b as int);
                    }
                    let es = e + end.len();
                    proof {
                        assert(block_span(existing@, begin@, end@) == Some((b as int, es as int)));
                    }
                    (Some(b), Some((b, es)))
                },
            }
        },
    }
}

/// A found position leaves room for the pattern.
proof fn lemma_find_bounds(s: Seq<char>, pat: Seq<char>, i: int)
    ensures
        find_from(s, pat, i) matches Some(k) ==> i <= k && k + pat.len() <= s.len(),
    decreases s.len() + 1 - i,
{
    if 0 <= i && i + pat.len() <= s.len() && s.subrange(i, i + pat.len()) != pat {
        lemma_find_bounds(s, pat, i + 1);
    }
}

/// Writes a managed block into a startup file's text.
pub fn upsert_managed_block_content(existing: &str, begin: &str, end: &str, body: &str) -> (r: Result<
    String,
    MissingEndMarker,
>)
    ensures
        match upserted(existing@, begin@, end@, body@) {
            Some(t) => r matches Ok(s) && s@ == t,
            None => r matches Err(e) && e.begin@ == begin@ && e.end@ == end@,
        },
{
    let ex = chars_of(existing);
    let bc = chars_of(begin);
    let ec = chars_of(end);
    let mut block = begin.to_owned();
    block.append("\n");
    block.append(body);
    block.append("\n");
    block.append(end);
    block.append("\n");
    let (found, span) = find_block(&ex, &bc, &ec);
    match found {
        Some(_) => match span {
            Some((bs, es)) => {
                proof {
                    lemma_find_bounds(ex@, bc@, 0);
                    lemma_find_bounds(ex@, ec@, find_from(ex@, bc@, 0)->0);
                }
                let before_all = slice_chars(&ex, 0, bs);
                let after_all = slice_chars(&ex, es, ex.len());
                let before = trim_end_chars(&before_all);
                let after = trim_start_chars(&after_all);
                proof {
                    assert(before_all@ =~= ex@.take(bs as int));
                    assert(after_all@ =~= ex@.skip(es as int));
                }
                let bt = string_of(before.as_slice());
                let at = string_of(after.as_slice());
                let mut out = String::new();
                if before.len() == 0 && after.len() == 0 {
                    out.append(block.as_str());
                } else if before.len() == 0 {
                    out.append(block.as_str());
                    out.append("\n");
                    out.append(at.as_str());
                } else if after.len() == 0 {
                    out.append(bt.as_str());
                    out.append("\n\n");
                    out.append(block.as_str());
                } else {
                    out.append(bt.as_str());
                    out.append("\n\n");
                    out.append(block.as_str());
                    out.append("\n");
                    out.append(at.as_str());
                }
                proof {
                    assert(out@ =~= upserted(existing@, begin@, end@, body@)->0);
                }
                Ok(out)
            },
            None => Err(MissingEndMarker { begin: begin.to_owned(), end: end.to_owned() }),
        },
        None => {
            let t = trim_end_chars(&ex);
            let mut out = String::new();
            if t.len() == 0 {
                out.append(block.as_str());
            } else {
                let tt = string_of(t.as_slice());
                out.append(tt.as_str());
                out.append("\n\n");
                out.append(block.as_str());
            }
            proof {
                assert(out@ =~= upserted(existing@, begin@, end@, body@)->0);
            }
            Ok(out)
        },
    }
}

/// Takes the managed block out of a startup file's text; `Ok(None)` when
/// there is none.
pub fn remove_managed_block_content(existing: &str, begin: &str, end: &str) -> (r: Result<
    Option<String>,
    MissingEndMarker,
>)
    ensures
        match removed(existing@, begin@, end@) {
            Ok(None) => r matches Ok(None),
            Ok(Some(t)) => r matches Ok(Some(s)) && s@ == t,
            Err(_) => r matches Err(e) && e.begin@ == begin@ && e.end@ == end@,
        },
{
    let ex = chars_of(existing);
    let bc = chars_of(begin);
    let ec = chars_of(end);
    let (found, span) = find_block(&ex, &bc, &ec);
    match found {
        None => Ok(None),
        Some(_) => match span {
            None => Err(MissingEndMarker { begin: begin.to_owned(), end: end.to_owned() }),
            Some((bs, es)) => {
                proof {
                    lemma_find_bounds(ex@, bc@, 0);
                    lemma_find_bounds(ex@, ec@, find_from(ex@, bc@, 0)->0);
                }
                let before_all = slice_chars(&ex, 0, bs);
                let after_all = slice_chars(&ex, es, ex.len());
                let before = trim_end_chars(&before_all);
                let after = trim_start_chars(&after_all);
                proof {
                    assert(before_all@ =~= ex@.take(bs as int));
                    assert(after_all@ =~= ex@.skip(es as int));
                }
                let bt = string_of(before.as_slice());
                let at = string_of(after.as_slice());
                let mut out = String::new();
                if before.len() == 0 && after.len() == 0 {
                } else if before.len() == 0 {
                    out.append(at.as_str());
                } else if after.len() == 0 {
                    out.append(bt.as_str());
                    out.append("\n");
                } else {
                    out.append(bt.as_str());
                    out.append("\n\n");
                    out.append(at.as_str());
                }
                proof {
                    assert(out@ =~= removed(existing@, begin@, end@)->Ok_0->0);
                }
                Ok(Some(out))
            },
        },
    }
}

/// A character kept in a backup file name: ASCII letters and digits, `-`,
/// `_` and `.`; anything else becomes `_`.
pub open spec fn backup_char(c: char) -> char {
    if ('a' <= c <= 'z') || ('A' <= c <= 'Z') || ('0' <= c <= '9') || c == '-' || c == '_' || c == '.' {
        c
    } else {
        '_'
    }
}

/// Makes a name safe for a backup file name.
pub fn backup_file_name_part(value: &str) -> (r: String)
    ensures
        r@ == Seq::new(value@.len(), |i: int| backup_char(value@[i])),
{
    let cs = chars_of(value);
    let mut out: Vec<char> = Vec::new();
    let mut i: usize = 0;
    while i < cs.len()
        invariant
            i <= cs@.len(),
            cs@ == value@,
            out@ == Seq::new(i as nat, |k: int| backup_char(value@[k])),
        decreases cs@.len() - i,
    {
        let c = cs[i];
        let kept = ('a' <= c && c <= 'z') || ('A' <= c && c <= 'Z') || ('0' <= c && c <= '9') || c == '-' || c == '_'
            || c == '.';
        out.push(if kept { c } else { '_' });
        i = i + 1;
        proof {
            assert(out@ =~= Seq::new(i as nat, |k: int| backup_char(value@[k])));
        }
    }
    string_of(out.as_slice())
}

/// The file name of a startup-file backup:
/// `<file>.backup.by.<name>.<timestamp>`.
pub fn backup_file_name(file_name: &str, backup_name: &str, timestamp: u128) -> (r: String)
    ensures
        r@ == file_name@ + ".backup.by."@ + Seq::new(backup_name@.len(), |i: int| backup_char(backup_name@[i])) + "."@
            + decimal(timestamp as nat),
{
    let part = backup_file_name_part(backup_name);
    let ts = decimal_text(timestamp);
    let mut s = file_name.to_owned();
    s.append(".backup.by.");
    s.append(part.as_str());
    s.append(".");
    s.append(ts.as_str());
    s
}

/// `part` occurs in `s`.
pub open spec fn occurs_in(s: Seq<char>, part: Seq<char>) -> bool {
    exists|i: int| 0 <= i <= s.len() - part.len() && #[trigger] s.subrange(i, i + part.len()) == part
}

/// Writing a managed block in and taking it out are refused on the same
/// files: those whose begin marker has no end marker after it.
pub proof fn lemma_upsert_and_remove_refuse_alike(existing: Seq<char>, begin: Seq<char>, end: Seq<char>, body: Seq<char>)
    ensures
        upserted(existing, begin, end, body) is None <==> removed(existing, begin, end) is Err,
{
}

/// A file with the managed block written in holds the block.
pub proof fn lemma_upserted_holds_block(existing: Seq<char>, begin: Seq<char>, end: Seq<char>, body: Seq<char>)
    ensures
        upserted(existing, begin, end, body) matches Some(t) ==> occurs_in(t, managed_block_text(begin, end, body)),
{
    let block = managed_block_text(begin, end, body);
    if let Some(t) = upserted(existing, begin, end, body) {
        let at: int = if find_from(existing, begin, 0) is Some {
            let (bs, es) = block_span(existing, begin, end)->0;
            let before = trim_end(existing.take(bs));
            if before.len() == 0 {
                0
            } else {
                before.len() + 2int
            }
        } else {
            let tr = trim_end(existing);
            if tr.len() == 0 {
                0
            } else {
                tr.len() + 2int
            }
        };
        reveal_strlit("\n");
        reveal_strlit("\n\n");
        assert(t.subrange(at, at + block.len()) =~= block);
    }
}

/// Trimming leaves no white space at the end it trims, so trimming again
/// changes nothing.
proof fn lemma_trim_end_shape(s: Seq<char>)
    ensures
        trim_end(s).len() == 0 || !is_white_space(trim_end(s).last()),
        trim_end(trim_end(s)) == trim_end(s),
    decreases s.len(),
{
    if s.len() > 0 && is_white_space(s.last()) {
        lemma_trim_end_shape(s.drop_last());
    }
}

/// Trimming leaves no white space at the start, so trimming again changes
/// nothing.
proof fn lemma_trim_start_shape(s: Seq<char>)
    ensures
        trim_start(s).len() == 0 || !is_white_space(trim_start(s)[0]),
        trim_start(trim_start(s)) == trim_start(s),
    decreases s.len(),
{
    if s.len() > 0 && is_white_space(s[0]) {
        lemma_trim_start_shape(s.drop_first());
    }
}

/// A search inside a window of a text finds what a search of the text from
/// the window's start finds.
proof fn lemma_find_shift(s: Seq<char>, w: Seq<char>, pat: Seq<char>, a: int, i: int, k: int)
    requires
        0 <= a,
        0 <= i,
        a + w.len() <= s.len(),
        w == s.subrange(a, a + w.len()),
        find_from(w, pat, i) == Some(k),
    ensures
        find_from(s, pat, a + i) == Some(a + k),
    decreases k - i,
{
    lemma_find_bounds(w, pat, i);
    lemma_find_bounds(w, pat, i + 1);
    assert(i + pat.len() <= w.len());
    assert(s.subrange(a + i, a + i + pat.len()) =~= w.subrange(i, i + pat.len()));
    if w.subrange(i, i + pat.len()) == pat {
        assert(k == i);
    } else {
        assert(find_from(w, pat, i + 1) == Some(k));
        lemma_find_shift(s, w, pat, a, i + 1, k);
        assert(find_from(s, pat, a + i + 1) == Some(a + k));
    }
}

/// The text before a managed block once it is written: the trimmed text
/// before it, or nothing.
pub open spec fn block_prefix(existing: Seq<char>, begin: Seq<char>, end: Seq<char>) -> Seq<char> {
    if find_from(existing, begin, 0) is Some {
        match block_span(existing, begin, end) {
            Some((bs, _)) => trim_end(existing.take(bs)),
            None => Seq::empty(),
        }
    } else {
        trim_end(existing)
    }
}

/// The text after a managed block once it is written: the trimmed text
/// after it, or nothing.
pub open spec fn block_suffix(existing: Seq<char>, begin: Seq<char>, end: Seq<char>) -> Seq<char> {
    if find_from(existing, begin, 0) is Some {
        match block_span(existing, begin, end) {
            Some((_, es)) => trim_start(existing.skip(es)),
            None => Seq::empty(),
        }
    } else {
        Seq::empty()
    }
}

/// Where the managed block starts in a written startup file.
pub open spec fn block_start(existing: Seq<char>, begin: Seq<char>, end: Seq<char>) -> int {
    let before = block_prefix(existing, begin, end);
    if before.len() == 0 {
        0
    } else {
        before.len() + 2int
    }
}

/// A block placed between trimmed text before and after it, one blank line
/// apart.
spec fn placed(before: Seq<char>, block: Seq<char>, after: Seq<char>) -> Seq<char> {
    if before.len() == 0 && after.len() == 0 {
        block
    } else if before.len() == 0 {
        block + "\n"@ + after
    } else if after.len() == 0 {
        before + "\n\n"@ + block
    } else {
        before + "\n\n"@ + block + "\n"@ + after
    }
}

/// Writing a managed block places it between the trimmed text around it.
proof fn lemma_upserted_placed(existing: Seq<char>, begin: Seq<char>, end: Seq<char>, body: Seq<char>)
    requires
        upserted(existing, begin, end, body) is Some,
    ensures
        upserted(existing, begin, end, body)->0 == placed(
            block_prefix(existing, begin, end),
            managed_block_text(begin, end, body),
            block_suffix(existing, begin, end),
        ),
        block_prefix(existing, begin, end) == trim_end(block_prefix(existing, begin, end)),
        block_suffix(existing, begin, end) == trim_start(block_suffix(existing, begin, end)),
{
    if find_from(existing, begin, 0) is Some {
        let (bs, es) = block_span(existing, begin, end)->0;
        lemma_trim_end_shape(existing.take(bs));
        lemma_trim_start_shape(existing.skip(es));
    } else {
        lemma_trim_end_shape(existing);
    }
}

/// Writing the same managed block a second time changes nothing, provided
/// that in the written file the begin marker first occurs where the block
/// starts, and that the end marker first occurs in the block at the block's
/// own end marker.
pub proof fn lemma_upsert_idempotent(existing: Seq<char>, begin: Seq<char>, end: Seq<char>, body: Seq<char>)
    requires
        upserted(existing, begin, end, body) is Some,
        find_from(upserted(existing, begin, end, body)->0, begin, 0) == Some(block_start(existing, begin, end)),
        find_from(managed_block_text(begin, end, body), end, 0) == Some(begin.len() + body.len() + 2int),
    ensures
        upserted(upserted(existing, begin, end, body)->0, begin, end, body) == upserted(existing, begin, end, body),
{
    reveal_strlit("\n");
    reveal_strlit("\n\n");
    let t = upserted(existing, begin, end, body)->0;
    let blk = managed_block_text(begin, end, body);
    let bf = block_prefix(existing, begin, end);
    let af = block_suffix(existing, begin, end);
    let p = block_start(existing, begin, end);
    let k: int = begin.len() + body.len() + 2int;
    lemma_upserted_placed(existing, begin, end, body);
    assert(t == placed(bf, blk, af));
    assert(t.subrange(p, p + blk.len()) =~= blk);
    lemma_find_bounds(blk, end, 0);
    lemma_find_shift(t, blk, end, p, 0, k);
    assert(find_from(t, end, p) == Some(p + k));
    assert(block_span(t, begin, end) == Some((p, p + k + end.len())));
    assert(blk.len() == k + end.len() + 1);
    let head = t.take(p);
    let tail = t.skip(p + k + end.len());
    if bf.len() == 0 {
        assert(head =~= Seq::<char>::empty());
    } else {
        assert(head =~= bf + "\n\n"@);
        assert(head.take(bf.len() as int) =~= bf);
        lemma_trim_end_take(head, bf.len() as int);
    }
    assert(trim_end(head) == bf);
    if af.len() == 0 {
        assert(tail =~= "\n"@);
        lemma_trim_start_skip(tail, 1);
        assert(tail.skip(1) =~= Seq::<char>::empty());
    } else {
        assert(tail =~= "\n\n"@ + af);
        lemma_trim_start_skip(tail, 2);
        assert(tail.skip(2) =~= af);
    }
    assert(trim_start(tail) == af);
    assert(upserted(t, begin, end, body) == Some(placed(bf, blk, af)));
}

/// `s` holds no line break.
pub open spec fn no_line_break(s: Seq<char>) -> bool {
    forall|i: int| 0 <= i < s.len() ==> s[i] != '\n'
}

/// Trimming the end keeps a prefix.
proof fn lemma_trim_end_prefix(s: Seq<char>)
    ensures
        trim_end(s).len() <= s.len(),
        trim_end(s) == s.take(trim_end(s).len() as int),
    decreases s.len(),
{
    if s.len() > 0 && is_white_space(s.last()) {
        lemma_trim_end_prefix(s.drop_last());
        assert(s.drop_last().take(trim_end(s).len() as int) =~= s.take(trim_end(s).len() as int));
    } else {
        assert(s.take(s.len() as int) =~= s);
    }
}

/// A search finds nothing before what it finds, and nothing at all when it
/// finds nothing.
proof fn lemma_find_skips(s: Seq<char>, pat: Seq<char>, i: int)
    requires
        0 <= i,
    ensures
        find_from(s, pat, i) matches Some(k) ==> forall|j: int|
            i <= j < k ==> #[trigger] s.subrange(j, j + pat.len()) != pat,
        find_from(s, pat, i) is None ==> forall|j: int|
            i <= j && j + pat.len() <= s.len() ==> #[trigger] s.subrange(j, j + pat.len()) != pat,
    decreases s.len() + 1 - i,
{
    if i + pat.len() <= s.len() && s.subrange(i, i + pat.len()) != pat {
        lemma_find_skips(s, pat, i + 1);
    }
}

/// A search from `i` finds `k` when the pattern occurs at `k` and nowhere
/// from `i` before it.
proof fn lemma_find_first(s: Seq<char>, pat: Seq<char>, i: int, k: int)
    requires
        0 <= i <= k,
        k + pat.len() <= s.len(),
        s.subrange(k, k + pat.len()) == pat,
        forall|j: int| i <= j < k ==> #[trigger] s.subrange(j, j + pat.len()) != pat,
    ensures
        find_from(s, pat, i) == Some(k),
    decreases k - i,
{
    if i < k {
        lemma_find_first(s, pat, i + 1, k);
    }
}

/// A window holding a line break is not a text without one.
proof fn lemma_window_break(s: Seq<char>, pat: Seq<char>, j: int, q: int)
    requires
        no_line_break(pat),
        0 <= j <= q < j + pat.len() <= s.len(),
        s[q] == '\n',
    ensures
        s.subrange(j, j + pat.len()) != pat,
{
    assert(s.subrange(j, j + pat.len())[q - j] == s[q]);
}

/// A window inside a part of a text that holds no occurrence of `pat` is
/// not `pat`.
proof fn lemma_window_inside(s: Seq<char>, part: Seq<char>, a: int, pat: Seq<char>, j: int)
    requires
        0 <= a <= j,
        j + pat.len() <= a + part.len() <= s.len(),
        s.subrange(a, a + part.len()) == part,
        !occurs_in(part, pat),
    ensures
        s.subrange(j, j + pat.len()) != pat,
{
    assert(s.subrange(j, j + pat.len()) =~= part.subrange(j - a, j - a + pat.len()));
    if s.subrange(j, j + pat.len()) == pat {
        assert(part.subrange(j - a, j - a + pat.len()) == pat);
    }
}

/// Writing the same managed block a second time changes nothing when the
/// markers hold no line break, the end marker does not occur in the begin
/// marker, and the body holds neither marker.
pub proof fn lemma_upsert_repeat(existing: Seq<char>, begin: Seq<char>, end: Seq<char>, body: Seq<char>)
    requires
        upserted(existing, begin, end, body) is Some,
        no_line_break(begin),
        no_line_break(end),
        !occurs_in(begin, end),
        !occurs_in(body, begin),
        !occurs_in(body, end),
    ensures
        upserted(upserted(existing, begin, end, body)->0, begin, end, body) == upserted(existing, begin, end, body),
{
    reveal_strlit("\n");
    reveal_strlit("\n\n");
    let t = upserted(existing, begin, end, body)->0;
    let blk = managed_block_text(begin, end, body);
    let bf = block_prefix(existing, begin, end);
    let af = block_suffix(existing, begin, end);
    let p = block_start(existing, begin, end);
    let k: int = begin.len() + body.len() + 2int;
    assert(body.subrange(0, 0) =~= Seq::<char>::empty());
    if begin.len() == 0 {
        assert(body.subrange(0, 0int + begin.len()) == begin);
    }
    if end.len() == 0 {
        assert(body.subrange(0, 0int + end.len()) == end);
    }
    // The end marker first occurs in the block at its own place.
    let nb = begin.len() as int;
    let nd = body.len() as int;
    assert(blk.subrange(0, nb) =~= begin);
    assert(blk.subrange(nb + 1, nb + 1 + nd) =~= body);
    assert(blk[nb] == '\n');
    assert(blk[nb + 1 + nd] == '\n');
    assert(blk.subrange(k, k + end.len()) =~= end);
    assert forall|j: int| 0 <= j < k implies #[trigger] blk.subrange(j, j + end.len()) != end by {
        if j + end.len() <= nb {
            lemma_window_inside(blk, begin, 0, end, j);
        } else if j <= nb {
            lemma_window_break(blk, end, j, nb);
        } else if j + end.len() <= nb + 1 + nd {
            lemma_window_inside(blk, body, nb + 1, end, j);
        } else {
            lemma_window_break(blk, end, j, nb + 1 + nd);
        }
    }
    lemma_find_first(blk, end, 0, k);
    // The begin marker first occurs in the written file where the block starts.
    lemma_upserted_placed(existing, begin, end, body);
    assert(t == placed(bf, blk, af));
    assert(t.subrange(p, p + blk.len()) =~= blk);
    assert(t.subrange(p, p + nb) =~= begin);
    if bf.len() > 0 {
        let nf = bf.len() as int;
        assert(t.subrange(0, nf) =~= bf);
        assert(t[nf] == '\n' && t[nf + 1] == '\n');
        let x = if find_from(existing, begin, 0) is Some {
            existing.take((block_span(existing, begin, end)->0).0)
        } else {
            existing
        };
        assert(bf == trim_end(x));
        lemma_trim_end_prefix(x);
        lemma_find_skips(existing, begin, 0);
        if find_from(existing, begin, 0) is Some {
            lemma_find_bounds(existing, begin, 0);
        }
        assert forall|j: int| 0 <= j < p implies #[trigger] t.subrange(j, j + nb) != begin by {
            if j + nb <= nf {
                assert(t.subrange(j, j + nb) =~= existing.subrange(j, j + nb)) by {
                    assert(t.subrange(j, j + nb) =~= bf.subrange(j, j + nb));
                    assert(bf.subrange(j, j + nb) =~= x.subrange(j, j + nb));
                    assert(x.subrange(j, j + nb) =~= existing.subrange(j, j + nb));
                }
            } else if j <= nf {
                lemma_window_break(t, begin, j, nf);
            } else {
                lemma_window_break(t, begin, j, nf + 1);
            }
        }
    }
    lemma_find_first(t, begin, 0, p);
    lemma_upsert_idempotent(existing, begin, end, body);
}

/// The markers of a managed block hold no line break when its name holds
/// none, and the end marker does not occur in the begin marker.
pub proof fn lemma_markers_apart(name: Seq<char>, shell: ShellKind)
    requires
        no_line_break(name),
    ensures
        no_line_break(begin_marker(name, shell)),
        no_line_break(end_marker(name, shell)),
        !occurs_in(begin_marker(name, shell), end_marker(name, shell)),
{
    reveal_strlit("# >>> ");
    reveal_strlit("# <<< ");
    reveal_strlit(" ");
    reveal_strlit(" completions >>>");
    reveal_strlit(" completions <<<");
    reveal_strlit("bash");
    reveal_strlit("elvish");
    reveal_strlit("fish");
    reveal_strlit("powershell");
    reveal_strlit("zsh");
    let b = begin_marker(name, shell);
    let e = end_marker(name, shell);
    let sh = shell_name(shell);
    assert forall|i: int| 0 <= i < b.len() implies b[i] != '\n' by {
        if i >= 6 && i < 6 + name.len() {
            assert(b[i] == name[i - 6]);
        } else if i >= 7 + name.len() && i < 7 + name.len() + sh.len() {
            assert(b[i] == sh[i - 7 - name.len()]);
        }
    }
    assert forall|i: int| 0 <= i < e.len() implies e[i] != '\n' by {
        if i >= 6 && i < 6 + name.len() {
            assert(e[i] == name[i - 6]);
        } else if i >= 7 + name.len() && i < 7 + name.len() + sh.len() {
            assert(e[i] == sh[i - 7 - name.len()]);
        }
    }
    assert(b.len() == e.len());
    if occurs_in(b, e) {
        let i = choose|i: int| 0 <= i <= b.len() - e.len() && #[trigger] b.subrange(i, i + e.len()) == e;
        assert(i == 0);
        assert(b.subrange(0, e.len() as int)[2] == b[2]);
        assert(b[2] == '>');
        assert(e[2] == '<');
    }
}

/// Writing a binary's completion block into a startup file a second time,
/// with the same body, leaves the file as it is, so it is neither written
/// nor backed up; this holds when the binary's name holds no line break and
/// the body holds neither marker.
pub proof fn lemma_managed_block_written_once(
    existing: Seq<char>,
    name: Seq<char>,
    shell: ShellKind,
    body: Seq<char>,
    file_exists: bool,
)
    requires
        upserted(existing, begin_marker(name, shell), end_marker(name, shell), body) is Some,
        no_line_break(name),
        !occurs_in(body, begin_marker(name, shell)),
        !occurs_in(body, end_marker(name, shell)),
    ensures
        ({
            let once = upserted(existing, begin_marker(name, shell), end_marker(name, shell), body)->0;
            &&& upserted(once, begin_marker(name, shell), end_marker(name, shell), body) == Some(once)
            &&& !startup_plan(once, once, file_exists).0
            &&& !startup_plan(once, once, file_exists).1
        }),
{
    lemma_markers_apart(name, shell);
    lemma_upsert_repeat(existing, begin_marker(name, shell), end_marker(name, shell), body);
}

/// A path built from a base directory and components below it, one level
/// at a time.
pub open spec fn path_below(base: Seq<char>, comps: Seq<Seq<char>>) -> Seq<char>
    decreases comps.len(),
{
    if comps.len() == 0 {
        base
    } else {
        spec_join(path_below(base, comps.drop_last()), comps.last())
    }
}

/// The startup file each shell reads at start-up, as components below the
/// home directory; fish reads none for completions.
pub open spec fn startup_file_below_home(shell: ShellKind) -> Option<Seq<Seq<char>>> {
    match shell {
        ShellKind::Bash => Some(seq![".bashrc"@]),
        ShellKind::Zsh => Some(seq![".zshrc"@]),
        ShellKind::Elvish => Some(seq![".config"@, "elvish"@, "rc.elv"@]),
        ShellKind::PowerShell => Some(seq!["Documents"@, "PowerShell"@, "Microsoft.PowerShell_profile.ps1"@]),
        ShellKind::Fish => None,
    }
}

/// The directory each shell loads completion scripts from, as components
/// below the home directory.
pub open spec fn completion_dir_below_home(shell: ShellKind) -> Seq<Seq<char>> {
    match shell {
        ShellKind::Bash => seq![".bash_completion.d"@],
        ShellKind::Zsh => seq![".zsh"@, "completions"@],
        ShellKind::Elvish => seq![".config"@, "elvish"@, "lib"@],
        ShellKind::PowerShell => seq!["Documents"@, "PowerShell"@, "Completions"@],
        ShellKind::Fish => seq![".config"@, "fish"@, "completions"@],
    }
}

/// The install locations are the files each shell reads, under the home
/// directory: the startup file of bash and zsh lies directly in the home
/// directory, elvish's and PowerShell's in their configuration directories,
/// and fish needs none; the completion directory is the one the shell loads
/// scripts from.
pub proof fn lemma_install_locations(shell: ShellKind, home: Seq<char>)
    ensures
        rc_path_for(shell, home) == match startup_file_below_home(shell) {
            Some(c) => Some(path_below(home, c)),
            None => None::<Seq<char>>,
        },
        completion_dir_for(shell, home) == path_below(home, completion_dir_below_home(shell)),
        (shell == ShellKind::Bash || shell == ShellKind::Zsh) ==> startup_file_below_home(shell)->0.len() == 1,
{
    reveal_with_fuel(path_below, 4);
    assert(seq![".bashrc"@].drop_last() =~= Seq::<Seq<char>>::empty());
    assert(seq![".zshrc"@].drop_last() =~= Seq::<Seq<char>>::empty());
    assert(seq![".bash_completion.d"@].drop_last() =~= Seq::<Seq<char>>::empty());
    assert(seq![".zsh"@, "completions"@].drop_last() =~= seq![".zsh"@]);
    assert(seq![".zsh"@].drop_last() =~= Seq::<Seq<char>>::empty());
    assert(seq![".config"@, "elvish"@, "rc.elv"@].drop_last() =~= seq![".config"@, "elvish"@]);
    assert(seq![".config"@, "elvish"@, "lib"@].drop_last() =~= seq![".config"@, "elvish"@]);
    assert(seq![".config"@, "fish"@, "completions"@].drop_last() =~= seq![".config"@, "fish"@]);
    assert(seq![".config"@, "elvish"@].drop_last() =~= seq![".config"@]);
    assert(seq![".config"@, "fish"@].drop_last() =~= seq![".config"@]);
    assert(seq![".config"@].drop_last() =~= Seq::<Seq<char>>::empty());
    assert(seq!["Documents"@, "PowerShell"@, "Microsoft.PowerShell_profile.ps1"@].drop_last() =~= seq![
        "Documents"@,
        "PowerShell"@,
    ]);
    assert(seq!["Documents"@, "PowerShell"@, "Completions"@].drop_last() =~= seq!["Documents"@, "PowerShell"@]);
    assert(seq!["Documents"@, "PowerShell"@].drop_last() =~= seq!["Documents"@]);
    assert(seq!["Documents"@].drop_last() =~= Seq::<Seq<char>>::empty());
}

/// The startup-file lines load the generated completion script: for every
/// shell but zsh they name the script and do not depend on the completion
/// directory (elvish's are `use` and the script); zsh's add the completion
/// directory to `fpath` and do not depend on the script; fish needs none.
pub proof fn lemma_rc_block_loads_script(
    shell: ShellKind,
    generated: Seq<char>,
    completion_dir: Seq<char>,
    other_generated: Seq<char>,
    other_dir: Seq<char>,
)
    ensures
        shell != ShellKind::Zsh ==> rc_block_text(shell, generated, completion_dir) == rc_block_text(
            shell,
            generated,
            other_dir,
        ),
        shell != ShellKind::Zsh && shell != ShellKind::Fish ==> rc_block_text(shell, generated, completion_dir) is Some
            && occurs_in(rc_block_text(shell, generated, completion_dir)->0, generated),
        shell == ShellKind::Elvish ==> rc_block_text(shell, generated, completion_dir) == Some(
            seq!['u', 's', 'e', ' '] + generated + seq!['\n'],
        ),
        shell == ShellKind::Zsh ==> rc_block_text(shell, generated, completion_dir) == rc_block_text(
            shell,
            other_generated,
            completion_dir,
        ) && occurs_in(rc_block_text(shell, generated, completion_dir)->0, completion_dir),
        shell == ShellKind::Fish ==> rc_block_text(shell, generated, completion_dir) is None,
{
    reveal_strlit("use ");
    reveal_strlit("\n");
    reveal_strlit("[[ -r \"");
    reveal_strlit("if (Test-Path \"");
    reveal_strlit("typeset -U fpath\nfpath=(\"");
    match shell {
        ShellKind::Bash => {
            let t = rc_block_text(shell, generated, completion_dir)->0;
            assert(t.subrange(7, 7int + generated.len()) =~= generated);
        },
        ShellKind::Elvish => {
            let t = rc_block_text(shell, generated, completion_dir)->0;
            assert(t.subrange(4, 4int + generated.len()) =~= generated);
            assert("use "@ =~= seq!['u', 's', 'e', ' ']);
            assert("\n"@ =~= seq!['\n']);
        },
        ShellKind::PowerShell => {
            let t = rc_block_text(shell, generated, completion_dir)->0;
            assert(t.subrange(15, 15int + generated.len()) =~= generated);
        },
        ShellKind::Zsh => {
            let t = rc_block_text(shell, generated, completion_dir)->0;
            assert(t.subrange(25, 25int + completion_dir.len()) =~= completion_dir);
        },
        ShellKind::Fish => {},
    }
}

/// What writing a startup file takes: whether to write it (its content
/// changes), and whether to back it up first (it is written and has content
/// or exists).
pub open spec fn startup_plan(existing: Seq<char>, next_content: Seq<char>, file_exists: bool) -> (bool, bool) {
    let write = existing != next_content;
    (write, write && (existing.len() > 0 || file_exists))
}

/// Decides whether a startup file is written and whether it is backed up
/// first.
pub fn startup_file_plan(existing: &str, next_content: &str, file_exists: bool) -> (r: (bool, bool))
    ensures
        r == startup_plan(existing@, next_content@, file_exists),
{
    let write = !crate::text::text_eq(existing, next_content);
    let backup = write && (existing.unicode_len() > 0 || file_exists);
    (write, backup)
}

} // verus!
