//! Hook management: the section that the tool keeps in a git hook.
//!
//! A section starts at a line that begins with the marker and goes on to the next empty
//! line, which closes it.

use crate::lists::{flattened, lemma_flattened_concat, lemma_flattened_one};
use crate::text::{
    chars_of, concat, has_prefix, join, join_strings, lemma_cut_again, lemma_line_len,
    lemma_raw_lines, line_len, raw_lines, same_text, split_raw_lines, texts, trim, trim_end,
    trim_start, trimmed, well_cut,
};
use vstd::prelude::*;

verus! {

/// Marker comment used to identify git-embed hook content.
pub const HOOK_MARKER: &'static str = "# git-embed";

/// The first line of a hook file that the tool creates.
pub const SHEBANG: &'static str = "#!/bin/sh";

/// The hooks to install and the subcommand that each invokes.
pub open spec fn hook_list() -> Seq<(Seq<char>, Seq<char>)> {
    seq![
        ("post-commit"@, "update"@),
        ("post-merge"@, "update"@),
        ("post-checkout"@, "update"@),
    ]
}

/// The hooks to install and the subcommand that each invokes.
pub fn hooks() -> (r: Vec<(&'static str, &'static str)>)
    ensures
        r@.len() == hook_list().len(),
        forall|i: int| 0 <= i < r@.len() ==> (#[trigger] r@[i]).0@ == hook_list()[i].0 && r@[i].1@
            == hook_list()[i].1,
{
    let mut r: Vec<(&'static str, &'static str)> = Vec::new();
    r.push(("post-commit", "update"));
    r.push(("post-merge", "update"));
    r.push(("post-checkout", "update"));
    r
}

/// The shell snippet for a subcommand.
pub open spec fn hook_text(subcmd: Seq<char>) -> Seq<char> {
    HOOK_MARKER@ + "\ncommand -v git-embed >/dev/null 2>&1 || exit 0\ngit embed "@ + subcmd
        + " >/dev/null 2>&1 &\n"@
}

/// Generate the shell snippet for a single hook.
pub fn hook_snippet(subcmd: &str) -> (r: String)
    ensures
        r@ == hook_text(subcmd@),
{
    let mut r: String = HOOK_MARKER.to_string();
    r.push_str("\ncommand -v git-embed >/dev/null 2>&1 || exit 0\ngit embed ");
    r.push_str(subcmd);
    r.push_str(" >/dev/null 2>&1 &\n");
    r
}

// ---------------------------------------------------------------------------
// Sections
// ---------------------------------------------------------------------------

/// Does a section start at this line?
pub open spec fn marker_line(line: Seq<char>) -> bool {
    HOOK_MARKER@.is_prefix_of(line)
}

/// Is the line nothing but its line ending?
pub open spec fn blank_line(line: Seq<char>) -> bool {
    line == seq!['\n'] || line == seq!['\r', '\n']
}

/// Is a section still open before line `i`?
pub open spec fn open_before(ls: Seq<Seq<char>>, i: int) -> bool {
    exists|j: int|
        0 <= j < i && marker_line(#[trigger] ls[j]) && forall|k: int|
            j < k < i ==> !blank_line(#[trigger] ls[k])
}

/// Does line `i` belong to a section?
pub open spec fn in_section(ls: Seq<Seq<char>>, i: int) -> bool {
    marker_line(ls[i]) || open_before(ls, i)
}

/// The number of lines before the first section.
pub open spec fn first_section(ls: Seq<Seq<char>>) -> nat
    decreases ls.len(),
{
    if ls.len() == 0 || marker_line(ls[0]) {
        0
    } else {
        1 + first_section(ls.skip(1))
    }
}

/// The lines from line `from` on that belong to no section.
pub open spec fn others(ls: Seq<Seq<char>>, from: int) -> Seq<Seq<char>>
    decreases ls.len(),
{
    if ls.len() == 0 || ls.len() <= from {
        seq![]
    } else if in_section(ls, ls.len() - 1) {
        others(ls.drop_last(), from)
    } else {
        others(ls.drop_last(), from).push(ls.last())
    }
}

/// Does the hook file hold a section?
pub open spec fn has_section(c: Seq<char>) -> bool {
    exists|i: int| 0 <= i < raw_lines(c).len() && marker_line(#[trigger] raw_lines(c)[i])
}

/// The hook file without its sections, each with the empty line that closes it. All other
/// lines stay as they are, with their line endings.
pub open spec fn without_sections(c: Seq<char>) -> Seq<char> {
    flattened(others(raw_lines(c), 0))
}

/// The first empty line behind line `n`, if there is one.
pub open spec fn closing(ls: Seq<Seq<char>>, n: int) -> Seq<Seq<char>>
    decreases ls.len() - n,
{
    if n + 1 >= ls.len() {
        seq![]
    } else if blank_line(ls[n + 1]) {
        seq![ls[n + 1]]
    } else {
        closing(ls, n + 1)
    }
}

/// What follows the first section, which starts at line `n`: the empty line that closes it,
/// and the lines behind it that belong to no section.
pub open spec fn behind(ls: Seq<Seq<char>>, n: int) -> Seq<Seq<char>> {
    closing(ls, n) + others(ls, n)
}

/// Lines with `snippet` in place of their first section and without their other sections.
pub open spec fn replaced(ls: Seq<Seq<char>>, snippet: Seq<char>) -> Seq<char> {
    let n = first_section(ls) as int;
    if n >= ls.len() {
        flattened(ls)
    } else {
        flattened(ls.take(n)) + snippet + flattened(behind(ls, n))
    }
}

/// The hook file with `snippet` in place of its first section and without its other
/// sections. The empty line that closed the first section stays, and so do all other lines,
/// with their line endings.
pub open spec fn with_section(c: Seq<char>, snippet: Seq<char>) -> Seq<char> {
    replaced(raw_lines(c), snippet)
}

/// `first_section` finds the first marker line.
proof fn lemma_first_section(ls: Seq<Seq<char>>)
    ensures
        first_section(ls) <= ls.len(),
        forall|i: int| 0 <= i < first_section(ls) ==> !marker_line(#[trigger] ls[i]),
        first_section(ls) < ls.len() ==> marker_line(ls[first_section(ls) as int]),
    decreases ls.len(),
{
    if ls.len() == 0 || marker_line(ls[0]) {
    } else {
        lemma_first_section(ls.skip(1));
        assert forall|i: int| 0 <= i < first_section(ls) implies !marker_line(
            #[trigger] ls[i],
        ) by {
            if i > 0 {
                assert(ls.skip(1)[i - 1] == ls[i]);
            }
        }
    }
}

/// The place of the first marker line is determined by what surrounds it.
proof fn lemma_first_section_is(ls: Seq<Seq<char>>, n: int)
    requires
        0 <= n <= ls.len(),
        forall|i: int| 0 <= i < n ==> !marker_line(#[trigger] ls[i]),
        n < ls.len() ==> marker_line(ls[n]),
    ensures
        first_section(ls) == n,
{
    lemma_first_section(ls);
}

/// The marker is more than one character and has no part in a line ending.
proof fn lemma_marker()
    ensures
        HOOK_MARKER@.len() > 2,
        forall|i: int| 0 <= i < HOOK_MARKER@.len() ==> HOOK_MARKER@[i] != '\n',
        forall|line: Seq<char>| #[trigger] marker_line(line) ==> !blank_line(line),
{
    reveal_strlit("# git-embed");
}

/// One more line: whether it closes or opens a section.
proof fn lemma_open_step(ls: Seq<Seq<char>>, i: int)
    requires
        0 <= i < ls.len(),
    ensures
        open_before(ls, i + 1) == (marker_line(ls[i]) || (open_before(ls, i) && !blank_line(
            ls[i],
        ))),
{
    if marker_line(ls[i]) {
        assert(open_before(ls, i + 1));
    }
    if open_before(ls, i) && !blank_line(ls[i]) {
        let j = choose|j: int|
            0 <= j < i && marker_line(#[trigger] ls[j]) && forall|k: int|
                j < k < i ==> !blank_line(#[trigger] ls[k]);
        assert(marker_line(ls[j]));
        assert(open_before(ls, i + 1));
    }
    if open_before(ls, i + 1) && !marker_line(ls[i]) {
        let j = choose|j: int|
            0 <= j < i + 1 && marker_line(#[trigger] ls[j]) && forall|k: int|
                j < k < i + 1 ==> !blank_line(#[trigger] ls[k]);
        assert(j < i);
        assert(marker_line(ls[j]));
        assert(!blank_line(ls[i]));
        assert(open_before(ls, i));
    }
}

/// Whether a line belongs to a section depends on the lines up to it.
proof fn lemma_open_prefix(ls: Seq<Seq<char>>, n: int, i: int)
    requires
        0 <= i <= n <= ls.len(),
    ensures
        open_before(ls.take(n), i) == open_before(ls, i),
{
    let t = ls.take(n);
    if open_before(ls, i) {
        let j = choose|j: int|
            0 <= j < i && marker_line(#[trigger] ls[j]) && forall|k: int|
                j < k < i ==> !blank_line(#[trigger] ls[k]);
        assert(t[j] == ls[j]);
        assert forall|k: int| j < k < i implies !blank_line(#[trigger] t[k]) by {
            assert(t[k] == ls[k]);
        }
    }
    if open_before(t, i) {
        let j = choose|j: int|
            0 <= j < i && marker_line(#[trigger] t[j]) && forall|k: int|
                j < k < i ==> !blank_line(#[trigger] t[k]);
        assert(ls[j] == t[j]);
        assert forall|k: int| j < k < i implies !blank_line(#[trigger] ls[k]) by {
            assert(t[k] == ls[k]);
        }
    }
}

/// One more line: whether it closes the section that starts at line `n`.
proof fn lemma_closing_step(ls: Seq<Seq<char>>, n: int, i: int)
    requires
        0 <= n < i < ls.len(),
    ensures
        closing(ls.take(i + 1), n) == if closing(ls.take(i), n).len() > 0 {
            closing(ls.take(i), n)
        } else if blank_line(ls[i]) {
            seq![ls[i]]
        } else {
            seq![]
        },
    decreases i - n,
{
    let a = ls.take(i);
    let b = ls.take(i + 1);
    assert(b[n + 1] == ls[n + 1]);
    if n + 1 < i {
        assert(a[n + 1] == ls[n + 1]);
        if !blank_line(ls[n + 1]) {
            lemma_closing_step(ls, n + 1, i);
        }
    } else {
        assert(closing(b, n + 1) =~= seq![]);
    }
}

/// Where no line closes a section, no line behind it is empty; else it is one empty line.
proof fn lemma_closing(ls: Seq<Seq<char>>, n: int)
    requires
        0 <= n < ls.len(),
    ensures
        closing(ls, n).len() == 0 ==> forall|i: int|
            n < i < ls.len() ==> !blank_line(#[trigger] ls[i]),
        closing(ls, n).len() > 0 ==> closing(ls, n).len() == 1 && blank_line(closing(ls, n)[0]),
    decreases ls.len() - n,
{
    if n + 1 < ls.len() && !blank_line(ls[n + 1]) {
        lemma_closing(ls, n + 1);
    }
}

/// One list of lines behind another.
proof fn lemma_flattened_push(ls: Seq<Seq<char>>, line: Seq<char>)
    ensures
        flattened(ls.push(line)) == flattened(ls) + line,
{
    assert(ls.push(line).drop_last() =~= ls);
}

/// What one more line adds to the lines whose section is replaced.
proof fn lemma_replaced_step(ls: Seq<Seq<char>>, i: int, snippet: Seq<char>)
    requires
        0 <= i < ls.len(),
    ensures
        ({
            let n = first_section(ls.take(i)) as int;
            let before = replaced(ls.take(i), snippet);
            let seen = n < i;
            let closed = closing(ls.take(i), n).len() > 0;
            let m = first_section(ls.take(i + 1)) as int;
            &&& replaced(ls.take(i + 1), snippet) == if marker_line(ls[i]) {
                if seen {
                    before
                } else {
                    before + snippet
                }
            } else if open_before(ls, i) && (closed || !blank_line(ls[i])) {
                before
            } else {
                before + ls[i]
            }
            &&& (m < i + 1) == (seen || marker_line(ls[i]))
            &&& m < i + 1 ==> (closing(ls.take(i + 1), m).len() > 0) == (seen && (closed
                || blank_line(ls[i])))
        }),
{
    let a = ls.take(i);
    let b = ls.take(i + 1);
    assert(b.drop_last() =~= a);
    assert(b.last() == ls[i]);
    lemma_marker();
    lemma_first_section(a);
    lemma_first_section(b);
    lemma_open_prefix(ls, i + 1, i);
    let n = first_section(a) as int;
    if n < i {
        assert forall|j: int| 0 <= j < n implies !marker_line(#[trigger] b[j]) by {
            assert(b[j] == a[j]);
        }
        assert(b[n] == a[n]);
        lemma_first_section_is(b, n);
        assert(b.take(n) =~= a.take(n));
        lemma_closing_step(ls, n, i);
        lemma_closing(a, n);
        let head = flattened(a.take(n)) + snippet;
        if closing(a, n).len() == 0 {
            lemma_all_in_section(a, n, i);
            assert(a.take(i) =~= a);
            lemma_open_prefix(ls, i, i);
            assert(open_before(a, i)) by {
                assert(marker_line(a[n]));
            }
            assert(others(b, n) =~= seq![]);
            if blank_line(ls[i]) {
                assert(behind(a, n) =~= seq![]);
                assert(behind(b, n) =~= behind(a, n).push(ls[i]));
                lemma_flattened_push(behind(a, n), ls[i]);
                assert(head + (flattened(behind(a, n)) + ls[i]) =~= replaced(a, snippet) + ls[i]);
            } else {
                assert(behind(b, n) =~= behind(a, n));
            }
        } else if !in_section(b, i) {
            assert(behind(b, n) =~= behind(a, n).push(ls[i]));
            lemma_flattened_push(behind(a, n), ls[i]);
            assert(head + (flattened(behind(a, n)) + ls[i]) =~= replaced(a, snippet) + ls[i]);
        } else {
            assert(behind(b, n) =~= behind(a, n));
        }
    } else {
        assert forall|j: int| 0 <= j < i implies !marker_line(#[trigger] b[j]) by {
            assert(b[j] == a[j]);
        }
        assert(!open_before(ls, i)) by {
            if open_before(ls, i) {
                let j = choose|j: int|
                    0 <= j < i && marker_line(#[trigger] ls[j]) && forall|k: int|
                        j < k < i ==> !blank_line(#[trigger] ls[k]);
                assert(a[j] == ls[j]);
            }
        }
        if marker_line(ls[i]) {
            lemma_first_section_is(b, i);
            assert(b.take(i) =~= a);
            assert(others(b, i) =~= seq![]) by {
                assert(in_section(b, i));
                assert(others(b.drop_last(), i) =~= seq![]);
            }
            assert(behind(b, i) =~= seq![]);
            assert(flattened(behind(b, i)) =~= seq![]);
            assert(replaced(b, snippet) =~= flattened(a) + snippet);
        } else {
            lemma_first_section_is(b, i + 1);
        }
    }
}

/// Is the line nothing but its line ending?
fn is_blank(line: &str) -> (r: bool)
    ensures
        r == blank_line(line@),
{
    let cs: Vec<char> = chars_of(line);
    let r: bool = (cs.len() == 1 && cs[0] == '\n') || (cs.len() == 2 && cs[0] == '\r' && cs[1]
        == '\n');
    assert(r ==> line@ =~= seq!['\n'] || line@ =~= seq!['\r', '\n']);
    r
}

/// Replace the git-embed section in an existing hook file.
pub fn replace_hook_section(content: &str, new_snippet: &str) -> (r: String)
    ensures
        r@ == with_section(content@, new_snippet@),
{
    let all: Vec<String> = split_raw_lines(content);
    let ghost ls = raw_lines(content@);
    let mut r: String = String::new();
    let mut inside: bool = false;
    let mut seen: bool = false;
    let mut closed: bool = false;
    let mut i: usize = 0;
    assert(ls.take(0) =~= seq![]);
    while i < all.len()
        invariant
            i <= all@.len(),
            texts(all@) == ls,
            r@ == replaced(ls.take(i as int), new_snippet@),
            inside == open_before(ls, i as int),
            seen == (first_section(ls.take(i as int)) < i),
            seen ==> closed == (closing(
                ls.take(i as int),
                first_section(ls.take(i as int)) as int,
            ).len() > 0),
            !seen ==> !closed,
            inside ==> seen,
        decreases all@.len() - i,
    {
        assert(all@[i as int]@ == ls[i as int]);
        proof {
            lemma_marker();
            lemma_replaced_step(ls, i as int, new_snippet@);
            lemma_open_step(ls, i as int);
        }
        let line: &str = all[i].as_str();
        let blank: bool = is_blank(line);
        if has_prefix(line, HOOK_MARKER) {
            if !seen {
                r.push_str(new_snippet);
                seen = true;
            }
            inside = true;
        } else {
            if !inside || (blank && !closed) {
                r.push_str(line);
            }
            if blank {
                inside = false;
                closed = seen;
            }
        }
        i = i + 1;
    }
    assert(ls.take(i as int) =~= ls);
    r
}

/// Remove the git-embed section from a hook file.
pub fn remove_hook_section(content: &str) -> (r: String)
    ensures
        r@ == without_sections(content@),
{
    let all: Vec<String> = split_raw_lines(content);
    let ghost ls = raw_lines(content@);
    let mut r: String = String::new();
    let mut inside: bool = false;
    let mut i: usize = 0;
    assert(others(ls.take(0), 0) =~= seq![]);
    while i < all.len()
        invariant
            i <= all@.len(),
            texts(all@) == ls,
            r@ == flattened(others(ls.take(i as int), 0)),
            inside == open_before(ls, i as int),
        decreases all@.len() - i,
    {
        assert(all@[i as int]@ == ls[i as int]);
        proof {
            lemma_open_step(ls, i as int);
            lemma_open_prefix(ls, i + 1, i as int);
            assert(ls.take(i + 1).drop_last() =~= ls.take(i as int));
            lemma_flattened_push(others(ls.take(i as int), 0), ls[i as int]);
        }
        let line: &str = all[i].as_str();
        if has_prefix(line, HOOK_MARKER) {
            inside = true;
        } else if inside {
            if is_blank(line) {
                inside = false;
            }
        } else {
            r.push_str(line);
        }
        i = i + 1;
    }
    assert(ls.take(i as int) =~= ls);
    r
}

/// Does the hook file hold a section?
fn holds_section(content: &str) -> (r: bool)
    ensures
        r == has_section(content@),
{
    let all: Vec<String> = split_raw_lines(content);
    let mut i: usize = 0;
    while i < all.len()
        invariant
            i <= all@.len(),
            texts(all@) == raw_lines(content@),
            forall|k: int| 0 <= k < i ==> !marker_line(#[trigger] raw_lines(content@)[k]),
        decreases all@.len() - i,
    {
        assert(all@[i as int]@ == raw_lines(content@)[i as int]);
        if has_prefix(all[i].as_str(), HOOK_MARKER) {
            return true;
        }
        i = i + 1;
    }
    false
}

// ---------------------------------------------------------------------------
// Installing
// ---------------------------------------------------------------------------

/// What becomes of a hook file when the hook is installed.
#[derive(Clone, Copy, PartialEq, Eq, Structural, Debug)]
pub enum Installed {
    Created,
    Updated,
    Appended,
}

impl Installed {
    /// The line that reports what became of the hook.
    pub fn message(&self, name: &str) -> (r: String)
        ensures
            r@ == (match self {
                Installed::Created => "  Created "@,
                Installed::Updated => "  Updated "@,
                Installed::Appended => "  Appended to existing "@,
            }) + name@,
    {
        match self {
            Installed::Created => concat("  Created ", name),
            Installed::Updated => concat("  Updated ", name),
            Installed::Appended => concat("  Appended to existing ", name),
        }
    }
}

/// The text with a finished last line.
pub open spec fn finished(c: Seq<char>) -> Seq<char> {
    if c.len() > 0 && c.last() == '\n' {
        c
    } else {
        c.push('\n')
    }
}

/// What installing a hook does to a hook file.
pub open spec fn install_kind(existing: Option<Seq<char>>) -> Installed {
    match existing {
        None => Installed::Created,
        Some(c) => if has_section(c) {
            Installed::Updated
        } else {
            Installed::Appended
        },
    }
}

/// The contents of the hook file after the hook is installed.
pub open spec fn install_text(existing: Option<Seq<char>>, snippet: Seq<char>) -> Seq<char> {
    match existing {
        None => SHEBANG@.push('\n') + snippet,
        Some(c) => if has_section(c) {
            with_section(c, snippet)
        } else {
            finished(c).push('\n') + snippet
        },
    }
}

/// The contents of a hook file, if there is one.
pub open spec fn contents(existing: Option<&str>) -> Option<Seq<char>> {
    match existing {
        Some(c) => Some(c@),
        None => None,
    }
}

/// Does the text end with a line feed?
fn ends_with_newline(s: &str) -> (r: bool)
    ensures
        r == (s@.len() > 0 && s@.last() == '\n'),
{
    let cs: Vec<char> = chars_of(s);
    cs.len() > 0 && cs[cs.len() - 1] == '\n'
}

/// Install a hook that invokes `subcmd`: a new file is created, the section of an earlier
/// installation is replaced, and to a hook of something else the section is appended.
/// Gives the new contents of the hook file.
pub fn install_hook(existing: Option<&str>, subcmd: &str) -> (r: (Installed, String))
    ensures
        r.0 == install_kind(contents(existing)),
        r.1@ == install_text(contents(existing), hook_text(subcmd@)),
{
    let snippet: String = hook_snippet(subcmd);
    match existing {
        None => {
            let mut content: String = SHEBANG.to_string();
            content.push('\n');
            content.push_str(snippet.as_str());
            (Installed::Created, content)
        },
        Some(c) => if holds_section(c) {
            (Installed::Updated, replace_hook_section(c, snippet.as_str()))
        } else {
            let mut content: String = c.to_string();
            if !ends_with_newline(c) {
                content.push('\n');
            }
            content.push('\n');
            content.push_str(snippet.as_str());
            (Installed::Appended, content)
        },
    }
}

// ---------------------------------------------------------------------------
// Uninstalling
// ---------------------------------------------------------------------------

/// What becomes of a hook file when the hook is uninstalled.
#[derive(Debug)]
pub enum Uninstalled {
    /// The file holds no section: it stays as it is.
    Untouched,
    /// Nothing but the section was in the file: it goes.
    Removed,
    /// Other content remains.
    Cleaned(String),
}

/// What becomes of the contents of a hook file.
pub enum Remains {
    Untouched,
    Removed,
    Cleaned(Seq<char>),
}

impl View for Uninstalled {
    type V = Remains;

    open spec fn view(&self) -> Remains {
        match self {
            Uninstalled::Untouched => Remains::Untouched,
            Uninstalled::Removed => Remains::Removed,
            Uninstalled::Cleaned(c) => Remains::Cleaned(c@),
        }
    }
}

impl Uninstalled {
    /// The line that reports what became of the hook, if there is anything to report.
    pub fn message(&self, name: &str) -> (r: Option<String>)
        ensures
            match self {
                Uninstalled::Untouched => r is None,
                Uninstalled::Removed => r matches Some(m) && m@ == "  Removed "@ + name@,
                Uninstalled::Cleaned(_) => r matches Some(m) && m@
                    == "  Cleaned git-embed section from "@ + name@,
            },
    {
        match self {
            Uninstalled::Untouched => None,
            Uninstalled::Removed => Some(concat("  Removed ", name)),
            Uninstalled::Cleaned(_) => Some(concat("  Cleaned git-embed section from ", name)),
        }
    }
}

/// What remains of a hook file after the hook is uninstalled.
pub open spec fn uninstall_text(existing: Option<Seq<char>>) -> Remains {
    match existing {
        None => Remains::Untouched,
        Some(c) => if !has_section(c) {
            Remains::Untouched
        } else {
            let cleaned = without_sections(c);
            if trim(cleaned).len() == 0 || trim(cleaned) == SHEBANG@ {
                Remains::Removed
            } else {
                Remains::Cleaned(cleaned)
            }
        },
    }
}

/// Uninstall a hook: its sections are removed, and so is the file if nothing else is left
/// in it.
pub fn uninstall_hook(existing: Option<&str>) -> (r: Uninstalled)
    ensures
        r@ == uninstall_text(contents(existing)),
{
    match existing {
        None => Uninstalled::Untouched,
        Some(c) => {
            if !holds_section(c) {
                return Uninstalled::Untouched;
            }
            let cleaned: String = remove_hook_section(c);
            let rest: String = trimmed(cleaned.as_str());
            if rest.as_str().is_empty() || same_text(rest.as_str(), SHEBANG) {
                Uninstalled::Removed
            } else {
                Uninstalled::Cleaned(cleaned)
            }
        },
    }
}

/// The closing line of an uninstallation that changed `removed` hooks.
pub fn uninstall_summary(removed: usize) -> (r: &'static str)
    ensures
        r@ == (if removed == 0 {
            "No git-embed hooks found."@
        } else {
            "Hooks removed."@
        }),
{
    if removed == 0 {
        "No git-embed hooks found."
    } else {
        "Hooks removed."
    }
}

// ---------------------------------------------------------------------------
// Status
// ---------------------------------------------------------------------------

/// Does the hook file, if there is one, hold a section?
pub open spec fn is_installed(existing: Option<String>) -> bool {
    match existing {
        Some(c) => has_section(c@),
        None => false,
    }
}

/// The names of the hooks whose place is marked with `flag`.
pub open spec fn names_where(marks: Seq<bool>, flag: bool) -> Seq<Seq<char>>
    decreases marks.len(),
{
    if marks.len() == 0 {
        seq![]
    } else if marks.last() == flag {
        names_where(marks.drop_last(), flag).push(hook_list()[marks.len() - 1].0)
    } else {
        names_where(marks.drop_last(), flag)
    }
}

/// Which of the hook files hold a section?
pub open spec fn marks(files: Seq<Option<String>>) -> Seq<bool> {
    Seq::new(files.len(), |i: int| is_installed(files[i]))
}

/// The names of the hooks that are installed, or of those that are not, given the contents
/// of the hook files in the order of the hooks.
fn hook_names(files: &Vec<Option<String>>, flag: bool) -> (r: Vec<String>)
    requires
        files@.len() == hook_list().len(),
    ensures
        texts(r@) == names_where(marks(files@), flag),
{
    let list: Vec<(&'static str, &'static str)> = hooks();
    let mut r: Vec<String> = Vec::new();
    let mut i: usize = 0;
    let ghost all = marks(files@);
    while i < files.len()
        invariant
            i <= files@.len() == list@.len() == hook_list().len(),
            all == marks(files@),
            forall|k: int| 0 <= k < list@.len() ==> (#[trigger] list@[k]).0@ == hook_list()[k].0,
            texts(r@) == names_where(all.take(i as int), flag),
        decreases files@.len() - i,
    {
        let marked: bool = match &files[i] {
            Some(c) => holds_section(c.as_str()),
            None => false,
        };
        let ghost before = r@;
        assert(all.take(i + 1).drop_last() =~= all.take(i as int));
        assert(marked == all[i as int]);
        if marked == flag {
            r.push(list[i].0.to_string());
            assert(texts(r@) =~= texts(before).push(hook_list()[i as int].0));
        }
        i = i + 1;
    }
    assert(all.take(i as int) =~= all);
    r
}

/// The names of the installed hooks, given the contents of the hook files in the order of
/// the hooks.
pub fn hooks_installed(files: &Vec<Option<String>>) -> (r: Vec<String>)
    requires
        files@.len() == hook_list().len(),
    ensures
        texts(r@) == names_where(marks(files@), true),
{
    hook_names(files, true)
}

/// The status line about the hooks.
pub open spec fn hooks_text(marks: Seq<bool>) -> Seq<char> {
    let on = names_where(marks, true);
    if on.len() == hook_list().len() {
        "Hooks:   installed ("@ + join(on, ", "@) + ")"@
    } else if on.len() == 0 {
        "Hooks:   not installed (run `git embed install`)"@
    } else {
        "Hooks:   partial (missing: "@ + join(names_where(marks, false), ", "@) + ")"@
    }
}

/// The status line about the hooks, given the contents of the hook files in the order of
/// the hooks.
pub fn hooks_status(files: &Vec<Option<String>>) -> (r: String)
    requires
        files@.len() == hook_list().len(),
    ensures
        r@ == hooks_text(marks(files@)),
{
    let installed: Vec<String> = hook_names(files, true);
    assert(texts(installed@).len() == installed@.len());
    if installed.len() == files.len() {
        let names: String = join_strings(&installed, ", ");
        let mut r: String = concat("Hooks:   installed (", names.as_str());
        r.push_str(")");
        r
    } else if installed.len() == 0 {
        "Hooks:   not installed (run `git embed install`)".to_string()
    } else {
        let missing: Vec<String> = hook_names(files, false);
        let names: String = join_strings(&missing, ", ");
        let mut r: String = concat("Hooks:   partial (missing: ", names.as_str());
        r.push_str(")");
        r
    }
}

// ---------------------------------------------------------------------------
// Laws
// ---------------------------------------------------------------------------

/// The lines of the snippet that the hooks get.
spec fn snippet_lines() -> Seq<Seq<char>> {
    seq![
        HOOK_MARKER@.push('\n'),
        "command -v git-embed >/dev/null 2>&1 || exit 0\n"@,
        "git embed update >/dev/null 2>&1 &\n"@,
    ]
}

/// The snippet that the hooks get, line by line.
proof fn lemma_snippet()
    ensures
        hook_text("update"@) == flattened(snippet_lines()),
        well_cut(snippet_lines()),
        snippet_lines()[2].last() == '\n',
        marker_line(snippet_lines()[0]),
        forall|i: int| 1 <= i < 3 ==> !blank_line(#[trigger] snippet_lines()[i]) && !marker_line(
            snippet_lines()[i],
        ),
{
    reveal_strlit("# git-embed");
    reveal_strlit("update");
    reveal_strlit("\ncommand -v git-embed >/dev/null 2>&1 || exit 0\ngit embed ");
    reveal_strlit(" >/dev/null 2>&1 &\n");
    reveal_strlit("command -v git-embed >/dev/null 2>&1 || exit 0\n");
    reveal_strlit("git embed update >/dev/null 2>&1 &\n");
    let sl = snippet_lines();
    reveal_with_fuel(flattened, 4);
    assert(sl.drop_last() =~= seq![sl[0], sl[1]]);
    assert(seq![sl[0], sl[1]].drop_last() =~= seq![sl[0]]);
    assert(seq![sl[0]].drop_last() =~= seq![]);
    assert(hook_text("update"@) =~= flattened(sl));
    assert(sl[1][0] != HOOK_MARKER@[0]);
    assert(sl[2][0] != HOOK_MARKER@[0]);
    assert(sl[0].take(HOOK_MARKER@.len() as int) =~= HOOK_MARKER@);
}

/// The lines outside the sections are lines of the file, in order, and no section starts at
/// them.
proof fn lemma_others(ls: Seq<Seq<char>>, from: int, i: int) -> (k: int)
    requires
        0 <= i < others(ls, from).len(),
    ensures
        0 <= k < ls.len(),
        i < others(ls, from).len() - 1 ==> k < ls.len() - 1,
        ls[k] == others(ls, from)[i],
        !marker_line(ls[k]),
    decreases ls.len(),
{
    let front = others(ls.drop_last(), from);
    if i < front.len() {
        let k = lemma_others(ls.drop_last(), from, i);
        assert(ls[k] == others(ls, from)[i]);
        k
    } else {
        ls.len() - 1
    }
}

/// Before the first section every line is outside the sections.
proof fn lemma_others_split(ls: Seq<Seq<char>>, n: int)
    requires
        0 <= n <= ls.len(),
        forall|i: int| 0 <= i < n ==> !marker_line(#[trigger] ls[i]),
    ensures
        others(ls, 0) == ls.take(n) + others(ls, n),
    decreases ls.len(),
{
    if ls.len() > 0 {
        let front = ls.drop_last();
        if n == ls.len() {
            assert forall|i: int| 0 <= i < n - 1 implies !marker_line(#[trigger] front[i]) by {
                assert(front[i] == ls[i]);
            }
            lemma_others_split(front, n - 1);
            assert(!in_section(ls, n - 1));
            assert(front.take(n - 1) =~= front);
            assert(others(front, n - 1) =~= seq![]);
            assert(ls.take(n) =~= front.push(ls.last()));
            assert(others(ls, 0) =~= ls.take(n) + others(ls, n));
        } else {
            assert forall|i: int| 0 <= i < n implies !marker_line(#[trigger] front[i]) by {
                assert(front[i] == ls[i]);
            }
            lemma_others_split(front, n);
            assert(front.take(n) =~= ls.take(n));
            assert(others(ls, 0) =~= ls.take(n) + others(ls, n));
        }
    } else {
        assert(others(ls, 0) =~= ls.take(n) + others(ls, n));
    }
}

/// Without an empty line a section goes on to the end.
proof fn lemma_all_in_section(ls: Seq<Seq<char>>, n: int, end: int)
    requires
        0 <= n < ls.len(),
        n <= end <= ls.len(),
        marker_line(ls[n]),
        forall|i: int| n < i < ls.len() ==> !blank_line(#[trigger] ls[i]),
    ensures
        others(ls.take(end), n) == Seq::<Seq<char>>::empty(),
    decreases end,
{
    let t = ls.take(end);
    if end > n {
        lemma_all_in_section(ls, n, end - 1);
        assert(t.drop_last() =~= ls.take(end - 1));
        lemma_open_prefix(ls, end, end - 1);
        if end - 1 > n {
            assert(open_before(ls, end - 1)) by {
                assert(marker_line(ls[n]));
            }
        } else {
            assert(t[end - 1] == ls[n]);
        }
        assert(in_section(t, end - 1));
    }
}

/// A section at the end of the file, behind lines without a marker.
proof fn lemma_last_section(pre: Seq<Seq<char>>, sec: Seq<Seq<char>>, snippet: Seq<char>)
    requires
        forall|i: int| 0 <= i < pre.len() ==> !marker_line(#[trigger] pre[i]),
        sec.len() > 0,
        marker_line(sec[0]),
        forall|i: int| 1 <= i < sec.len() ==> !blank_line(#[trigger] sec[i]),
    ensures
        replaced(pre + sec, snippet) == flattened(pre) + snippet,
        others(pre + sec, 0) == pre,
{
    let ls = pre + sec;
    let n = pre.len() as int;
    assert forall|i: int| 0 <= i < n implies !marker_line(#[trigger] ls[i]) by {
        assert(ls[i] == pre[i]);
    }
    assert(ls[n] == sec[0]);
    lemma_first_section_is(ls, n);
    assert(ls.take(n) =~= pre);
    assert forall|i: int| n < i < ls.len() implies !blank_line(#[trigger] ls[i]) by {
        assert(ls[i] == sec[i - n]);
    }
    lemma_no_closing(ls, n);
    lemma_all_in_section(ls, n, ls.len() as int);
    assert(ls.take(ls.len() as int) =~= ls);
    assert(behind(ls, n) =~= seq![]);
    assert(flattened(behind(ls, n)) =~= seq![]);
    assert(flattened(pre) + snippet + flattened(behind(ls, n)) =~= flattened(pre) + snippet);
    lemma_others_split(ls, n);
    assert(others(ls, 0) =~= pre);
}

/// Without an empty line nothing closes a section.
proof fn lemma_no_closing(ls: Seq<Seq<char>>, n: int)
    requires
        0 <= n,
        forall|i: int| n < i < ls.len() ==> !blank_line(#[trigger] ls[i]),
    ensures
        closing(ls, n) == Seq::<Seq<char>>::empty(),
    decreases ls.len() - n,
{
    if n + 1 < ls.len() {
        lemma_no_closing(ls, n + 1);
    }
}

/// Behind an empty line, lines without a marker belong to no section.
proof fn lemma_free_lines(ls: Seq<Seq<char>>, m: int)
    requires
        0 < m <= ls.len(),
        blank_line(ls[m - 1]),
        forall|i: int| m <= i < ls.len() ==> !marker_line(#[trigger] ls[i]),
    ensures
        others(ls, m) == ls.skip(m),
    decreases ls.len(),
{
    if m < ls.len() {
        let front = ls.drop_last();
        let last = ls.len() - 1;
        assert forall|i: int| m <= i < front.len() implies !marker_line(#[trigger] front[i]) by {
            assert(front[i] == ls[i]);
        }
        assert(front[m - 1] == ls[m - 1]);
        lemma_free_lines(front, m);
        lemma_marker();
        assert(!open_before(ls, last)) by {
            if open_before(ls, last) {
                let j = choose|j: int|
                    0 <= j < last && marker_line(#[trigger] ls[j]) && forall|k: int|
                        j < k < last ==> !blank_line(#[trigger] ls[k]);
                assert(blank_line(ls[m - 1]));
            }
        }
        assert(!marker_line(ls[last]));
        assert(others(ls, m) =~= ls.skip(m));
    } else {
        assert(others(ls, m) =~= ls.skip(m));
    }
}

/// Lines of a section at the start do not count.
proof fn lemma_others_skip(ls: Seq<Seq<char>>, from: int, to: int)
    requires
        0 <= from <= to <= ls.len(),
        forall|i: int| from <= i < to ==> in_section(ls, i),
    ensures
        others(ls, from) == others(ls, to),
    decreases ls.len(),
{
    if ls.len() > from {
        let front = ls.drop_last();
        let n = ls.len() - 1;
        let end = if to <= n {
            to
        } else {
            n
        };
        assert forall|i: int| from <= i < end implies in_section(front, i) by {
            assert(in_section(ls, i));
            assert(front[i] == ls[i]);
            assert(front =~= ls.take(n));
            lemma_open_prefix(ls, n, i);
        }
        lemma_others_skip(front, from, end);
        if to == ls.len() {
            assert(in_section(ls, n));
        }
    }
}

/// The lines outside the sections are cut as the lines of the file are.
proof fn lemma_others_cut(ls: Seq<Seq<char>>, from: int)
    requires
        well_cut(ls),
    ensures
        well_cut(others(ls, from)),
{
    let rest = others(ls, from);
    assert forall|i: int| 0 <= i < rest.len() implies {
        &&& (#[trigger] rest[i]).len() > 0
        &&& forall|j: int| 0 <= j < rest[i].len() - 1 ==> rest[i][j] != '\n'
        &&& i < rest.len() - 1 ==> rest[i].last() == '\n'
    } by {
        let k = lemma_others(ls, from, i);
        assert(ls[k] == rest[i]);
    }
}

/// Finished lines before other lines.
proof fn lemma_cut_concat(a: Seq<Seq<char>>, b: Seq<Seq<char>>)
    requires
        well_cut(a),
        a.len() > 0 ==> a.last().last() == '\n',
        well_cut(b),
    ensures
        well_cut(a + b),
{
    let ab = a + b;
    assert forall|i: int| 0 <= i < ab.len() implies {
        &&& (#[trigger] ab[i]).len() > 0
        &&& forall|j: int| 0 <= j < ab[i].len() - 1 ==> ab[i][j] != '\n'
        &&& i < ab.len() - 1 ==> ab[i].last() == '\n'
    } by {
        if i < a.len() {
            assert(ab[i] == a[i]);
            assert(i == a.len() - 1 ==> ab[i] == a.last());
        } else {
            assert(ab[i] == b[i - a.len()]);
        }
    }
}

/// A hook file is its lines put together: a line that stays keeps every character.
pub proof fn law_lines_make_up_the_file(c: Seq<char>)
    ensures
        flattened(raw_lines(c)) == c,
{
    lemma_raw_lines(c);
}

/// Removing the sections leaves exactly the lines outside of them: cut into lines again, the
/// file holds these and no others.
pub proof fn law_removal_keeps_other_lines(c: Seq<char>)
    ensures
        raw_lines(without_sections(c)) == others(raw_lines(c), 0),
{
    lemma_raw_lines(c);
    lemma_others_cut(raw_lines(c), 0);
    lemma_cut_again(others(raw_lines(c), 0));
}

/// After uninstalling no section is left: no line of the file starts with the marker.
pub proof fn law_removal_leaves_no_section(c: Seq<char>)
    ensures
        !has_section(without_sections(c)),
{
    let after = raw_lines(without_sections(c));
    law_removal_keeps_other_lines(c);
    assert forall|i: int| 0 <= i < after.len() implies !marker_line(#[trigger] after[i]) by {
        let k = lemma_others(raw_lines(c), 0, i);
    }
}

/// Without a section, replacing or removing the section leaves a file as it is.
pub proof fn law_no_marker_unchanged(c: Seq<char>, snippet: Seq<char>)
    requires
        !has_section(c),
    ensures
        with_section(c, snippet) == c,
        without_sections(c) == c,
{
    let ls = raw_lines(c);
    let n = ls.len() as int;
    lemma_raw_lines(c);
    lemma_first_section_is(ls, n);
    lemma_others_split(ls, n);
    assert(ls.take(n) =~= ls);
    assert(others(ls, n) =~= seq![]);
    assert(others(ls, 0) =~= ls);
}

/// What follows the first section is cut into lines.
proof fn lemma_behind_cut(ls: Seq<Seq<char>>, n: int)
    requires
        well_cut(ls),
        0 <= n < ls.len(),
    ensures
        well_cut(behind(ls, n)),
{
    let c = closing(ls, n);
    lemma_closing(ls, n);
    lemma_others_cut(ls, n);
    if c.len() > 0 {
        assert(c.last() == c[0]);
        assert(well_cut(c));
    }
    lemma_cut_concat(c, others(ls, n));
}

/// No section starts at the lines that follow the first one.
proof fn lemma_behind_unmarked(ls: Seq<Seq<char>>, n: int, i: int)
    requires
        0 <= n < ls.len(),
        0 <= i < behind(ls, n).len(),
    ensures
        !marker_line(behind(ls, n)[i]),
{
    let c = closing(ls, n);
    lemma_closing(ls, n);
    lemma_marker();
    if i < c.len() {
        assert(behind(ls, n)[i] == c[0]);
    } else {
        let k = lemma_others(ls, n, i - c.len());
        assert(behind(ls, n)[i] == ls[k]);
    }
}

/// The lines of an updated file.
proof fn lemma_update_lines(c: Seq<char>)
    requires
        has_section(c),
    ensures
        ({
            let ls = raw_lines(c);
            let n = first_section(ls) as int;
            let once = install_text(Some(c), hook_text("update"@));
            &&& n < ls.len()
            &&& marker_line(ls[n])
            &&& once == flattened(ls.take(n)) + hook_text("update"@) + flattened(behind(ls, n))
            &&& raw_lines(once) == ls.take(n) + snippet_lines() + behind(ls, n)
        }),
{
    let snip = hook_text("update"@);
    let sl = snippet_lines();
    let ls = raw_lines(c);
    let n = first_section(ls) as int;
    let pre = ls.take(n);
    let post = behind(ls, n);
    lemma_first_section(ls);
    lemma_snippet();
    lemma_raw_lines(c);
    assert forall|i: int| 0 <= i < pre.len() implies {
        &&& (#[trigger] pre[i]).len() > 0
        &&& forall|j: int| 0 <= j < pre[i].len() - 1 ==> pre[i][j] != '\n'
        &&& pre[i].last() == '\n'
    } by {
        assert(pre[i] == ls[i]);
    }
    assert(well_cut(pre));
    lemma_cut_concat(pre, sl);
    lemma_behind_cut(ls, n);
    assert((pre + sl).last() == sl[2]);
    lemma_cut_concat(pre + sl, post);
    lemma_flattened_concat(pre, sl);
    lemma_flattened_concat(pre + sl, post);
    lemma_cut_again(pre + sl + post);
}

/// The sections of an updated file.
proof fn lemma_update(c: Seq<char>)
    requires
        has_section(c),
    ensures
        ({
            let ls = raw_lines(c);
            let n = first_section(ls) as int;
            let once = install_text(Some(c), hook_text("update"@));
            let after = raw_lines(once);
            &&& first_section(after) == n
            &&& n < after.len()
            &&& after.take(n) == ls.take(n)
            &&& behind(after, n) == behind(ls, n)
            &&& others(after, 0) == others(ls, 0)
            &&& has_section(once)
        }),
{
    let sl = snippet_lines();
    let ls = raw_lines(c);
    let n = first_section(ls) as int;
    let rest = others(ls, n);
    let post = behind(ls, n);
    let after = raw_lines(install_text(Some(c), hook_text("update"@)));
    lemma_update_lines(c);
    lemma_snippet();
    lemma_first_section(ls);
    lemma_closing(ls, n);
    assert forall|i: int| 0 <= i < n implies !marker_line(#[trigger] after[i]) by {
        assert(after[i] == ls[i]);
    }
    assert(after[n] == sl[0] && after[n + 1] == sl[1] && after[n + 2] == sl[2]);
    lemma_first_section_is(after, n);
    assert(after.take(n) =~= ls.take(n));
    if closing(ls, n).len() > 0 {
        assert(after[n + 3] == post[0]);
        assert(post[0] == closing(ls, n)[0]);
        reveal_with_fuel(closing, 3);
        assert(closing(after, n) =~= closing(ls, n));
        assert forall|i: int| n <= i < n + 4 implies in_section(after, i) by {
            if i > n {
                assert(marker_line(after[n]));
                assert(open_before(after, i));
            }
        }
        lemma_others_skip(after, n, n + 4);
        assert forall|i: int| n + 4 <= i < after.len() implies !marker_line(
            #[trigger] after[i],
        ) by {
            assert(after[i] == post[i - n - 3]);
            lemma_behind_unmarked(ls, n, i - n - 3);
        }
        lemma_free_lines(after, n + 4);
        assert(after.skip(n + 4) =~= rest);
    } else {
        assert(ls.take(ls.len() as int) =~= ls);
        lemma_all_in_section(ls, n, ls.len() as int);
        assert(post =~= seq![]);
        assert(after.take(after.len() as int) =~= after);
        assert forall|i: int| n < i < after.len() implies !blank_line(#[trigger] after[i]) by {
            assert(after[i] == sl[i - n]);
        }
        lemma_all_in_section(after, n, after.len() as int);
        lemma_no_closing(after, n);
    }
    assert(marker_line(after[n]));
    lemma_others_split(ls, n);
    lemma_others_split(after, n);
}

/// After an update exactly one section is left: of a file with a section, exactly one line
/// starts with the marker once the section is replaced.
pub proof fn law_update_leaves_one_section(c: Seq<char>)
    requires
        has_section(c),
    ensures
        exists|n: int|
            #![trigger raw_lines(install_text(Some(c), hook_text("update"@)))[n]]
            {
                let after = raw_lines(install_text(Some(c), hook_text("update"@)));
                &&& 0 <= n < after.len()
                &&& marker_line(after[n])
                &&& forall|i: int| 0 <= i < after.len() && i != n ==> !marker_line(#[trigger] after[i])
            },
{
    let ls = raw_lines(c);
    let sl = snippet_lines();
    let n = first_section(ls) as int;
    let after = raw_lines(install_text(Some(c), hook_text("update"@)));
    lemma_update_lines(c);
    lemma_snippet();
    lemma_first_section(ls);
    assert(after[n] == sl[0]);
    assert forall|i: int| 0 <= i < after.len() && i != n implies !marker_line(
        #[trigger] after[i],
    ) by {
        if i < n {
            assert(after[i] == ls[i]);
        } else if i < n + 3 {
            assert(after[i] == sl[i - n]);
        } else {
            assert(after[i] == behind(ls, n)[i - n - 3]);
            lemma_behind_unmarked(ls, n, i - n - 3);
        }
    }
}

/// The shebang line.
proof fn lemma_shebang()
    ensures
        ({
            let pre = seq![SHEBANG@.push('\n')];
            &&& flattened(pre) == SHEBANG@.push('\n')
            &&& well_cut(pre)
            &&& !marker_line(pre[0])
        }),
        trim(SHEBANG@.push('\n')) == SHEBANG@,
{
    let head = SHEBANG@.push('\n');
    let pre = seq![head];
    reveal_strlit("#!/bin/sh");
    reveal_strlit("# git-embed");
    lemma_flattened_one(head);
    assert(head[1] != HOOK_MARKER@[1]);
    assert(trim_start(head) == head);
    assert(head.drop_last() =~= SHEBANG@);
    assert(trim_end(SHEBANG@) == SHEBANG@);
}

/// Installing into a hook of something else keeps its content: the new file starts with
/// the old one and ends with the snippet.
pub proof fn law_append_keeps_content(c: Seq<char>, snippet: Seq<char>)
    requires
        !has_section(c),
    ensures
        c.is_prefix_of(install_text(Some(c), snippet)),
        snippet.is_suffix_of(install_text(Some(c), snippet)),
        install_kind(Some(c)) == Installed::Appended,
{
}

/// A freshly created hook, line by line.
proof fn lemma_created()
    ensures
        ({
            let once = install_text(None, hook_text("update"@));
            &&& raw_lines(once) == seq![SHEBANG@.push('\n')] + snippet_lines()
            &&& has_section(once)
        }),
{
    let pre = seq![SHEBANG@.push('\n')];
    let sl = snippet_lines();
    let once = install_text(None, hook_text("update"@));
    lemma_snippet();
    lemma_shebang();
    assert(pre.last() == pre[0]);
    lemma_cut_concat(pre, sl);
    lemma_flattened_concat(pre, sl);
    lemma_cut_again(pre + sl);
    assert(marker_line(raw_lines(once)[1]));
}

/// Uninstalling a freshly created hook removes the file.
pub proof fn law_uninstall_after_create()
    ensures
        uninstall_text(Some(install_text(None, hook_text("update"@)))) is Removed,
{
    lemma_created();
    lemma_snippet();
    lemma_shebang();
    lemma_last_section(seq![SHEBANG@.push('\n')], snippet_lines(), seq![]);
}

/// The lines of a text without a section stay without one once the last is finished.
proof fn lemma_finished(c: Seq<char>)
    requires
        !has_section(c),
    ensures
        ({
            let ls = raw_lines(finished(c));
            &&& ls.len() > 0
            &&& ls.last().last() == '\n'
            &&& forall|i: int| 0 <= i < ls.len() ==> !marker_line(#[trigger] ls[i])
        }),
{
    let rc = raw_lines(c);
    let f = finished(c);
    lemma_raw_lines(c);
    lemma_raw_lines(f);
    assert(raw_lines(f).len() > 0 && f.last() == raw_lines(f).last().last()) by {
        let ls = raw_lines(f);
        assert(ls.len() > 0);
        assert(ls[ls.len() - 1].len() > 0);
        assert(f == flattened(ls.drop_last()) + ls.last());
    }
    if f != c {
        let line = if c.len() == 0 {
            seq!['\n']
        } else {
            rc.last().push('\n')
        };
        let front = if c.len() == 0 {
            seq![]
        } else {
            rc.drop_last()
        };
        let rf = front.push(line);
        lemma_marker();
        lemma_flattened_push(front, line);
        assert(flattened(rf) =~= f);
        assert forall|i: int| 0 <= i < rf.len() implies {
            &&& (#[trigger] rf[i]).len() > 0
            &&& forall|j: int| 0 <= j < rf[i].len() - 1 ==> rf[i][j] != '\n'
            &&& i < rf.len() - 1 ==> rf[i].last() == '\n'
            &&& !marker_line(rf[i])
        } by {
            if c.len() > 0 {
                assert(rc[i].len() > 0);
                if i < rf.len() - 1 {
                    assert(rf[i] == rc[i]);
                } else {
                    let last = rc.last();
                    assert(last == rc[i]);
                    assert(c == flattened(rc.drop_last()) + last);
                    assert(last.last() == c.last());
                    if marker_line(rf[i]) {
                        let m = HOOK_MARKER@;
                        if m.len() == rf[i].len() {
                            assert(m[m.len() - 1] == rf[i][m.len() - 1]);
                        }
                        assert(last.take(m.len() as int) =~= rf[i].take(m.len() as int));
                    }
                }
            }
        }
        lemma_cut_again(rf);
    }
}

/// A finished file followed by an empty line and the snippet.
proof fn lemma_appended(c: Seq<char>)
    requires
        !has_section(c),
    ensures
        ({
            let pre = raw_lines(finished(c)).push(seq!['\n']);
            let all = install_text(Some(c), hook_text("update"@));
            &&& flattened(pre) == finished(c).push('\n')
            &&& raw_lines(all) == pre + snippet_lines()
            &&& has_section(all)
            &&& forall|i: int| 0 <= i < pre.len() ==> !marker_line(#[trigger] pre[i])
        }),
{
    let sl = snippet_lines();
    let f = finished(c);
    let blank = seq!['\n'];
    let pre = raw_lines(f).push(blank);
    let all = install_text(Some(c), hook_text("update"@));
    lemma_snippet();
    lemma_marker();
    lemma_raw_lines(f);
    lemma_finished(c);
    lemma_flattened_push(raw_lines(f), blank);
    assert(flattened(pre) =~= f.push('\n'));
    assert(well_cut(seq![blank]));
    lemma_cut_concat(raw_lines(f), seq![blank]);
    assert(pre =~= raw_lines(f) + seq![blank]);
    lemma_cut_concat(pre, sl);
    lemma_flattened_concat(pre, sl);
    lemma_cut_again(pre + sl);
    assert(marker_line(raw_lines(all)[pre.len() as int]));
}

/// Uninstalling a hook that was appended to other content keeps that content, finished, and
/// the empty line behind it; the file goes only if there is nothing but blanks, or nothing
/// but the shebang, in it.
pub proof fn law_uninstall_after_append(c: Seq<char>)
    requires
        !has_section(c),
    ensures
        ({
            let kept = finished(c).push('\n');
            uninstall_text(Some(install_text(Some(c), hook_text("update"@)))) == if trim(
                kept,
            ).len() == 0 || trim(kept) == SHEBANG@ {
                Remains::Removed
            } else {
                Remains::Cleaned(kept)
            }
        }),
{
    lemma_appended(c);
    lemma_snippet();
    lemma_last_section(raw_lines(finished(c)).push(seq!['\n']), snippet_lines(), seq![]);
}

/// Uninstalling undoes an update: what remains is what remained without the update.
pub proof fn law_uninstall_after_update(c: Seq<char>)
    requires
        has_section(c),
    ensures
        without_sections(install_text(Some(c), hook_text("update"@))) == without_sections(c),
        uninstall_text(Some(install_text(Some(c), hook_text("update"@)))) == uninstall_text(
            Some(c),
        ),
{
    lemma_update(c);
}

/// Installing is idempotent: installing twice is the same as installing once.
pub proof fn law_install_twice(existing: Option<Seq<char>>)
    ensures
        ({
            let once = install_text(existing, hook_text("update"@));
            install_text(Some(once), hook_text("update"@)) == once
        }),
{
    let snip = hook_text("update"@);
    let sl = snippet_lines();
    lemma_snippet();
    match existing {
        None => {
            lemma_created();
            lemma_shebang();
            lemma_last_section(seq![SHEBANG@.push('\n')], sl, snip);
        },
        Some(c) => if has_section(c) {
            lemma_update_lines(c);
            lemma_update(c);
        } else {
            lemma_appended(c);
            lemma_last_section(raw_lines(finished(c)).push(seq!['\n']), sl, snip);
        },
    }
}

/// The hook file after `times` installations.
pub open spec fn installed(c: Seq<char>, times: nat) -> Seq<char>
    decreases times,
{
    if times == 0 {
        c
    } else {
        install_text(Some(installed(c, (times - 1) as nat)), hook_text("update"@))
    }
}

/// Installing any number of times is the same as installing once.
pub proof fn law_installs_repeat(c: Seq<char>, times: nat)
    requires
        times > 0,
    ensures
        installed(c, times) == install_text(Some(c), hook_text("update"@)),
    decreases times,
{
    reveal_with_fuel(installed, 2);
    if times > 1 {
        law_installs_repeat(c, (times - 1) as nat);
        law_install_twice(Some(c));
    }
}

// ---------------------------------------------------------------------------
// Laws on hook files
// ---------------------------------------------------------------------------

/// There are three hooks: after a commit, after a merge and after a checkout. Each of them
/// invokes `update`.
pub proof fn law_every_hook_updates(i: int)
    ensures
        hook_list().len() == 3,
        0 <= i < 3 ==> hook_list()[i].1 == "update"@,
        hook_list()[0].0 == "post-commit"@,
        hook_list()[1].0 == "post-merge"@,
        hook_list()[2].0 == "post-checkout"@,
{
}

/// The hooks that [`hooks`] gives are those after a commit, after a merge and after a checkout,
/// and each of them invokes `update`.
pub proof fn law_hooks(r: Vec<(&'static str, &'static str)>)
    requires
        call_ensures(hooks, (), r),
    ensures
        r@.len() == 3,
        r@[0].0@ == "post-commit"@,
        r@[1].0@ == "post-merge"@,
        r@[2].0@ == "post-checkout"@,
        forall|i: int| 0 <= i < 3 ==> (#[trigger] r@[i]).1@ == "update"@,
{
    assert forall|i: int| 0 <= i < 3 implies (#[trigger] r@[i]).1@ == "update"@ by {
        assert(r@[i].1@ == hook_list()[i].1);
    }
    assert(r@[0].0@ == hook_list()[0].0);
    assert(r@[1].0@ == hook_list()[1].0);
    assert(r@[2].0@ == hook_list()[2].0);
}

/// The snippet is the marker line, a line that ends the hook where the tool is missing, and a
/// line that runs the subcommand in the background without any output.
pub proof fn law_hook_snippet(subcmd: &str, r: String)
    requires
        call_ensures(hook_snippet, (subcmd,), r),
    ensures
        r@ == "# git-embed\n"@ + "command -v git-embed >/dev/null 2>&1 || exit 0\n"@ + "git embed "@
            + subcmd@ + " >/dev/null 2>&1 &\n"@,
        r@ == hook_text(subcmd@),
{
    reveal_strlit("# git-embed");
    reveal_strlit("# git-embed\n");
    reveal_strlit("\ncommand -v git-embed >/dev/null 2>&1 || exit 0\ngit embed ");
    reveal_strlit("command -v git-embed >/dev/null 2>&1 || exit 0\n");
    reveal_strlit("git embed ");
    let a = "# git-embed\n"@ + "command -v git-embed >/dev/null 2>&1 || exit 0\n"@ + "git embed "@;
    let b = HOOK_MARKER@ + "\ncommand -v git-embed >/dev/null 2>&1 || exit 0\ngit embed "@;
    assert(a =~= b);
}

/// Does the marker stand at place `i`, at the start of a line?
pub open spec fn marked_at(c: Seq<char>, i: int) -> bool {
    &&& 0 <= i <= c.len() - 11
    &&& c.subrange(i, i + 11) == "# git-embed"@
    &&& i == 0 || c[i - 1] == '\n'
}

/// A hook file holds a section just where the marker stands at the start of a line.
pub proof fn law_section_is_marked(c: Seq<char>)
    ensures
        has_section(c) <==> exists|i: int| marked_at(c, i),
    decreases c.len(),
{
    reveal_strlit("# git-embed");
    let m = "# git-embed"@;
    let ls = raw_lines(c);
    lemma_line_len(c);
    let n = line_len(c) as int;
    if c.len() == 0 {
        assert(ls.len() == 0);
    } else {
        let head = if n < c.len() {
            c.take(n + 1)
        } else {
            c
        };
        let rest = c.skip(head.len() as int);
        assert(head.len() <= c.len());
        assert(ls[0] == head);
        assert(ls =~= seq![head] + raw_lines(rest)) by {
            if n >= c.len() {
                assert(rest =~= seq![]);
                assert(raw_lines(rest) =~= seq![]);
            }
        }
        law_section_is_marked(rest);
        assert(marker_line(head) <==> marked_at(c, 0)) by {
            if marked_at(c, 0) {
                assert forall|j: int| 0 <= j < 11 implies c[j] != '\n' by {
                    assert(c.subrange(0, 11)[j] == m[j]);
                }
                assert(n >= 11);
                assert(head.take(11) =~= c.subrange(0, 11));
            }
            if marker_line(head) {
                assert(c.subrange(0, 11) =~= head.take(11));
            }
        }
        if has_section(c) {
            let k = choose|k: int| 0 <= k < ls.len() && marker_line(#[trigger] ls[k]);
            if k > 0 {
                assert(raw_lines(rest)[k - 1] == ls[k]);
                assert(has_section(rest));
                let i = choose|i: int| marked_at(rest, i);
                let at = i + head.len();
                assert(c.subrange(at, at + 11) =~= rest.subrange(i, i + 11));
                assert(marked_at(c, at)) by {
                    if i > 0 {
                        assert(rest[i - 1] == c[at - 1]);
                    } else {
                        assert(c[n] == '\n');
                    }
                }
            }
        }
        if exists|i: int| marked_at(c, i) {
            let i = choose|i: int| marked_at(c, i);
            if i == 0 {
                assert(marker_line(ls[0]));
            } else {
                assert(i >= head.len());
                let at = i - head.len();
                assert(rest.subrange(at, at + 11) =~= c.subrange(i, i + 11));
                assert(marked_at(rest, at)) by {
                    if at > 0 {
                        assert(rest[at - 1] == c[i - 1]);
                    }
                }
                let k = choose|k: int|
                    0 <= k < raw_lines(rest).len() && marker_line(#[trigger] raw_lines(rest)[k]);
                assert(ls[k + 1] == raw_lines(rest)[k]);
            }
        }
    }
}

/// The lines of a text, each with its line ending, are the only way to cut it so that every
/// line but the last ends at a line feed, and no line feed stands anywhere else.
pub proof fn law_lines_are_determined(c: Seq<char>, ls: Seq<Seq<char>>)
    requires
        flattened(ls) == c,
        forall|i: int|
            0 <= i < ls.len() ==> {
                &&& (#[trigger] ls[i]).len() > 0
                &&& forall|j: int| 0 <= j < ls[i].len() - 1 ==> ls[i][j] != '\n'
                &&& i < ls.len() - 1 ==> ls[i][ls[i].len() - 1] == '\n'
            },
    ensures
        raw_lines(c) == ls,
{
    lemma_cut_again(ls);
}

/// Does a line start with the marker?
pub open spec fn starts_section(line: Seq<char>) -> bool {
    line.len() >= 11 && line.take(11) == "# git-embed"@
}

/// Does a line end a section: is it empty but for its line ending?
pub open spec fn ends_section(line: Seq<char>) -> bool {
    (line.len() == 1 && line[0] == '\n') || (line.len() == 2 && line[0] == '\r' && line[1] == '\n')
}

/// Does line `k` belong to a section: is there a marker line before it, or is it one, with no
/// empty line between the two?
pub open spec fn sectioned(ls: Seq<Seq<char>>, k: int) -> bool {
    exists|j: int|
        0 <= j <= k && starts_section(#[trigger] ls[j]) && forall|m: int|
            j < m < k ==> !ends_section(#[trigger] ls[m])
}

/// Lines that start and end sections.
proof fn lemma_section_lines(line: Seq<char>)
    ensures
        marker_line(line) <==> starts_section(line),
        blank_line(line) <==> ends_section(line),
{
    reveal_strlit("# git-embed");
    if line.len() >= 11 {
        assert(line.take(11) =~= line.subrange(0, 11));
    }
    if ends_section(line) {
        assert(line =~= seq!['\n'] || line =~= seq!['\r', '\n']);
    }
}

/// Lines that belong to a section.
proof fn lemma_sectioned(ls: Seq<Seq<char>>, k: int)
    requires
        0 <= k < ls.len(),
    ensures
        in_section(ls, k) <==> sectioned(ls, k),
{
    assert forall|m: int| 0 <= m < ls.len() implies (marker_line(#[trigger] ls[m])
        <==> starts_section(ls[m])) && (blank_line(ls[m]) <==> ends_section(ls[m])) by {
        lemma_section_lines(ls[m]);
    }
    if in_section(ls, k) {
        if marker_line(ls[k]) {
            assert(starts_section(ls[k]));
        } else {
            let j = choose|j: int|
                0 <= j < k && marker_line(#[trigger] ls[j]) && forall|m: int|
                    j < m < k ==> !blank_line(#[trigger] ls[m]);
            assert(starts_section(ls[j]));
        }
    }
    if sectioned(ls, k) {
        let j = choose|j: int|
            0 <= j <= k && starts_section(#[trigger] ls[j]) && forall|m: int|
                j < m < k ==> !ends_section(#[trigger] ls[m]);
        assert(marker_line(ls[j]));
        if j < k {
            assert(open_before(ls, k));
        }
    }
}

/// Which lines are outside the sections.
proof fn lemma_others_picks(ls: Seq<Seq<char>>, from: int, n: int) -> (kept: Seq<int>)
    requires
        0 <= from,
        0 <= n <= ls.len(),
    ensures
        kept.len() == others(ls.take(n), from).len(),
        forall|i: int, j: int|
            0 <= i < j < kept.len() ==> #[trigger] kept[i] < #[trigger] kept[j],
        forall|i: int|
            0 <= i < kept.len() ==> from <= #[trigger] kept[i] < n && others(ls.take(n), from)[i]
                == ls[kept[i]],
        forall|k: int|
            from <= k < n ==> (#[trigger] kept.contains(k) <==> !sectioned(ls, k)),
    decreases n,
{
    if n <= from {
        seq![]
    } else {
        let before = lemma_others_picks(ls, from, n - 1);
        let t = ls.take(n);
        assert(t.drop_last() =~= ls.take(n - 1));
        assert(t.last() == ls[n - 1]);
        lemma_open_prefix(ls, n, n - 1);
        lemma_sectioned(ls, n - 1);
        assert(in_section(t, n - 1) <==> in_section(ls, n - 1));
        let kept = if sectioned(ls, n - 1) {
            before
        } else {
            before.push(n - 1)
        };
        assert forall|k: int| from <= k < n implies (#[trigger] kept.contains(k) <==> !sectioned(
            ls,
            k,
        )) by {
            if k == n - 1 {
                if !sectioned(ls, k) {
                    assert(kept[before.len() as int] == k);
                }
            } else {
                assert(before.contains(k) <==> !sectioned(ls, k));
                if before.contains(k) {
                    let i = choose|i: int| 0 <= i < before.len() && before[i] == k;
                    assert(kept[i] == k);
                }
                if kept.contains(k) {
                    let i = choose|i: int| 0 <= i < kept.len() && kept[i] == k;
                    assert(before[i] == k);
                }
            }
        }
        assert forall|i: int| 0 <= i < kept.len() implies from <= #[trigger] kept[i] < n && others(
            t,
            from,
        )[i] == ls[kept[i]] by {
            if i < before.len() {
                assert(kept[i] == before[i]);
                assert(others(t, from)[i] == others(ls.take(n - 1), from)[i]);
            }
        }
        kept
    }
}

/// Removing the section from a hook file leaves the lines outside the sections, all of them and
/// in their order, with their line endings, and nothing else.
pub proof fn law_remove_hook_section(content: &str, r: String) -> (kept: Seq<int>)
    requires
        call_ensures(remove_hook_section, (content,), r),
    ensures
        ({
            let ls = raw_lines(content@);
            &&& forall|i: int, j: int|
                0 <= i < j < kept.len() ==> #[trigger] kept[i] < #[trigger] kept[j]
            &&& forall|i: int| 0 <= i < kept.len() ==> 0 <= #[trigger] kept[i] < ls.len()
            &&& forall|k: int|
                0 <= k < ls.len() ==> (#[trigger] kept.contains(k) <==> !sectioned(ls, k))
            &&& r@ == flattened(Seq::new(kept.len(), |i: int| ls[kept[i]]))
        }),
{
    let ls = raw_lines(content@);
    let kept = lemma_others_picks(ls, 0, ls.len() as int);
    assert(ls.take(ls.len() as int) =~= ls);
    assert(others(ls, 0) =~= Seq::new(kept.len(), |i: int| ls[kept[i]]));
    kept
}

/// Where the first section is closed.
proof fn lemma_closed_at(ls: Seq<Seq<char>>, n: int) -> (at: int)
    requires
        0 <= n < ls.len(),
    ensures
        n < at <= ls.len(),
        forall|i: int| n < i < at ==> !ends_section(#[trigger] ls[i]),
        at < ls.len() ==> ends_section(ls[at]) && closing(ls, n) == seq![ls[at]],
        at == ls.len() ==> closing(ls, n) == Seq::<Seq<char>>::empty(),
    decreases ls.len() - n,
{
    if n + 1 >= ls.len() {
        ls.len() as int
    } else {
        lemma_section_lines(ls[n + 1]);
        if blank_line(ls[n + 1]) {
            n + 1
        } else {
            let at = lemma_closed_at(ls, n + 1);
            assert forall|i: int| n < i < at implies !ends_section(#[trigger] ls[i]) by {
                if i == n + 1 {
                    assert(!blank_line(ls[i]));
                }
            }
            at
        }
    }
}

/// Replacing the section of a hook file: without a marker line nothing changes. Otherwise the
/// new snippet stands where the first marker line `n` stood, behind the lines before it and
/// before the empty line `at` that closed that section, if there is one. The lines outside the
/// sections follow, all of them and in their order, and nothing else.
pub proof fn law_replace_hook_section(content: &str, new_snippet: &str, r: String) -> (w: (
    int,
    int,
    Seq<int>,
))
    requires
        call_ensures(replace_hook_section, (content, new_snippet), r),
    ensures
        ({
            let (n, at, kept) = w;
            let ls = raw_lines(content@);
            &&& 0 <= n <= ls.len()
            &&& forall|i: int| 0 <= i < n ==> !starts_section(#[trigger] ls[i])
            &&& n == ls.len() ==> r@ == content@
            &&& n < ls.len() ==> {
                &&& starts_section(ls[n])
                &&& n < at <= ls.len()
                &&& forall|i: int| n < i < at ==> !ends_section(#[trigger] ls[i])
                &&& at < ls.len() ==> ends_section(ls[at])
                &&& forall|i: int, j: int|
                    0 <= i < j < kept.len() ==> #[trigger] kept[i] < #[trigger] kept[j]
                &&& forall|i: int| 0 <= i < kept.len() ==> n <= #[trigger] kept[i] < ls.len()
                &&& forall|k: int|
                    n <= k < ls.len() ==> (#[trigger] kept.contains(k) <==> !sectioned(ls, k))
                &&& r@ == flattened(ls.take(n)) + new_snippet@ + (if at < ls.len() {
                    ls[at]
                } else {
                    Seq::<char>::empty()
                }) + flattened(Seq::new(kept.len(), |i: int| ls[kept[i]]))
            }
        }),
{
    let ls = raw_lines(content@);
    lemma_first_section(ls);
    let n = first_section(ls) as int;
    lemma_raw_lines(content@);
    assert forall|i: int| 0 <= i < n implies !starts_section(#[trigger] ls[i]) by {
        lemma_section_lines(ls[i]);
    }
    if n < ls.len() {
        lemma_section_lines(ls[n]);
        let at = lemma_closed_at(ls, n);
        let kept = lemma_others_picks(ls, n, ls.len() as int);
        assert(ls.take(ls.len() as int) =~= ls);
        let rest = Seq::new(kept.len(), |i: int| ls[kept[i]]);
        assert(others(ls, n) =~= rest);
        lemma_flattened_concat(closing(ls, n), rest);
        let gap = if at < ls.len() {
            ls[at]
        } else {
            Seq::<char>::empty()
        };
        assert(flattened(closing(ls, n)) == gap) by {
            if at < ls.len() {
                lemma_flattened_one(ls[at]);
            } else {
                assert(flattened(closing(ls, n)) =~= gap);
            }
        }
        let head = flattened(ls.take(n)) + new_snippet@;
        assert(head + (gap + flattened(rest)) =~= head + gap + flattened(rest));
        (n, at, kept)
    } else {
        (n, 0, seq![])
    }
}

/// Is there a hook file in which the marker stands at the start of a line?
pub open spec fn marked_file(existing: Option<Seq<char>>) -> bool {
    existing is Some && exists|i: int| marked_at(existing->0, i)
}

/// Installing a hook. Without a hook file it is created, with the shebang line and the snippet.
/// Into a file without a section the snippet is written behind the content, with an empty line
/// between the two; the last line of the content is ended first if it is not. In a file with a
/// section the section is replaced.
pub proof fn law_install_hook(
    existing: Option<&str>,
    subcmd: &str,
    r: (Installed, String),
    snippet: &str,
    s: String,
)
    requires
        call_ensures(install_hook, (existing, subcmd), r),
        snippet@ == "# git-embed\n"@ + "command -v git-embed >/dev/null 2>&1 || exit 0\n"@
            + "git embed "@ + subcmd@ + " >/dev/null 2>&1 &\n"@,
        existing is Some ==> call_ensures(replace_hook_section, (existing->0, snippet), s),
    ensures
        r.0 is Created <==> existing is None,
        r.0 is Updated <==> marked_file(contents(existing)),
        r.0 is Appended <==> existing is Some && !marked_file(contents(existing)),
        r.0 is Created ==> r.1@ == "#!/bin/sh\n"@ + snippet@,
        r.0 is Updated ==> r.1@ == s@,
        r.0 is Appended ==> r.1@ == existing->0@ + (if existing->0@.len() > 0
            && existing->0@[existing->0@.len() - 1] == '\n' {
            "\n"@
        } else {
            "\n\n"@
        }) + snippet@,
{
    reveal_strlit("\n");
    reveal_strlit("\n\n");
    reveal_strlit("#!/bin/sh");
    reveal_strlit("#!/bin/sh\n");
    reveal_strlit("# git-embed");
    reveal_strlit("# git-embed\n");
    reveal_strlit("\ncommand -v git-embed >/dev/null 2>&1 || exit 0\ngit embed ");
    reveal_strlit("command -v git-embed >/dev/null 2>&1 || exit 0\n");
    reveal_strlit("git embed ");
    let a = "# git-embed\n"@ + "command -v git-embed >/dev/null 2>&1 || exit 0\n"@ + "git embed "@;
    let b = HOOK_MARKER@ + "\ncommand -v git-embed >/dev/null 2>&1 || exit 0\ngit embed "@;
    assert(a =~= b);
    assert(snippet@ == hook_text(subcmd@));
    match existing {
        None => {
            assert(SHEBANG@.push('\n') =~= "#!/bin/sh\n"@);
        },
        Some(c) => {
            law_section_is_marked(c@);
            if !has_section(c@) {
                let gap = if c@.len() > 0 && c@[c@.len() - 1] == '\n' {
                    "\n"@
                } else {
                    "\n\n"@
                };
                assert(finished(c@).push('\n') =~= c@ + gap);
            }
        },
    }
}

/// Uninstalling a hook. A file without a section stays as it is. Otherwise the section is
/// removed, and the file goes where nothing but white space, or nothing but the shebang line
/// between white space, is left in it.
pub proof fn law_uninstall_hook(existing: Option<&str>, r: Uninstalled, s: String)
    requires
        call_ensures(uninstall_hook, (existing,), r),
        existing is Some ==> call_ensures(remove_hook_section, (existing->0,), s),
    ensures
        r is Untouched <==> !marked_file(contents(existing)),
        r is Removed <==> marked_file(contents(existing)) && (trim(s@).len() == 0 || trim(s@)
            == "#!/bin/sh"@),
        r is Cleaned ==> r->Cleaned_0@ == s@,
{
    match existing {
        None => {},
        Some(c) => {
            law_section_is_marked(c@);
        },
    }
}

/// The names of the hooks with or without a section.
proof fn lemma_names_where(ms: Seq<bool>, flag: bool) -> (picks: Seq<int>)
    requires
        ms.len() <= 3,
    ensures
        picks.len() == names_where(ms, flag).len(),
        forall|i: int, j: int|
            0 <= i < j < picks.len() ==> #[trigger] picks[i] < #[trigger] picks[j],
        forall|i: int|
            0 <= i < picks.len() ==> 0 <= #[trigger] picks[i] < ms.len() && names_where(
                ms,
                flag,
            )[i] == hook_list()[picks[i]].0,
        forall|k: int| 0 <= k < ms.len() ==> (#[trigger] picks.contains(k) <==> ms[k] == flag),
    decreases ms.len(),
{
    if ms.len() == 0 {
        seq![]
    } else {
        let front = ms.drop_last();
        let n = ms.len() - 1;
        let before = lemma_names_where(front, flag);
        let picks = if ms[n] == flag {
            before.push(n)
        } else {
            before
        };
        assert forall|k: int| 0 <= k < ms.len() implies (#[trigger] picks.contains(k) <==> ms[k]
            == flag) by {
            if k == n {
                if ms[n] == flag {
                    assert(picks[before.len() as int] == k);
                }
            } else {
                assert(before.contains(k) <==> front[k] == flag);
                if before.contains(k) {
                    let i = choose|i: int| 0 <= i < before.len() && before[i] == k;
                    assert(picks[i] == k);
                }
                if picks.contains(k) {
                    let i = choose|i: int| 0 <= i < picks.len() && picks[i] == k;
                    assert(before[i] == k);
                }
            }
        }
        assert forall|i: int| 0 <= i < picks.len() implies 0 <= #[trigger] picks[i] < ms.len()
            && names_where(ms, flag)[i] == hook_list()[picks[i]].0 by {
            if i < before.len() {
                assert(picks[i] == before[i]);
                assert(names_where(ms, flag)[i] == names_where(front, flag)[i]);
            }
        }
        picks
    }
}

/// The name of the hook whose file stands at place `i`.
pub open spec fn hook_name(i: int) -> Seq<char> {
    if i == 0 {
        "post-commit"@
    } else if i == 1 {
        "post-merge"@
    } else {
        "post-checkout"@
    }
}

/// Is there a hook file in which the marker stands at the start of a line?
pub open spec fn marked(file: Option<String>) -> bool {
    match file {
        Some(c) => exists|i: int| marked_at(c@, i),
        None => false,
    }
}

/// Hook files with a section are marked.
proof fn lemma_marked(files: Seq<Option<String>>, k: int)
    requires
        0 <= k < files.len(),
    ensures
        marks(files)[k] == marked(files[k]),
{
    match files[k] {
        Some(c) => law_section_is_marked(c@),
        None => {},
    }
}

/// The installed hooks are those whose file is marked, all of them and in their order.
pub proof fn law_hooks_installed(files: &Vec<Option<String>>, r: Vec<String>) -> (picks: Seq<int>)
    requires
        files@.len() == 3,
        call_ensures(hooks_installed, (files,), r),
    ensures
        picks.len() == r@.len(),
        forall|i: int, j: int|
            0 <= i < j < picks.len() ==> #[trigger] picks[i] < #[trigger] picks[j],
        forall|i: int|
            0 <= i < picks.len() ==> 0 <= #[trigger] picks[i] < 3 && r@[i]@ == hook_name(picks[i]),
        forall|k: int| 0 <= k < 3 ==> (#[trigger] picks.contains(k) <==> marked(files@[k])),
{
    let ms = marks(files@);
    let picks = lemma_names_where(ms, true);
    assert(texts(r@).len() == r@.len());
    assert forall|i: int| 0 <= i < picks.len() implies 0 <= #[trigger] picks[i] < 3 && r@[i]@
        == hook_name(picks[i]) by {
        assert(texts(r@)[i] == r@[i]@);
    }
    assert forall|k: int| 0 <= k < 3 implies (#[trigger] picks.contains(k) <==> marked(
        files@[k],
    )) by {
        lemma_marked(files@, k);
    }
    picks
}

/// The status line about the hooks: whether all three are installed, or none, or which are
/// missing. The hooks that are missing, in their order, are those at the places `missing`.
pub proof fn law_hooks_status(files: &Vec<Option<String>>, r: String) -> (missing: Seq<int>)
    requires
        files@.len() == 3,
        call_ensures(hooks_status, (files,), r),
    ensures
        forall|i: int, j: int|
            0 <= i < j < missing.len() ==> #[trigger] missing[i] < #[trigger] missing[j],
        forall|i: int| 0 <= i < missing.len() ==> 0 <= #[trigger] missing[i] < 3,
        forall|k: int| 0 <= k < 3 ==> (#[trigger] missing.contains(k) <==> !marked(files@[k])),
        missing.len() == 0 ==> r@ == "Hooks:   installed (post-commit, post-merge, post-checkout)"@,
        missing.len() == 3 ==> r@ == "Hooks:   not installed (run `git embed install`)"@,
        0 < missing.len() < 3 ==> r@ == "Hooks:   partial (missing: "@ + join(
            Seq::new(missing.len(), |i: int| hook_name(missing[i])),
            ", "@,
        ) + ")"@,
{
    let ms = marks(files@);
    let present = lemma_names_where(ms, true);
    let missing = lemma_names_where(ms, false);
    assert forall|k: int| 0 <= k < 3 implies (#[trigger] missing.contains(k) <==> !marked(
        files@[k],
    )) by {
        lemma_marked(files@, k);
    }
    assert(ms.len() == 3);
    let names = Seq::new(missing.len(), |i: int| hook_name(missing[i]));
    assert(names_where(ms, false) =~= names) by {
        assert(forall|i: int| 0 <= i < missing.len() ==> 0 <= #[trigger] missing[i] < 3);
    }
    lemma_three(ms);
    if missing.len() == 0 {
        let on = names_where(ms, true);
        assert(ms[0] && ms[1] && ms[2]);
        assert(on =~= seq!["post-commit"@, "post-merge"@, "post-checkout"@]);
        reveal_with_fuel(join, 4);
        assert(on.drop_last() =~= seq!["post-commit"@, "post-merge"@]);
        assert(on.drop_last().drop_last() =~= seq!["post-commit"@]);
        reveal_strlit("post-commit");
        reveal_strlit("post-merge");
        reveal_strlit("post-checkout");
        reveal_strlit(", ");
        reveal_strlit(")");
        reveal_strlit("Hooks:   installed (");
        reveal_strlit("Hooks:   installed (post-commit, post-merge, post-checkout)");
        assert(r@ =~= "Hooks:   installed (post-commit, post-merge, post-checkout)"@);
    }
    missing
}

/// The names with and without a section, where there are three hooks.
proof fn lemma_three(ms: Seq<bool>)
    requires
        ms.len() == 3,
    ensures
        names_where(ms, true).len() + names_where(ms, false).len() == 3,
        names_where(ms, false).len() == 0 ==> ms[0] && ms[1] && ms[2] && names_where(ms, true)
            == seq!["post-commit"@, "post-merge"@, "post-checkout"@],
{
    reveal_with_fuel(names_where, 4);
    let two = ms.drop_last();
    let one = two.drop_last();
    let none = one.drop_last();
    assert(two.len() == 2 && one.len() == 1 && none.len() == 0);
    assert(two.last() == ms[1] && one.last() == ms[0]);
    assert(names_where(none, true) =~= seq![]);
    assert(names_where(none, false) =~= seq![]);
    if ms[0] && ms[1] && ms[2] {
        assert(names_where(ms, true) =~= seq!["post-commit"@, "post-merge"@, "post-checkout"@]);
    }
}

} // verus!
