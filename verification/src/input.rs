//! What the planner reads as text: the command line as Cargo hands it over,
//! and the output of git.

use vstd::prelude::*;

use crate::text::{blank, chars_of, push_char, string_views, white_space};

verus! {

/// The arguments without the subcommand name that Cargo passes second when
/// it runs `cargo affect ...`.
pub open spec fn subcommand_args_spec(args: Seq<Seq<char>>) -> Seq<Seq<char>> {
    if args.len() > 1 && args[1] == "affect"@ {
        args.remove(1)
    } else {
        args
    }
}

/// The arguments as the command line parser is to see them: a second
/// argument "affect" is dropped.
pub fn cargo_subcommand_args(args: Vec<String>) -> (res: Vec<String>)
    ensures
        string_views(res@) == subcommand_args_spec(string_views(args@)),
{
    let mut args = args;
    proof {
        reveal_strlit("affect");
    }
    if args.len() > 1 && crate::names::str_eq(args[1].as_str(), "affect") {
        let ghost before = args@;
        args.remove(1);
        assert(string_views(args@) =~= string_views(before).remove(1));
    }
    args
}

/// A finished line: a carriage return before the line feed is dropped.
pub open spec fn line_of(cur: Seq<char>) -> Seq<char> {
    if cur.len() > 0 && cur.last() == '\r' {
        cur.drop_last()
    } else {
        cur
    }
}

/// The lines of `s` after a line begun with `cur`, as `str::lines` splits
/// them: at each line feed, with a carriage return before it dropped; a
/// last line without a line feed counts where it is not empty.
pub open spec fn lines_from(s: Seq<char>, cur: Seq<char>) -> Seq<Seq<char>>
    decreases s.len(),
{
    if s.len() == 0 {
        if cur.len() == 0 {
            Seq::empty()
        } else {
            seq![cur]
        }
    } else if s[0] == '\n' {
        seq![line_of(cur)] + lines_from(s.drop_first(), Seq::empty())
    } else {
        lines_from(s.drop_first(), cur.push(s[0]))
    }
}

/// The lines of `s`, as `str::lines` gives them.
pub open spec fn lines_spec(s: Seq<char>) -> Seq<Seq<char>> {
    lines_from(s, Seq::empty())
}

/// A string of the first `n` characters of `chars`.
fn string_of(chars: &Vec<char>, n: usize) -> (res: String)
    requires
        n <= chars.len(),
    ensures
        res@ == chars@.take(n as int),
{
    let mut s = String::new();
    let mut i: usize = 0;
    while i < n
        invariant
            i <= n,
            n <= chars.len(),
            s@ == chars@.take(i as int),
        decreases n - i,
    {
        push_char(&mut s, chars[i]);
        i = i + 1;
        assert(s@ =~= chars@.take(i as int));
    }
    s
}

/// The finished line of the characters of `cur`.
fn finish_line(cur: &Vec<char>) -> (res: String)
    ensures
        res@ == line_of(cur@),
{
    let n = cur.len();
    if n > 0 && cur[n - 1] == '\r' {
        let s = string_of(cur, n - 1);
        assert(cur@.take(n - 1) =~= cur@.drop_last());
        s
    } else {
        let s = string_of(cur, n);
        assert(cur@.take(n as int) =~= cur@);
        s
    }
}

/// The lines of `s`, as `str::lines` gives them.
pub fn split_lines(s: &str) -> (res: Vec<String>)
    ensures
        string_views(res@) == lines_spec(s@),
{
    let sv = chars_of(s);
    let mut lines: Vec<String> = Vec::new();
    let mut cur: Vec<char> = Vec::new();
    let mut i: usize = 0;
    assert(s@.skip(0) =~= s@);
    while i < sv.len()
        invariant
            sv@ == s@,
            i <= sv.len(),
            lines_spec(s@) == string_views(lines@) + lines_from(s@.skip(i as int), cur@),
        decreases sv.len() - i,
    {
        let c = sv[i];
        let ghost rest = s@.skip(i as int);
        assert(rest[0] == c);
        assert(rest.drop_first() =~= s@.skip(i + 1));
        if c == '\n' {
            let ghost cur_before = cur@;
            let line = finish_line(&cur);
            let ghost before = string_views(lines@);
            lines.push(line);
            cur = Vec::new();
            proof {
                assert(string_views(lines@) =~= before.push(line_of(cur_before)));
                assert(cur@ =~= Seq::<char>::empty());
                let tail = lines_from(s@.skip(i + 1), Seq::<char>::empty());
                assert(before + (seq![line_of(cur_before)] + tail) =~= string_views(lines@) + tail);
            }
        } else {
            cur.push(c);
        }
        i = i + 1;
    }
    assert(s@.skip(i as int) =~= Seq::<char>::empty());
    if cur.len() > 0 {
        let n = cur.len();
        let last = string_of(&cur, n);
        assert(cur@.take(n as int) =~= cur@);
        let ghost before = string_views(lines@);
        lines.push(last);
        assert(string_views(lines@) =~= before + seq![cur@]);
    } else {
        assert(string_views(lines@) + Seq::<Seq<char>>::empty() =~= string_views(lines@));
    }
    lines
}

/// The lines of git's output that name files: those that are not blank.
pub open spec fn diff_lines_spec(output: Seq<char>) -> Seq<Seq<char>> {
    lines_spec(output).filter(|l: Seq<char>| !blank(l))
}

/// The file names that `git diff --name-only` printed: its non-blank lines.
pub fn diff_lines(output: &str) -> (res: Vec<String>)
    ensures
        string_views(res@) == diff_lines_spec(output@),
{
    let lines = split_lines(output);
    let ghost all = string_views(lines@);
    let ghost keep = |l: Seq<char>| !blank(l);
    let mut res: Vec<String> = Vec::new();
    let mut i: usize = 0;
    while i < lines.len()
        invariant
            i <= lines.len(),
            all == string_views(lines@),
            keep == (|l: Seq<char>| !blank(l)),
            string_views(res@) == all.take(i as int).filter(keep),
        decreases lines.len() - i,
    {
        let is_name = !crate::text::is_blank(lines[i].as_str());
        let ghost before = string_views(res@);
        if is_name {
            res.push(lines[i].clone());
        }
        proof {
            reveal(Seq::filter);
            let t = all.take(i + 1);
            assert(t.drop_last() =~= all.take(i as int));
            assert(t.last() == lines@[i as int]@);
            if is_name {
                assert(string_views(res@) =~= before.push(lines@[i as int]@));
            } else {
                assert(string_views(res@) =~= before);
            }
        }
        i = i + 1;
    }
    assert(all.take(lines.len() as int) =~= all);
    res
}

/// `s` without its leading white space.
pub open spec fn trim_start_spec(s: Seq<char>) -> Seq<char>
    decreases s.len(),
{
    if s.len() > 0 && white_space(s[0]) {
        trim_start_spec(s.drop_first())
    } else {
        s
    }
}

/// `s` without its trailing white space.
pub open spec fn trim_end_spec(s: Seq<char>) -> Seq<char>
    decreases s.len(),
{
    if s.len() > 0 && white_space(s.last()) {
        trim_end_spec(s.drop_last())
    } else {
        s
    }
}

/// `s` without leading and trailing white space, as `str::trim` gives it.
pub open spec fn trim_spec(s: Seq<char>) -> Seq<char> {
    trim_end_spec(trim_start_spec(s))
}

/// `s` without leading and trailing white space.
pub fn trimmed(s: &str) -> (res: String)
    ensures
        res@ == trim_spec(s@),
{
    let sv = chars_of(s);
    let mut start: usize = 0;
    assert(s@.skip(0) =~= s@);
    while start < sv.len() && crate::text::is_whitespace(sv[start])
        invariant
            sv@ == s@,
            start <= sv.len(),
            trim_start_spec(s@) == trim_start_spec(s@.skip(start as int)),
        decreases sv.len() - start,
    {
        assert(s@.skip(start as int).drop_first() =~= s@.skip(start + 1));
        start = start + 1;
    }
    let ghost rest = s@.skip(start as int);
    assert(trim_start_spec(s@) == rest);
    let mut end: usize = sv.len();
    assert(rest.take(rest.len() as int) =~= rest);
    while end > start && crate::text::is_whitespace(sv[end - 1])
        invariant
            sv@ == s@,
            start <= end <= sv.len(),
            rest == s@.skip(start as int),
            trim_end_spec(rest) == trim_end_spec(rest.take(end - start)),
        decreases end,
    {
        assert(rest.take(end - start).drop_last() =~= rest.take(end - start - 1));
        assert(rest.take(end - start).last() == sv@[end - 1]);
        end = end - 1;
    }
    let mut res = String::new();
    let mut k: usize = start;
    while k < end
        invariant
            sv@ == s@,
            start <= k <= end,
            end <= sv.len(),
            res@ == s@.subrange(start as int, k as int),
        decreases end - k,
    {
        push_char(&mut res, sv[k]);
        k = k + 1;
        assert(res@ =~= s@.subrange(start as int, k as int));
    }
    assert(rest.take(end - start) =~= s@.subrange(start as int, end as int));
    res
}

/// Why git's output could not be used.
#[derive(Debug, Clone, PartialEq, Eq)]
pub enum GitReadError {
    /// Git exited without success.
    Failed,
    /// Git's output was not UTF-8.
    NotUtf8,
}

/// The file names that `git diff --name-only` reported: an error where git
/// failed, or where its output (`stdout`, none where it was not UTF-8)
/// cannot be read; else its non-blank lines, in order.
pub fn git_diff_names(succeeded: bool, stdout: Option<&str>) -> (res: Result<Vec<String>, GitReadError>)
    ensures
        match stdout {
            _ if !succeeded => res == Err::<Vec<String>, GitReadError>(GitReadError::Failed),
            None => res == Err::<Vec<String>, GitReadError>(GitReadError::NotUtf8),
            Some(out) => res matches Ok(v) && string_views(v@) == diff_lines_spec(out@),
        },
{
    if !succeeded {
        return Err(GitReadError::Failed);
    }
    match stdout {
        None => Err(GitReadError::NotUtf8),
        Some(out) => Ok(diff_lines(out)),
    }
}

/// The repository root that `git rev-parse --show-toplevel` reported: an
/// error where git failed or its output cannot be read; else the output
/// without surrounding white space.
pub fn git_root_text(succeeded: bool, stdout: Option<&str>) -> (res: Result<String, GitReadError>)
    ensures
        match stdout {
            _ if !succeeded => res == Err::<String, GitReadError>(GitReadError::Failed),
            None => res == Err::<String, GitReadError>(GitReadError::NotUtf8),
            Some(out) => res matches Ok(r) && r@ == trim_spec(out@),
        },
{
    if !succeeded {
        return Err(GitReadError::Failed);
    }
    match stdout {
        None => Err(GitReadError::NotUtf8),
        Some(out) => Ok(trimmed(out)),
    }
}

} // verus!
