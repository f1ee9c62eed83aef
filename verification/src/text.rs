//! Character-level text operations: lines, joining, searching, trimming and decimal numbers.

use crate::lists::{flattened, lemma_flattened_concat, lemma_flattened_one};
use vstd::prelude::*;

verus! {

// ---------------------------------------------------------------------------
// Model
// ---------------------------------------------------------------------------

/// The contents of a list of strings.
pub open spec fn texts(v: Seq<String>) -> Seq<Seq<char>> {
    Seq::new(v.len(), |i: int| v[i]@)
}

/// The texts of a list of string slices.
pub open spec fn slices(v: Seq<&str>) -> Seq<Seq<char>> {
    Seq::new(v.len(), |i: int| v[i]@)
}

/// The number of characters before the first line feed of `s`, or all of them.
pub open spec fn line_len(s: Seq<char>) -> nat
    decreases s.len(),
{
    if s.len() == 0 || s[0] == '\n' {
        0
    } else {
        1 + line_len(s.skip(1))
    }
}

/// `s` without one trailing carriage return.
pub open spec fn strip_cr(s: Seq<char>) -> Seq<char> {
    if s.len() > 0 && s.last() == '\r' {
        s.drop_last()
    } else {
        s
    }
}

/// The lines of a text: each ends at a line feed, and a carriage return just before
/// that line feed belongs to the line ending. Text after the last line feed is a line
/// of its own unless it is empty.
pub open spec fn lines(s: Seq<char>) -> Seq<Seq<char>>
    decreases s.len(),
{
    if s.len() == 0 {
        seq![]
    } else if line_len(s) >= s.len() {
        seq![s]
    } else {
        seq![strip_cr(s.take(line_len(s) as int))] + lines(s.skip(line_len(s) as int + 1))
    }
}

/// The lines of a text, each with its line ending. Text after the last line feed is a line of
/// its own, without an ending, unless it is empty.
pub open spec fn raw_lines(s: Seq<char>) -> Seq<Seq<char>>
    decreases s.len(),
{
    if s.len() == 0 {
        seq![]
    } else if line_len(s) >= s.len() {
        seq![s]
    } else {
        seq![s.take(line_len(s) as int + 1)] + raw_lines(s.skip(line_len(s) as int + 1))
    }
}

/// Is every text a line: not empty, with a line feed only at its end, and finished by one
/// unless it is the last?
pub open spec fn well_cut(ls: Seq<Seq<char>>) -> bool {
    forall|i: int|
        0 <= i < ls.len() ==> {
            &&& (#[trigger] ls[i]).len() > 0
            &&& forall|j: int| 0 <= j < ls[i].len() - 1 ==> ls[i][j] != '\n'
            &&& i < ls.len() - 1 ==> ls[i].last() == '\n'
        }
}

/// The parts in order, with `sep` between neighbours.
pub open spec fn join(parts: Seq<Seq<char>>, sep: Seq<char>) -> Seq<char>
    decreases parts.len(),
{
    if parts.len() == 0 {
        seq![]
    } else if parts.len() == 1 {
        parts[0]
    } else {
        join(parts.drop_last(), sep) + sep + parts.last()
    }
}

/// Does `needle` start at position `i` of `s`?
pub open spec fn occurs_at(s: Seq<char>, needle: Seq<char>, i: int) -> bool {
    0 <= i && i + needle.len() <= s.len() && s.subrange(i, i + needle.len()) == needle
}

/// The Unicode `White_Space` property.
pub open spec fn white_space(c: char) -> bool {
    let n = c as u32;
    ||| 0x9 <= n <= 0xd
    ||| n == 0x20
    ||| n == 0x85
    ||| n == 0xa0
    ||| n == 0x1680
    ||| 0x2000 <= n <= 0x200a
    ||| n == 0x2028
    ||| n == 0x2029
    ||| n == 0x202f
    ||| n == 0x205f
    ||| n == 0x3000
}

/// `s` without leading white space.
pub open spec fn trim_start(s: Seq<char>) -> Seq<char>
    decreases s.len(),
{
    if s.len() > 0 && white_space(s[0]) {
        trim_start(s.skip(1))
    } else {
        s
    }
}

/// `s` without trailing white space.
pub open spec fn trim_end(s: Seq<char>) -> Seq<char>
    decreases s.len(),
{
    if s.len() > 0 && white_space(s.last()) {
        trim_end(s.drop_last())
    } else {
        s
    }
}

/// `s` without leading and trailing white space.
pub open spec fn trim(s: Seq<char>) -> Seq<char> {
    trim_end(trim_start(s))
}

/// The decimal digit for a number below ten.
pub open spec fn digit(n: nat) -> char {
    (48 + n) as char
}

/// A number in decimal notation.
pub open spec fn decimal(n: nat) -> Seq<char>
    decreases n,
{
    if n < 10 {
        seq![digit(n)]
    } else {
        decimal(n / 10).push(digit(n % 10))
    }
}

/// A signed number in decimal notation.
pub open spec fn signed_decimal(n: int) -> Seq<char> {
    if n < 0 {
        seq!['-'] + decimal((-n) as nat)
    } else {
        decimal(n as nat)
    }
}

// ---------------------------------------------------------------------------
// Building and comparing strings
// ---------------------------------------------------------------------------

/// `String::push`: appends the character to the end of the string.
pub assume_specification[ String::push ](s: &mut String, ch: char)
    ensures
        final(s)@ == old(s)@.push(ch),
;

/// `String::push_str`: appends the string slice to the end of the string.
pub assume_specification[ String::push_str ](s: &mut String, string: &str)
    ensures
        final(s)@ == old(s)@ + string@,
;

/// The characters of a string.
pub fn chars_of(s: &str) -> (r: Vec<char>)
    ensures
        r@ == s@,
{
    let mut r: Vec<char> = Vec::new();
    for c in it: s.chars()
        invariant
            it.seq() == s@,
            r@ == it.seq().take(it.index() as int),
    {
        r.push(c);
    }
    r
}

/// The characters `from..to` as a string.
pub fn string_of(cs: &Vec<char>, from: usize, to: usize) -> (r: String)
    requires
        from <= to <= cs@.len(),
    ensures
        r@ == cs@.subrange(from as int, to as int),
{
    let mut r: String = String::new();
    let mut i: usize = from;
    while i < to
        invariant
            from <= i <= to <= cs@.len(),
            r@ == cs@.subrange(from as int, i as int),
        decreases to - i,
    {
        r.push(cs[i]);
        i = i + 1;
    }
    r
}

/// Does `needle` start at position `at`?
pub fn matches_at(cs: &Vec<char>, at: usize, needle: &Vec<char>) -> (r: bool)
    requires
        at <= cs@.len(),
    ensures
        r == occurs_at(cs@, needle@, at as int),
{
    if needle.len() > cs.len() - at {
        return false;
    }
    let mut i: usize = 0;
    while i < needle.len()
        invariant
            i <= needle@.len(),
            at + needle.len() <= cs.len(),
            forall|j: int| 0 <= j < i ==> cs@[at + j] == #[trigger] needle@[j],
        decreases needle@.len() - i,
    {
        if cs[at + i] != needle[i] {
            assert(cs@.subrange(at as int, at + needle@.len())[i as int] == cs@[at + i]);
            return false;
        }
        i = i + 1;
    }
    assert(cs@.subrange(at as int, at + needle@.len()) =~= needle@);
    true
}

/// Do two strings hold the same characters?
pub fn same_text(a: &str, b: &str) -> (r: bool)
    ensures
        r == (a@ == b@),
{
    let ca: Vec<char> = chars_of(a);
    let cb: Vec<char> = chars_of(b);
    if ca.len() != cb.len() {
        return false;
    }
    let r: bool = matches_at(&ca, 0, &cb);
    assert(a@.subrange(0, a@.len() as int) =~= a@);
    r
}

/// Does `s` start with `prefix`?
pub fn has_prefix(s: &str, prefix: &str) -> (r: bool)
    ensures
        r == prefix@.is_prefix_of(s@),
{
    let cs: Vec<char> = chars_of(s);
    let cp: Vec<char> = chars_of(prefix);
    matches_at(&cs, 0, &cp)
}

/// A copy of `a` followed by `b`.
pub fn concat(a: &str, b: &str) -> (r: String)
    ensures
        r@ == a@ + b@,
{
    let mut r: String = String::new();
    r.push_str(a);
    r.push_str(b);
    r
}

// ---------------------------------------------------------------------------
// Lines
// ---------------------------------------------------------------------------

/// `line_len` finds the first line feed.
pub proof fn lemma_line_len(s: Seq<char>)
    ensures
        0 <= line_len(s) <= s.len(),
        forall|i: int| 0 <= i < line_len(s) ==> s[i] != '\n',
        line_len(s) < s.len() ==> s[line_len(s) as int] == '\n',
    decreases s.len(),
{
    if s.len() == 0 || s[0] == '\n' {
    } else {
        lemma_line_len(s.skip(1));
        assert forall|i: int| 0 <= i < line_len(s) implies s[i] != '\n' by {
            if i > 0 {
                assert(s.skip(1)[i - 1] == s[i]);
            }
        }
    }
}

/// The place of the first line feed is determined by what surrounds it.
pub proof fn lemma_line_len_is(s: Seq<char>, k: int)
    requires
        0 <= k <= s.len(),
        forall|i: int| 0 <= i < k ==> s[i] != '\n',
        k < s.len() ==> s[k] == '\n',
    ensures
        line_len(s) == k,
{
    lemma_line_len(s);
}

/// The lines of a text are lines, and put together they are the text.
pub proof fn lemma_raw_lines(s: Seq<char>)
    ensures
        well_cut(raw_lines(s)),
        flattened(raw_lines(s)) == s,
    decreases s.len(),
{
    lemma_line_len(s);
    let n = line_len(s) as int;
    if s.len() == 0 {
        assert(flattened(raw_lines(s)) =~= s);
    } else if n >= s.len() {
        lemma_flattened_one(s);
    } else {
        let head = s.take(n + 1);
        let rest = s.skip(n + 1);
        lemma_raw_lines(rest);
        lemma_flattened_concat(seq![head], raw_lines(rest));
        lemma_flattened_one(head);
        assert(s =~= head + rest);
        assert forall|i: int| 0 <= i < raw_lines(s).len() implies {
            let l = #[trigger] raw_lines(s)[i];
            &&& l.len() > 0
            &&& forall|j: int| 0 <= j < l.len() - 1 ==> l[j] != '\n'
            &&& i < raw_lines(s).len() - 1 ==> l.last() == '\n'
        } by {
            if i > 0 {
                assert(raw_lines(s)[i] == raw_lines(rest)[i - 1]);
            } else {
                assert(raw_lines(s)[i] == head);
            }
        }
    }
}

/// Lines put together are cut into the same lines again.
pub proof fn lemma_cut_again(ls: Seq<Seq<char>>)
    requires
        well_cut(ls),
    ensures
        raw_lines(flattened(ls)) == ls,
    decreases ls.len(),
{
    if ls.len() == 0 {
        assert(flattened(ls) =~= seq![]);
        assert(raw_lines(flattened(ls)) =~= ls);
    } else {
        let l = ls[0];
        let rest = ls.skip(1);
        let s = flattened(ls);
        assert(well_cut(rest)) by {
            assert forall|i: int| 0 <= i < rest.len() implies {
                &&& (#[trigger] rest[i]).len() > 0
                &&& forall|j: int| 0 <= j < rest[i].len() - 1 ==> rest[i][j] != '\n'
                &&& i < rest.len() - 1 ==> rest[i].last() == '\n'
            } by {
                assert(rest[i] == ls[i + 1]);
            }
        }
        lemma_cut_again(rest);
        lemma_flattened_concat(seq![l], rest);
        lemma_flattened_one(l);
        assert(ls =~= seq![l] + rest);
        assert(s == l + flattened(rest));
        if l.last() == '\n' {
            lemma_line_len_is(s, l.len() - 1);
            assert(s.take(l.len() as int) =~= l);
            assert(s.skip(l.len() as int) =~= flattened(rest));
        } else {
            assert(rest =~= seq![]);
            assert(s =~= l);
            assert(l[l.len() - 1] != '\n');
            lemma_line_len_is(s, l.len() as int);
        }
        assert(raw_lines(s) =~= ls);
    }
}

/// The lines of `text`.
pub fn split_lines(text: &str) -> (r: Vec<String>)
    ensures
        texts(r@) == lines(text@),
{
    let cs: Vec<char> = chars_of(text);
    let mut r: Vec<String> = Vec::new();
    let mut start: usize = 0;
    assert(cs@.skip(0) =~= cs@);
    while start < cs.len()
        invariant
            start <= cs@.len(),
            cs@ == text@,
            lines(text@) == texts(r@) + lines(cs@.skip(start as int)),
        decreases cs@.len() - start,
    {
        let ghost rest = cs@.skip(start as int);
        let mut end: usize = start;
        while end < cs.len() && cs[end] != '\n'
            invariant
                start <= end <= cs@.len(),
                forall|j: int| start <= j < end ==> cs@[j] != '\n',
            decreases cs@.len() - end,
        {
            end = end + 1;
        }
        proof {
            lemma_line_len_is(rest, end - start);
        }
        let ghost before = r@;
        if end == cs.len() {
            let line: String = string_of(&cs, start, end);
            assert(line@ =~= rest);
            r.push(line);
            assert(texts(r@) =~= texts(before) + seq![rest]);
            start = end;
            assert(cs@.skip(start as int) =~= Seq::<char>::empty());
        } else {
            assert(rest.take(end - start) =~= cs@.subrange(start as int, end as int));
            let mut stop: usize = end;
            if end > start && cs[end - 1] == '\r' {
                stop = end - 1;
            }
            let line: String = string_of(&cs, start, stop);
            assert(line@ =~= strip_cr(rest.take(end - start)));
            r.push(line);
            assert(rest.skip(end - start + 1) =~= cs@.skip(end + 1));
            assert(texts(r@) =~= texts(before) + seq![line@]);
            start = end + 1;
            assert(lines(text@) =~= texts(r@) + lines(cs@.skip(start as int)));
        }
    }
    assert(cs@.skip(start as int) =~= Seq::<char>::empty());
    r
}

/// The lines of `text`, each with its line ending.
pub fn split_raw_lines(text: &str) -> (r: Vec<String>)
    ensures
        texts(r@) == raw_lines(text@),
{
    let cs: Vec<char> = chars_of(text);
    let mut r: Vec<String> = Vec::new();
    let mut start: usize = 0;
    assert(cs@.skip(0) =~= cs@);
    while start < cs.len()
        invariant
            start <= cs@.len(),
            cs@ == text@,
            raw_lines(text@) == texts(r@) + raw_lines(cs@.skip(start as int)),
        decreases cs@.len() - start,
    {
        let ghost rest = cs@.skip(start as int);
        let mut end: usize = start;
        while end < cs.len() && cs[end] != '\n'
            invariant
                start <= end <= cs@.len(),
                forall|j: int| start <= j < end ==> cs@[j] != '\n',
            decreases cs@.len() - end,
        {
            end = end + 1;
        }
        proof {
            lemma_line_len_is(rest, end - start);
        }
        let ghost before = r@;
        let stop: usize = if end < cs.len() {
            end + 1
        } else {
            end
        };
        let line: String = string_of(&cs, start, stop);
        assert(line@ =~= rest.take(stop - start));
        assert(rest.take(rest.len() as int) =~= rest);
        r.push(line);
        assert(texts(r@) =~= texts(before).push(line@));
        assert(rest.skip(stop - start) =~= cs@.skip(stop as int));
        assert(raw_lines(rest) =~= seq![line@] + raw_lines(cs@.skip(stop as int)));
        assert(raw_lines(text@) =~= texts(r@) + raw_lines(cs@.skip(stop as int)));
        start = stop;
    }
    assert(cs@.skip(start as int) =~= Seq::<char>::empty());
    r
}

/// The parts joined by `sep`.
pub fn join_strings(parts: &Vec<String>, sep: &str) -> (r: String)
    ensures
        r@ == join(texts(parts@), sep@),
{
    let mut r: String = String::new();
    let mut i: usize = 0;
    while i < parts.len()
        invariant
            i <= parts@.len(),
            r@ == join(texts(parts@).take(i as int), sep@),
        decreases parts@.len() - i,
    {
        if i > 0 {
            r.push_str(sep);
        }
        r.push_str(parts[i].as_str());
        i = i + 1;
        assert(texts(parts@).take(i as int).drop_last() =~= texts(parts@).take(i - 1));
    }
    assert(texts(parts@).take(i as int) =~= texts(parts@));
    r
}

// ---------------------------------------------------------------------------
// Trimming and numbers
// ---------------------------------------------------------------------------

/// Does the character have the Unicode `White_Space` property?
pub fn is_white_space(c: char) -> (r: bool)
    ensures
        r == white_space(c),
{
    let n: u32 = c as u32;
    (0x9 <= n && n <= 0xd) || n == 0x20 || n == 0x85 || n == 0xa0 || n == 0x1680
        || (0x2000 <= n && n <= 0x200a) || n == 0x2028 || n == 0x2029 || n == 0x202f
        || n == 0x205f || n == 0x3000
}

/// The number of white space characters at the start.
fn leading_space(cs: &Vec<char>) -> (r: usize)
    ensures
        r <= cs@.len(),
        trim_start(cs@) == cs@.skip(r as int),
{
    let mut from: usize = 0;
    assert(cs@.skip(0) =~= cs@);
    while from < cs.len() && is_white_space(cs[from])
        invariant
            from <= cs@.len(),
            trim_start(cs@) == trim_start(cs@.skip(from as int)),
        decreases cs@.len() - from,
    {
        assert(cs@.skip(from as int).skip(1) =~= cs@.skip(from + 1));
        from = from + 1;
    }
    from
}

/// The place after the last character from `from` on that is not white space.
fn end_of_text(cs: &Vec<char>, from: usize) -> (r: usize)
    requires
        from <= cs@.len(),
    ensures
        from <= r <= cs@.len(),
        trim_end(cs@.skip(from as int)) == cs@.subrange(from as int, r as int),
{
    let mut to: usize = cs.len();
    assert(cs@.subrange(from as int, to as int) =~= cs@.skip(from as int));
    while from < to && is_white_space(cs[to - 1])
        invariant
            from <= to <= cs@.len(),
            trim_end(cs@.skip(from as int)) == trim_end(cs@.subrange(from as int, to as int)),
        decreases to,
    {
        assert(cs@.subrange(from as int, to as int).drop_last() =~= cs@.subrange(
            from as int,
            to - 1,
        ));
        to = to - 1;
    }
    to
}

/// `s` without leading and trailing white space.
pub fn trimmed(s: &str) -> (r: String)
    ensures
        r@ == trim(s@),
{
    let cs: Vec<char> = chars_of(s);
    let from: usize = leading_space(&cs);
    let to: usize = end_of_text(&cs, from);
    string_of(&cs, from, to)
}

/// Appends `n` in decimal notation.
pub fn push_decimal(s: &mut String, n: u64)
    ensures
        final(s)@ == old(s)@ + decimal(n as nat),
    decreases n,
{
    if n >= 10 {
        push_decimal(s, n / 10);
    }
    let d: u8 = (n % 10) as u8;
    s.push((48u8 + d) as char);
    assert(s@ =~= old(s)@ + decimal(n as nat));
}

/// Appends a signed number in decimal notation.
pub fn push_signed_decimal(s: &mut String, n: i32)
    ensures
        final(s)@ == old(s)@ + signed_decimal(n as int),
{
    if n < 0 {
        s.push('-');
        push_decimal(s, (0 - (n as i64)) as u64);
        assert(s@ =~= old(s)@ + signed_decimal(n as int));
    } else {
        push_decimal(s, n as u64);
    }
}

// ---------------------------------------------------------------------------
// Laws
// ---------------------------------------------------------------------------

/// Nothing joined is nothing, one part joined is that part, and parts joined in two goes are
/// the two with the separator between them.
pub proof fn law_join(a: Seq<Seq<char>>, b: Seq<Seq<char>>, sep: Seq<char>)
    ensures
        a.len() == 0 ==> join(a, sep).len() == 0,
        a.len() == 1 ==> join(a, sep) == a[0],
        a.len() > 0 && b.len() > 0 ==> join(a + b, sep) == join(a, sep) + sep + join(b, sep),
    decreases b.len(),
{
    if a.len() > 0 && b.len() > 0 {
        let front = b.drop_last();
        assert((a + b).drop_last() =~= a + front);
        assert((a + b).last() == b.last());
        if front.len() > 0 {
            law_join(a, front, sep);
            assert(join(a + b, sep) =~= join(a, sep) + sep + join(b, sep));
        } else {
            assert(a + front =~= a);
            assert(b =~= seq![b[0]]);
            assert(join(a + b, sep) =~= join(a, sep) + sep + join(b, sep));
        }
    }
}

/// The lines of a text follow from two rules. What stands before the first line feed is the
/// first line, without a carriage return at its end, and the lines of what stands behind the
/// line feed follow. A text without a line feed is one line, unless it is empty, and none
/// then.
pub proof fn law_lines(l: Seq<char>, rest: Seq<char>)
    requires
        forall|i: int| 0 <= i < l.len() ==> l[i] != '\n',
    ensures
        lines(l.push('\n') + rest) == seq![
            if l.len() > 0 && l[l.len() - 1] == '\r' {
                l.take(l.len() - 1)
            } else {
                l
            },
        ] + lines(rest),
        l.len() > 0 ==> lines(l) == seq![l],
        l.len() == 0 ==> lines(l).len() == 0,
{
    let s = l.push('\n') + rest;
    lemma_line_len_is(s, l.len() as int);
    assert(s.take(l.len() as int) =~= l);
    assert(s.skip(l.len() as int + 1) =~= rest);
    assert(l.len() > 0 ==> l.drop_last() =~= l.take(l.len() - 1));
    lemma_line_len_is(l, l.len() as int);
}

/// No line holds a line feed. A text without carriage returns is its lines with line feeds
/// between them, and maybe one behind them.
pub proof fn law_lines_make_up_the_text(s: Seq<char>)
    ensures
        forall|i: int, j: int|
            0 <= i < lines(s).len() && 0 <= j < lines(s)[i].len() ==> lines(s)[i][j] != '\n',
        (forall|j: int| 0 <= j < s.len() ==> s[j] != '\r') ==> s == join(lines(s), "\n"@) || s
            == join(lines(s), "\n"@).push('\n'),
    decreases s.len(),
{
    reveal_strlit("\n");
    lemma_line_len(s);
    let n = line_len(s) as int;
    let nl = "\n"@;
    if s.len() == 0 {
        assert(join(lines(s), nl) =~= s);
    } else if n < s.len() {
        let l = s.take(n);
        let rest = s.skip(n + 1);
        assert(s =~= l.push('\n') + rest);
        law_lines(l, rest);
        law_lines_make_up_the_text(rest);
        let ls = lines(s);
        let first = ls[0];
        let tail = lines(rest);
        assert(ls =~= seq![first] + tail);
        assert forall|i: int, j: int| 0 <= i < ls.len() && 0 <= j < ls[i].len() implies ls[i][j]
            != '\n' by {
            if i > 0 {
                assert(ls[i] == tail[i - 1]);
            } else {
                assert(first[j] == s[j]);
            }
        }
        if forall|j: int| 0 <= j < s.len() ==> s[j] != '\r' {
            assert forall|j: int| 0 <= j < rest.len() implies rest[j] != '\r' by {
                assert(rest[j] == s[n + 1 + j]);
            }
            assert(first == l) by {
                if l.len() > 0 {
                    assert(l[l.len() - 1] == s[l.len() - 1]);
                }
            }
            law_join(seq![first], tail, nl);
            if tail.len() == 0 {
                assert(rest.len() == 0) by {
                    if rest.len() > 0 {
                        assert(join(tail, nl).len() == 0);
                        assert(rest =~= seq!['\n']);
                        lemma_line_len_is(rest, 0);
                        assert(lines(rest).len() > 0);
                    }
                }
                assert(ls =~= seq![first]);
                assert(s =~= first.push('\n'));
            } else {
                assert(join(ls, nl) == first + nl + join(tail, nl));
                if rest == join(tail, nl) {
                    assert(s =~= join(ls, nl));
                } else {
                    assert(s =~= join(ls, nl).push('\n'));
                }
            }
        }
    } else {
        assert(lines(s) =~= seq![s]);
    }
}

/// A text is what trimming leaves of it, with white space before and behind it; and what is
/// left neither starts nor ends with white space.
pub proof fn law_trim(s: Seq<char>) -> (at: int)
    ensures
        ({
            let t = trim(s);
            &&& 0 <= at <= at + t.len() <= s.len()
            &&& s.subrange(at, at + t.len()) == t
            &&& forall|i: int| 0 <= i < at ==> white_space(#[trigger] s[i])
            &&& forall|i: int| at + t.len() <= i < s.len() ==> white_space(#[trigger] s[i])
            &&& t.len() > 0 ==> !white_space(t[0]) && !white_space(t[t.len() - 1])
        }),
{
    let from = lemma_trim_start(s);
    let rest = s.skip(from);
    lemma_trim_end(rest);
    let t = trim(s);
    assert(s.subrange(from, from + t.len()) =~= t);
    assert forall|i: int| from + t.len() <= i < s.len() implies white_space(#[trigger] s[i]) by {
        assert(rest[i - from] == s[i]);
    }
    if t.len() > 0 {
        assert(t[0] == rest[0]);
    }
    from
}

/// What is left without leading white space.
proof fn lemma_trim_start(s: Seq<char>) -> (at: int)
    ensures
        0 <= at <= s.len(),
        trim_start(s) == s.skip(at),
        forall|i: int| 0 <= i < at ==> white_space(#[trigger] s[i]),
        at < s.len() ==> !white_space(s[at]),
    decreases s.len(),
{
    if s.len() > 0 && white_space(s[0]) {
        let k = lemma_trim_start(s.skip(1));
        assert(s.skip(1).skip(k) =~= s.skip(k + 1));
        assert forall|i: int| 0 <= i < k + 1 implies white_space(#[trigger] s[i]) by {
            if i > 0 {
                assert(s.skip(1)[i - 1] == s[i]);
            }
        }
        k + 1
    } else {
        assert(s.skip(0) =~= s);
        0
    }
}

/// What is left without trailing white space.
proof fn lemma_trim_end(s: Seq<char>)
    ensures
        trim_end(s).len() <= s.len(),
        trim_end(s) == s.take(trim_end(s).len() as int),
        forall|i: int| trim_end(s).len() <= i < s.len() ==> white_space(#[trigger] s[i]),
        trim_end(s).len() > 0 ==> !white_space(trim_end(s)[trim_end(s).len() - 1]),
    decreases s.len(),
{
    if s.len() > 0 && white_space(s.last()) {
        let front = s.drop_last();
        lemma_trim_end(front);
        let n = trim_end(s).len() as int;
        assert(front.take(n) =~= s.take(n));
        assert forall|i: int| n <= i < s.len() implies white_space(#[trigger] s[i]) by {
            if i < front.len() {
                assert(front[i] == s[i]);
            }
        }
    } else {
        assert(s.take(s.len() as int) =~= s);
    }
}

/// White space is the control characters from tabulator to carriage return, the blank, the
/// next-line character and the separators of Unicode, and nothing else.
pub proof fn law_white_space(c: char)
    ensures
        ({
            let n = c as int;
            white_space(c) <==> (9 <= n <= 13 || n == 32 || n == 133 || n == 160 || n == 5760 || (
            8192 <= n <= 8202) || n == 8232 || n == 8233 || n == 8239 || n == 8287 || n == 12288)
        }),
{
}

/// The value of a text of decimal digits.
pub open spec fn digits_value(s: Seq<char>) -> int
    decreases s.len(),
{
    if s.len() == 0 {
        0
    } else {
        digits_value(s.drop_last()) * 10 + (s[s.len() - 1] as int - '0' as int)
    }
}

/// The character of a digit has its value.
pub proof fn law_digit(n: nat)
    requires
        n < 10,
    ensures
        digit(n) as int == '0' as int + n,
{
}

/// A number is written in decimal digits that have its value, and does not start with a zero
/// unless it is zero. A negative number has a minus sign before it.
pub proof fn law_decimal(n: nat)
    ensures
        decimal(n).len() > 0,
        forall|i: int| 0 <= i < decimal(n).len() ==> '0' <= #[trigger] decimal(n)[i] <= '9',
        digits_value(decimal(n)) == n,
        n > 0 ==> decimal(n)[0] != '0',
        signed_decimal(n as int) == decimal(n),
        n > 0 ==> signed_decimal(-n) == seq!['-'] + decimal(n),
    decreases n,
{
    let d = decimal(n);
    if n < 10 {
        assert(d.drop_last() =~= seq![]);
        assert(digits_value(d.drop_last()) == 0);
    } else {
        law_decimal(n / 10);
        let front = decimal(n / 10);
        assert(d.drop_last() =~= front);
        assert forall|i: int| 0 <= i < d.len() implies '0' <= #[trigger] d[i] <= '9' by {
            if i < front.len() {
                assert(d[i] == front[i]);
            }
        }
        assert(d[0] == front[0]);
    }
}

/// The lines of a text, as [`split_lines`] gives them: none of them holds a line feed, and a
/// text without carriage returns is its lines with line feeds between them, and maybe one
/// behind them.
pub proof fn law_split_lines(text: &str, r: Vec<String>)
    requires
        call_ensures(split_lines, (text,), r),
    ensures
        forall|i: int, j: int|
            0 <= i < r@.len() && 0 <= j < r@[i]@.len() ==> #[trigger] r@[i]@[j] != '\n',
        (forall|j: int| 0 <= j < text@.len() ==> text@[j] != '\r') ==> {
            let joined = join(Seq::new(r@.len(), |i: int| r@[i]@), "\n"@);
            text@ == joined || text@ == joined.push('\n')
        },
{
    law_lines_make_up_the_text(text@);
    let ls = lines(text@);
    assert(texts(r@) =~= Seq::new(r@.len(), |i: int| r@[i]@));
    assert forall|i: int, j: int| 0 <= i < r@.len() && 0 <= j < r@[i]@.len() implies
        #[trigger] r@[i]@[j] != '\n' by {
        assert(texts(r@)[i] == r@[i]@);
        assert(ls[i][j] != '\n');
    }
}

/// The parts joined, as [`join_strings`] gives them: nothing, the one part, or, with one more
/// part, what the parts before it give, the separator and that part.
pub proof fn law_join_strings(
    parts: &Vec<String>,
    more: &Vec<String>,
    sep: &str,
    r: String,
    s: String,
)
    requires
        call_ensures(join_strings, (parts, sep), r),
        call_ensures(join_strings, (more, sep), s),
        more@.len() == parts@.len() + 1,
        forall|i: int| 0 <= i < parts@.len() ==> (#[trigger] more@[i])@ == parts@[i]@,
    ensures
        parts@.len() == 0 ==> r@.len() == 0 && s@ == more@[0]@,
        parts@.len() > 0 ==> s@ == r@ + sep@ + more@[parts@.len() as int]@,
{
    let a = texts(parts@);
    let last = more@[parts@.len() as int]@;
    assert(texts(more@) =~= a + seq![last]);
    law_join(a, seq![last], sep@);
    law_join(seq![last], a, sep@);
    if parts@.len() == 0 {
        assert(a + seq![last] =~= seq![last]);
    }
}

/// Trimming, as [`trimmed`] does it: the text is what is left, with white space before and
/// behind it, and what is left neither starts nor ends with white space.
pub proof fn law_trimmed(s: &str, r: String) -> (at: int)
    requires
        call_ensures(trimmed, (s,), r),
    ensures
        0 <= at <= at + r@.len() <= s@.len(),
        s@.subrange(at, at + r@.len()) == r@,
        forall|i: int| 0 <= i < at ==> white_space(#[trigger] s@[i]),
        forall|i: int| at + r@.len() <= i < s@.len() ==> white_space(#[trigger] s@[i]),
        r@.len() > 0 ==> !white_space(r@[0]) && !white_space(r@[r@.len() - 1]),
{
    law_trim(s@)
}

} // verus!
