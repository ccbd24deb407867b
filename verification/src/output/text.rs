//! Plain text: lines, joins, padding and the line-break tag.
//!
//! Text is modelled as a sequence of characters. The functions here work on
//! characters one by one, so that each of them can say exactly what it hands
//! back.

use vstd::prelude::*;
use vstd::string::StringExecFns;

verus! {

/// Appends `c` to `s`. This is `String::push` of the standard library, which
/// puts the character at the end and changes nothing else.
#[verifier::external_body]
pub(crate) fn push_char(s: &mut String, c: char)
    ensures
        final(s)@ == old(s)@.push(c),
{
    s.push(c)
}

/// The characters of `s`.
pub fn chars_of(s: &str) -> (v: Vec<char>)
    ensures
        v@ == s@,
{
    let mut v: Vec<char> = Vec::new();
    for c in it: s.chars()
        invariant
            v@ == it.seq().take(it.index() as int),
            it.seq() == s@,
    {
        v.push(c);
    }
    v
}

/// Appends `text` to `out`.
pub fn push_str(out: &mut String, text: &str)
    ensures
        final(out)@ == old(out)@ + text@,
{
    out.append(text);
}

/// Appends the characters of `chars` from `from` up to `to` to `out`.
pub fn push_chars(out: &mut String, chars: &Vec<char>, from: usize, to: usize)
    requires
        from <= to <= chars@.len(),
    ensures
        final(out)@ == old(out)@ + chars@.subrange(from as int, to as int),
{
    let mut i: usize = from;
    proof {
        assert(out@ =~= old(out)@ + chars@.subrange(from as int, from as int));
    }
    while i < to
        invariant
            from <= i <= to <= chars@.len(),
            out@ == old(out)@ + chars@.subrange(from as int, i as int),
        decreases to - i,
    {
        push_char(out, chars[i]);
        proof {
            assert(out@ =~= old(out)@ + chars@.subrange(from as int, i + 1));
        }
        i += 1;
    }
}

/// `n` blanks.
pub open spec fn spaces(n: nat) -> Seq<char> {
    Seq::new(n, |i: int| ' ')
}

/// Appends `n` blanks to `out`.
pub fn write_nspaces(out: &mut String, n: usize)
    ensures
        final(out)@ == old(out)@ + spaces(n as nat),
{
    let mut i: usize = 0;
    proof {
        assert(out@ =~= old(out)@ + spaces(0));
    }
    while i < n
        invariant
            i <= n,
            out@ == old(out)@ + spaces(i as nat),
        decreases n - i,
    {
        push_char(out, ' ');
        proof {
            assert(out@ =~= old(out)@ + spaces((i + 1) as nat));
        }
        i += 1;
    }
}

/// Whether `c` occurs in `s`.
pub open spec fn has_char(s: Seq<char>, c: char) -> bool {
    exists|i: int| 0 <= i < s.len() && s[i] == c
}

/// Tells whether `c` occurs in `chars`.
pub fn contains_char(chars: &Vec<char>, c: char) -> (b: bool)
    ensures
        b == has_char(chars@, c),
{
    let mut i: usize = 0;
    while i < chars.len()
        invariant
            i <= chars.len(),
            forall|j: int| 0 <= j < i ==> chars@[j] != c,
        decreases chars.len() - i,
    {
        if chars[i] == c {
            return true;
        }
        i += 1;
    }
    false
}

/// Whether the line-break tag, an `n` in braces, stands at place `i` of `s`.
pub open spec fn tag_at(s: Seq<char>, i: int) -> bool {
    0 <= i && i + 3 <= s.len() && s[i] == '{' && s[i + 1] == 'n' && s[i + 2] == '}'
}

/// Whether the line-break tag occurs in `s`.
pub open spec fn has_tag(s: Seq<char>) -> bool {
    exists|i: int| tag_at(s, i)
}

/// Tells whether the line-break tag stands at place `i` of `chars`.
fn is_tag_at(chars: &Vec<char>, i: usize) -> (b: bool)
    requires
        i <= chars@.len(),
    ensures
        b == tag_at(chars@, i as int),
{
    chars.len() - i >= 3 && chars[i] == '{' && chars[i + 1] == 'n' && chars[i + 2] == '}'
}

/// Tells whether the line-break tag occurs in `chars`.
pub fn contains_tag(chars: &Vec<char>) -> (b: bool)
    ensures
        b == has_tag(chars@),
{
    let mut i: usize = 0;
    while i < chars.len()
        invariant
            i <= chars.len(),
            forall|j: int| 0 <= j < i ==> !tag_at(chars@, j),
        decreases chars.len() - i,
    {
        if is_tag_at(chars, i) {
            return true;
        }
        i += 1;
    }
    false
}

/// `s` with every line-break tag replaced by a line feed, from left to
/// right.
pub open spec fn untagged(s: Seq<char>) -> Seq<char>
    decreases s.len(),
{
    if s.len() == 0 {
        s
    } else if tag_at(s, 0) {
        seq!['\n'] + untagged(s.skip(3))
    } else {
        seq![s[0]] + untagged(s.skip(1))
    }
}

/// Replaces every line-break tag in `chars` by a line feed.
pub fn replace_tags(chars: &Vec<char>) -> (out: Vec<char>)
    ensures
        out@ == untagged(chars@),
{
    let mut out: Vec<char> = Vec::new();
    let mut i: usize = 0;
    proof {
        assert(chars@.skip(0) =~= chars@);
        assert(out@ + untagged(chars@.skip(0)) =~= untagged(chars@));
    }
    while i < chars.len()
        invariant
            i <= chars.len(),
            out@ + untagged(chars@.skip(i as int)) == untagged(chars@),
        decreases chars.len() - i,
    {
        let ghost rest = chars@.skip(i as int);
        let ghost before = out@;
        if is_tag_at(chars, i) {
            proof {
                assert(tag_at(rest, 0));
                assert(rest.skip(3) =~= chars@.skip(i + 3));
                assert(before.push('\n') + untagged(chars@.skip(i + 3)) =~= before + (seq!['\n']
                    + untagged(rest.skip(3))));
            }
            out.push('\n');
            i += 3;
        } else {
            proof {
                assert(!tag_at(rest, 0));
                assert(rest.skip(1) =~= chars@.skip(i + 1));
                assert(before.push(chars@[i as int]) + untagged(chars@.skip(i + 1)) =~= before + (
                seq![rest[0]] + untagged(rest.skip(1))));
            }
            out.push(chars[i]);
            i += 1;
        }
    }
    proof {
        assert(chars@.skip(chars@.len() as int) =~= Seq::<char>::empty());
        assert(out@ + Seq::<char>::empty() =~= out@);
    }
    out
}

/// `s` with every blank replaced by a hyphen.
pub open spec fn hyphenated(s: Seq<char>) -> Seq<char> {
    s.map_values(
        |c: char|
            if c == ' ' {
                '-'
            } else {
                c
            },
    )
}

/// Appends `chars` to `out` with every blank replaced by a hyphen.
pub fn push_hyphenated(out: &mut String, chars: &Vec<char>)
    ensures
        final(out)@ == old(out)@ + hyphenated(chars@),
{
    let mut i: usize = 0;
    proof {
        assert(out@ =~= old(out)@ + hyphenated(chars@).take(0));
    }
    while i < chars.len()
        invariant
            i <= chars.len(),
            out@ == old(out)@ + hyphenated(chars@).take(i as int),
        decreases chars.len() - i,
    {
        let c = if chars[i] == ' ' {
            '-'
        } else {
            chars[i]
        };
        push_char(out, c);
        proof {
            assert(out@ =~= old(out)@ + hyphenated(chars@).take(i + 1));
        }
        i += 1;
    }
    proof {
        assert(hyphenated(chars@).take(chars@.len() as int) =~= hyphenated(chars@));
    }
}

/// `n` is the place of the first line feed in `s`.
pub open spec fn line_ends_at(s: Seq<char>, n: int) -> bool {
    &&& 0 <= n < s.len()
    &&& s[n] == '\n'
    &&& forall|j: int| 0 <= j < n ==> s[j] != '\n'
}

/// The place of the first line feed in `s`, or the length of `s` if there is
/// none.
pub open spec fn line_end(s: Seq<char>) -> int {
    if exists|n: int| line_ends_at(s, n) {
        choose|n: int| line_ends_at(s, n)
    } else {
        s.len() as int
    }
}

/// `s` without the carriage return at its end, if there is one.
pub open spec fn without_cr(s: Seq<char>) -> Seq<char> {
    if s.len() > 0 && s.last() == '\r' {
        s.drop_last()
    } else {
        s
    }
}

/// The lines of `s`. A line ends at a line feed, or at a carriage return
/// directly in front of one; neither belongs to the line. What follows the
/// last line feed is a line of its own unless it is empty.
pub open spec fn lines_of(s: Seq<char>) -> Seq<Seq<char>>
    decreases s.len(),
{
    if s.len() == 0 {
        Seq::empty()
    } else if line_end(s) < s.len() && line_end(s) >= 0 {
        seq![without_cr(s.take(line_end(s)))] + lines_of(s.skip(line_end(s) + 1))
    } else {
        seq![s]
    }
}

/// There is one first line feed at most.
pub proof fn lemma_line_end(s: Seq<char>, n: int)
    requires
        line_ends_at(s, n),
    ensures
        line_end(s) == n,
{
    let m = line_end(s);
    assert(line_ends_at(s, m));
    if m < n {
        assert(s[m] != '\n');
    } else if n < m {
        assert(s[n] != '\n');
    }
}

/// Without a line feed the text ends where it ends.
pub proof fn lemma_no_line_end(s: Seq<char>)
    requires
        forall|j: int| 0 <= j < s.len() ==> s[j] != '\n',
    ensures
        line_end(s) == s.len(),
{
    if exists|n: int| line_ends_at(s, n) {
        let n = choose|n: int| line_ends_at(s, n);
        assert(s[n] != '\n');
    }
}

/// Splits `chars` into its lines.
pub fn split_lines(chars: &Vec<char>) -> (lines: Vec<Vec<char>>)
    ensures
        lines_view(lines@) == lines_of(chars@),
{
    let mut lines: Vec<Vec<char>> = Vec::new();
    let mut start: usize = 0;
    let mut i: usize = 0;
    proof {
        assert(chars@.skip(0) =~= chars@);
        assert(lines_view(lines@) =~= Seq::<Seq<char>>::empty());
        assert(lines_view(lines@) + lines_of(chars@.skip(0)) =~= lines_of(chars@));
    }
    while i < chars.len()
        invariant
            start <= i <= chars.len(),
            lines_view(lines@) + lines_of(chars@.skip(start as int)) == lines_of(chars@),
            forall|j: int| start <= j < i ==> chars@[j] != '\n',
        decreases chars.len() - i,
    {
        if chars[i] == '\n' {
            let ghost rest = chars@.skip(start as int);
            let end = if i > start && chars[i - 1] == '\r' {
                i - 1
            } else {
                i
            };
            let mut line: Vec<char> = Vec::new();
            let mut j: usize = start;
            while j < end
                invariant
                    start <= j <= end <= chars.len(),
                    line@ == chars@.subrange(start as int, j as int),
                decreases end - j,
            {
                line.push(chars[j]);
                proof {
                    assert(line@ =~= chars@.subrange(start as int, j + 1));
                }
                j += 1;
            }
            proof {
                assert(line_ends_at(rest, i - start));
                lemma_line_end(rest, i - start);
                assert(rest.take(i - start) =~= chars@.subrange(start as int, i as int));
                assert(without_cr(rest.take(i - start)) =~= line@);
                assert(rest.skip(i - start + 1) =~= chars@.skip(i + 1));
                let before = lines_view(lines@);
                assert(lines_view(lines@.push(line)) =~= before.push(line@));
                assert(before.push(line@) + lines_of(chars@.skip(i + 1)) =~= before + (seq![line@]
                    + lines_of(chars@.skip(i + 1))));
            }
            lines.push(line);
            start = i + 1;
        }
        i += 1;
    }
    let ghost rest = chars@.skip(start as int);
    if start < chars.len() {
        let mut line: Vec<char> = Vec::new();
        let mut j: usize = start;
        while j < chars.len()
            invariant
                start <= j <= chars.len(),
                line@ == chars@.subrange(start as int, j as int),
            decreases chars.len() - j,
        {
            line.push(chars[j]);
            proof {
                assert(line@ =~= chars@.subrange(start as int, j + 1));
            }
            j += 1;
        }
        proof {
            lemma_no_line_end(rest);
            assert(line@ =~= rest);
            let before = lines_view(lines@);
            assert(lines_view(lines@.push(line)) =~= before.push(line@));
            assert(before.push(line@) =~= before + seq![rest]);
        }
        lines.push(line);
    } else {
        proof {
            assert(rest =~= Seq::<char>::empty());
            assert(lines_view(lines@) + Seq::<Seq<char>>::empty() =~= lines_view(lines@));
        }
    }
    lines
}

/// The texts held by a list of character vectors, in order.
pub open spec fn lines_view(v: Seq<Vec<char>>) -> Seq<Seq<char>> {
    v.map_values(|l: Vec<char>| l@)
}

/// The parts with `sep` between each two of them.
pub open spec fn joined(parts: Seq<Seq<char>>, sep: Seq<char>) -> Seq<char>
    decreases parts.len(),
{
    if parts.len() == 0 {
        Seq::empty()
    } else if parts.len() == 1 {
        parts[0]
    } else {
        joined(parts.drop_last(), sep) + sep + parts.last()
    }
}

/// Appends the strings of `parts` to `out` with `sep` between each two.
pub fn push_joined(out: &mut String, parts: &Vec<String>, sep: &str)
    ensures
        final(out)@ == old(out)@ + joined(crate::names::names_of(parts@), sep@),
{
    let ghost all = crate::names::names_of(parts@);
    let mut i: usize = 0;
    proof {
        assert(all.take(0) =~= Seq::<Seq<char>>::empty());
        assert(out@ =~= old(out)@ + joined(all.take(0), sep@));
    }
    while i < parts.len()
        invariant
            i <= parts.len(),
            all == crate::names::names_of(parts@),
            out@ == old(out)@ + joined(all.take(i as int), sep@),
        decreases parts.len() - i,
    {
        let ghost before = out@;
        proof {
            let next = all.take(i + 1);
            assert(next.drop_last() =~= all.take(i as int));
            assert(next.last() == parts@[i as int]@);
            if i == 0 {
                assert(next[0] == parts@[0]@);
                assert(joined(all.take(0), sep@) =~= Seq::<char>::empty());
            }
        }
        if i > 0 {
            out.append(sep);
        }
        out.append(parts[i].as_str());
        proof {
            let next = all.take(i + 1);
            if i == 0 {
                assert(out@ =~= old(out)@ + joined(next, sep@));
            } else {
                assert(out@ =~= old(out)@ + (joined(all.take(i as int), sep@) + sep@ + next.last()));
            }
        }
        i += 1;
    }
    proof {
        assert(all.take(parts@.len() as int) =~= all);
    }
}

} // verus!
