//! Help text: its layout, and the templates after which it can be laid out.

use vstd::prelude::*;
use vstd::string::StringSliceAdditionalSpecFns;
use vstd::utf8::{encode_utf8, is_ascii_chars};
use crate::names::{Name, names_of, opt_name};
use crate::args::{App, AppSpec, Arg, ArgKind, ArgSpec, SubCommand, SubCommandSpec};
use crate::output::text::{push_char, push_str, push_chars, chars_of, spaces, write_nspaces,
    has_char, contains_char, has_tag, contains_tag, untagged, replace_tags, hyphenated,
    push_hyphenated, lines_of, split_lines, lines_view, joined, push_joined};
use crate::output::outside::{display_width, str_width, filled, fill_line, max_rank};
use crate::output::order::{by_rank, rank_order};

verus! {

/// The size of the terminal, columns first, where it is known. This build
/// does not ask the terminal and never knows it.
pub fn dimensions() -> (size: Option<(usize, usize)>)
    ensures
        size is None,
{
    None
}

/// How a copy that stops at a delimiter byte ended.
#[derive(Clone, Copy, Debug, PartialEq, Eq, Structural)]
pub enum CopyUntilResult {
    /// The delimiter was read after this many bytes had been copied.
    DelimiterFound(usize),
    /// The input ended, without a delimiter, after this many bytes had been
    /// copied; the number is not zero.
    DelimiterNotFound(usize),
    /// There was nothing left to read.
    ReaderEmpty,
}

/// Whether `n` is the place of the first `delimiter` in `s`.
pub open spec fn first_delimiter_at(s: Seq<u8>, delimiter: u8, n: int) -> bool {
    &&& 0 <= n < s.len()
    &&& s[n] == delimiter
    &&& forall|j: int| 0 <= j < n ==> s[j] != delimiter
}

/// The place of the first `delimiter` in `s`, where there is one.
pub open spec fn delimiter_index(s: Seq<u8>, delimiter: u8) -> int {
    choose|n: int| first_delimiter_at(s, delimiter, n)
}

/// There is one first place at most.
pub proof fn lemma_delimiter_index(s: Seq<u8>, delimiter: u8, n: int)
    requires
        first_delimiter_at(s, delimiter, n),
    ensures
        delimiter_index(s, delimiter) == n,
{
    let m = delimiter_index(s, delimiter);
    assert(first_delimiter_at(s, delimiter, m));
    if m < n {
        assert(s[m] != delimiter);
    } else if n < m {
        assert(s[n] != delimiter);
    }
}

/// Whether `delimiter` does not occur in `s`.
pub open spec fn no_delimiter(s: Seq<u8>, delimiter: u8) -> bool {
    forall|j: int| 0 <= j < s.len() ==> s[j] != delimiter
}

/// Copies bytes of `input`, from `*pos` on and at most up to `limit`, to the
/// end of `out`, until it reads `delimiter_byte`. The delimiter is read and
/// not copied; `*pos` is left behind what was read.
pub fn copy_until(
    input: &[u8],
    pos: &mut usize,
    limit: usize,
    out: &mut Vec<u8>,
    delimiter_byte: u8,
) -> (r: CopyUntilResult)
    requires
        *old(pos) <= limit <= input@.len(),
    ensures
        ({
            let rest = input@.subrange(*old(pos) as int, limit as int);
            match r {
                CopyUntilResult::DelimiterFound(n) => {
                    &&& first_delimiter_at(rest, delimiter_byte, n as int)
                    &&& final(out)@ == old(out)@ + rest.take(n as int)
                    &&& *final(pos) == *old(pos) + n + 1
                },
                CopyUntilResult::DelimiterNotFound(n) => {
                    &&& n == rest.len()
                    &&& n > 0
                    &&& no_delimiter(rest, delimiter_byte)
                    &&& final(out)@ == old(out)@ + rest
                    &&& *final(pos) == limit
                },
                CopyUntilResult::ReaderEmpty => {
                    &&& rest.len() == 0
                    &&& final(out)@ == old(out)@
                    &&& *final(pos) == *old(pos)
                },
            }
        }),
{
    let start = *pos;
    let ghost rest = input@.subrange(start as int, limit as int);
    let mut count: usize = 0;
    proof {
        assert(out@ =~= old(out)@ + rest.take(0));
    }
    while *pos < limit
        invariant
            start <= *pos <= limit <= input@.len(),
            start == *old(pos),
            *pos == start + count,
            rest == input@.subrange(start as int, limit as int),
            out@ == old(out)@ + rest.take(count as int),
            forall|j: int| 0 <= j < count ==> rest[j] != delimiter_byte,
        decreases limit - *pos,
    {
        let b = input[*pos];
        assert(rest[count as int] == b);
        *pos += 1;
        if b == delimiter_byte {
            return CopyUntilResult::DelimiterFound(count);
        }
        proof {
            assert(rest.take(count + 1) =~= rest.take(count as int).push(b));
            assert(old(out)@ + rest.take(count as int).push(b) =~= (old(out)@ + rest.take(
                count as int,
            )).push(b));
        }
        out.push(b);
        count += 1;
    }
    proof {
        assert(rest.take(count as int) =~= rest);
    }
    if count > 0 {
        CopyUntilResult::DelimiterNotFound(count)
    } else {
        assert(out@ =~= old(out)@);
        CopyUntilResult::ReaderEmpty
    }
}

/// What follows the first opening brace of `rest`, as far as a tag buffer of
/// `capacity` bytes can take it.
pub open spec fn tag_window(rest: Seq<u8>, open_at: int, capacity: int) -> Seq<u8> {
    let after = rest.skip(open_at + 1);
    if capacity < after.len() {
        after.take(capacity)
    } else {
        after
    }
}

/// Copies bytes of `input`, from `*pos` on, to the end of `out` until it reads
/// an opening brace, then captures what stands between the braces at the
/// front of `tag_buffer`, whose length does not change.
///
/// - `None`: the input is used up.
/// - `Some(0)`: nothing was captured, and there may be more input. An
///   opening brace that no closing brace follows within the length of
///   `tag_buffer` has been copied to `out` with what followed it.
/// - `Some(k)` with `k > 0`: the first `k` bytes of `tag_buffer` are a tag.
pub fn copy_and_capture(input: &[u8], pos: &mut usize, out: &mut Vec<u8>, tag_buffer: &mut Vec<u8>)
    -> (r: Option<usize>)
    requires
        *old(pos) <= input@.len(),
    ensures
        final(tag_buffer)@.len() == old(tag_buffer)@.len(),
        *final(pos) <= input@.len(),
        ({
            let rest = input@.skip(*old(pos) as int);
            if no_delimiter(rest, 0x7b) {
                &&& r is None
                &&& final(out)@ == old(out)@ + rest
                &&& *final(pos) == input@.len()
                &&& final(tag_buffer)@ == old(tag_buffer)@
            } else {
                let n = delimiter_index(rest, 0x7b);
                let window = tag_window(rest, n, old(tag_buffer)@.len() as int);
                if window.len() == 0 {
                    &&& r is None
                    &&& final(out)@ == old(out)@ + rest.take(n)
                    &&& *final(pos) == *old(pos) + n + 1
                    &&& final(tag_buffer)@ == old(tag_buffer)@
                } else if no_delimiter(window, 0x7d) {
                    &&& r == Some(0usize)
                    &&& final(out)@ == old(out)@ + rest.take(n) + seq![0x7bu8] + window
                    &&& *final(pos) == *old(pos) + n + 1 + window.len()
                    &&& final(tag_buffer)@ == window + old(tag_buffer)@.skip(window.len() as int)
                } else {
                    let k = delimiter_index(window, 0x7d);
                    &&& r == Some(k as usize)
                    &&& final(out)@ == old(out)@ + rest.take(n)
                    &&& *final(pos) == *old(pos) + n + 1 + k + 1
                    &&& final(tag_buffer)@ == window.take(k) + old(tag_buffer)@.skip(k)
                }
            }
        }),
{
    let ghost start = *pos as int;
    let ghost rest = input@.skip(start);
    let ghost tag0 = tag_buffer@;
    assert(input@.subrange(start, input@.len() as int) =~= rest);
    match copy_until(input, pos, input.len(), out, 0x7b) {
        CopyUntilResult::ReaderEmpty => {
            assert(out@ =~= old(out)@ + rest);
            None
        },
        CopyUntilResult::DelimiterNotFound(_) => None,
        CopyUntilResult::DelimiterFound(n) => {
            assert(!no_delimiter(rest, 0x7b)) by {
                assert(rest[n as int] == 0x7b);
            }
            let buffer_size = tag_buffer.len();
            let left = input.len() - *pos;
            let limit = if buffer_size < left {
                *pos + buffer_size
            } else {
                input.len()
            };
            let ghost window = tag_window(rest, n as int, buffer_size as int);
            assert(input@.subrange(*pos as int, limit as int) =~= window);
            let ghost mid = out@;
            let mut captured: Vec<u8> = Vec::new();
            let found = copy_until(input, pos, limit, &mut captured, 0x7d);
            match found {
                CopyUntilResult::ReaderEmpty => {
                    proof {
                        lemma_delimiter_index(rest, 0x7b, n as int);
                    }
                    None
                },
                CopyUntilResult::DelimiterFound(k) => {
                    assert(captured@ =~= window.take(k as int));
                    overwrite_front(tag_buffer, &captured);
                    assert(!no_delimiter(window, 0x7d)) by {
                        assert(window[k as int] == 0x7d);
                    }
                    proof {
                        lemma_delimiter_index(rest, 0x7b, n as int);
                        lemma_delimiter_index(window, 0x7d, k as int);
                    }
                    Some(k)
                },
                CopyUntilResult::DelimiterNotFound(k) => {
                    assert(captured@ =~= window);
                    overwrite_front(tag_buffer, &captured);
                    out.push(0x7b);
                    let mut j: usize = 0;
                    while j < captured.len()
                        invariant
                            j <= captured.len(),
                            out@ == mid.push(0x7bu8) + captured@.take(j as int),
                        decreases captured.len() - j,
                    {
                        proof {
                            assert(captured@.take(j + 1) =~= captured@.take(j as int).push(
                                captured@[j as int],
                            ));
                        }
                        out.push(captured[j]);
                        j += 1;
                    }
                    proof {
                        assert(captured@.take(captured.len() as int) =~= captured@);
                        assert(out@ =~= old(out)@ + rest.take(n as int) + seq![0x7bu8] + window);
                        lemma_delimiter_index(rest, 0x7b, n as int);
                    }
                    Some(0)
                },
            }
        },
    }
}

/// Writes `bytes` over the front of `buffer`, which is at least as long.
fn overwrite_front(buffer: &mut Vec<u8>, bytes: &Vec<u8>)
    requires
        bytes@.len() <= old(buffer)@.len(),
    ensures
        final(buffer)@ == bytes@ + old(buffer)@.skip(bytes@.len() as int),
{
    let mut j: usize = 0;
    while j < bytes.len()
        invariant
            j <= bytes.len(),
            bytes@.len() <= buffer@.len(),
            buffer@.len() == old(buffer)@.len(),
            buffer@ == bytes@.take(j as int) + old(buffer)@.skip(j as int),
        decreases bytes.len() - j,
    {
        buffer.set(j, bytes[j]);
        proof {
            assert(buffer@ =~= bytes@.take(j + 1) + old(buffer)@.skip(j + 1));
        }
        j += 1;
    }
    proof {
        assert(bytes@.take(bytes.len() as int) =~= bytes@);
    }
}

/// The sum of `a` and `b`, or the greatest number if the sum is greater.
pub open spec fn plus(a: usize, b: usize) -> usize {
    if a + b > usize::MAX {
        usize::MAX
    } else {
        (a + b) as usize
    }
}

/// `a` less `b`, or zero if `b` is greater.
pub open spec fn minus(a: usize, b: usize) -> usize {
    if a >= b {
        (a - b) as usize
    } else {
        0
    }
}

/// The columns that are left of `width` once `margin` columns are taken. A
/// margin wider than the terminal leaves the text without a limit.
pub open spec fn room(width: usize, margin: usize) -> usize {
    if margin <= width {
        (width - margin) as usize
    } else {
        usize::MAX
    }
}

/// The width that help is laid out for: the width that the model sets, with
/// zero for no limit; else the width of the terminal, or 120 columns if that
/// is not known, but no more than the greatest width that the model allows.
pub open spec fn width_for(
    term_width: Option<usize>,
    max_term_width: Option<usize>,
    size: Option<(usize, usize)>,
) -> usize {
    match term_width {
        Some(w) => if w == 0 {
            usize::MAX
        } else {
            w
        },
        None => {
            let seen = match size {
                Some(s) => s.0,
                None => 120usize,
            };
            let most = match max_term_width {
                Some(m) => if m == 0 {
                    usize::MAX
                } else {
                    m
                },
                None => usize::MAX,
            };
            if seen <= most {
                seen
            } else {
                most
            }
        },
    }
}

/// Computes the width that help is laid out for.
pub fn term_width_for(
    term_width: Option<usize>,
    max_term_width: Option<usize>,
    size: Option<(usize, usize)>,
) -> (w: usize)
    ensures
        w == width_for(term_width, max_term_width, size),
{
    match term_width {
        Some(w) => if w == 0 {
            usize::MAX
        } else {
            w
        },
        None => {
            let seen = match size {
                Some(s) => s.0,
                None => 120,
            };
            let most = match max_term_width {
                Some(m) => if m == 0 {
                    usize::MAX
                } else {
                    m
                },
                None => usize::MAX,
            };
            if seen <= most {
                seen
            } else {
                most
            }
        },
    }
}

/// The least number of columns that is more than two fifths of `width`.
pub open spec fn two_fifths(width: usize) -> usize {
    ((width * 2) / 5 + 1) as usize
}

/// Computes the least number of columns that is more than two fifths of
/// `width`.
pub fn more_than_two_fifths(width: usize) -> (taken: usize)
    ensures
        taken == two_fifths(width),
        taken * 5 > width * 2,
        (taken - 1) * 5 <= width * 2,
{
    let q = width / 5;
    let r = width % 5;
    assert(width == 5 * q + r);
    q * 2 + (r * 2) / 5 + 1
}

/// The text of an optional string; nothing if there is none.
pub open spec fn opt_text(o: Option<Seq<char>>) -> Seq<char> {
    match o {
        Some(s) => s,
        None => Seq::empty(),
    }
}

/// The first of two optional texts that is there; nothing if neither is.
pub open spec fn first_of(a: Option<Seq<char>>, b: Option<Seq<char>>) -> Seq<char> {
    match a {
        Some(s) => s,
        None => opt_text(b),
    }
}

/// How a flag or option is written on the command line: its long form, else
/// its short form, else its name.
pub open spec fn switch_text(a: ArgSpec) -> Seq<char> {
    match a.long {
        Some(l) => "--"@ + l,
        None => match a.short {
            Some(c) => "-"@.push(c),
            None => a.name,
        },
    }
}

/// How help names an argument: a flag by its switch, an option by its
/// switch and its name in angle brackets, a positional argument by its name
/// in angle brackets; three dots follow where more than one value is taken.
pub open spec fn arg_text(a: ArgSpec) -> Seq<char> {
    match a.kind {
        ArgKind::Flag => switch_text(a),
        ArgKind::Opt => switch_text(a) + " <"@ + a.name + ">"@ + if a.multiple_values {
            "..."@
        } else {
            Seq::empty()
        },
        ArgKind::Positional(_) => "<"@ + a.name + ">"@ + if a.multiple {
            "..."@
        } else {
            Seq::empty()
        },
    }
}

/// Appends `text` if there is one.
fn push_opt(out: &mut String, text: &Option<String>)
    ensures
        final(out)@ == old(out)@ + opt_text(opt_name(*text)),
{
    match text {
        Some(t) => {
            push_str(out, t.as_str());
        },
        None => {
            assert(out@ =~= old(out)@ + Seq::<char>::empty());
        },
    }
}

/// Appends the first of two optional texts that is there.
fn push_first_of(out: &mut String, a: &Option<String>, b: &Option<String>)
    ensures
        final(out)@ == old(out)@ + first_of(opt_name(*a), opt_name(*b)),
{
    match a {
        Some(t) => {
            push_str(out, t.as_str());
        },
        None => {
            push_opt(out, b);
        },
    }
}

/// How help names `arg`.
pub fn arg_string(arg: &Arg) -> (text: String)
    ensures
        text@ == arg_text(arg@),
{
    let mut text = String::new();
    let ghost mut sw: Seq<char> = Seq::empty();
    match arg.kind {
        ArgKind::Positional(_) => {
            push_str(&mut text, "<");
            push_str(&mut text, arg.name.as_str());
            push_str(&mut text, ">");
            if arg.multiple {
                push_str(&mut text, "...");
            }
            proof {
                assert(text@ =~= arg_text(arg@));
            }
        },
        _ => {
            match &arg.long {
                Some(l) => {
                    push_str(&mut text, "--");
                    push_str(&mut text, l.as_str());
                },
                None => match arg.short {
                    Some(c) => {
                        push_str(&mut text, "-");
                        push_char(&mut text, c);
                    },
                    None => {
                        push_str(&mut text, arg.name.as_str());
                    },
                },
            }
            proof {
                assert(text@ =~= switch_text(arg@));
            }
            match arg.kind {
                ArgKind::Opt => {
                    push_str(&mut text, " <");
                    push_str(&mut text, arg.name.as_str());
                    push_str(&mut text, ">");
                    if arg.multiple_values {
                        push_str(&mut text, "...");
                    }
                    proof {
                        assert(text@ =~= arg_text(arg@));
                    }
                },
                _ => {},
            }
        },
    }
    text
}

/// The text `s` laid out for `width` columns: each of its lines is filled on
/// its own, and the filled lines stand one below the other. A line that
/// holds a character outside ASCII is not filled.
pub open spec fn wrapped(s: Seq<char>, width: usize) -> Seq<char> {
    joined(lines_of(s).map_values(fill_with(width)), "\n"@)
}

/// Filling a line for `width` columns, as a function of the line. A line
/// that holds a character outside ASCII is left as it stands.
pub open spec fn fill_with(width: usize) -> spec_fn(Seq<char>) -> Seq<char> {
    |l: Seq<char>|
        if is_ascii_chars(l) {
            filled(l, width)
        } else {
            l
        }
}

/// Lays `help` out for `avail_chars` columns.
pub fn wrap_help(help: &str, avail_chars: usize) -> (text: String)
    ensures
        text@ == wrapped(help@, avail_chars),
{
    let chars = chars_of(help);
    wrap_chars(&chars, avail_chars)
}

/// Lays the text `chars` out for `avail_chars` columns.
pub fn wrap_chars(chars: &Vec<char>, avail_chars: usize) -> (text: String)
    ensures
        text@ == wrapped(chars@, avail_chars),
{
    let lines = split_lines(chars);
    let ghost all = lines_of(chars@);
    let ghost fill = fill_with(avail_chars);
    let mut parts: Vec<String> = Vec::new();
    let mut i: usize = 0;
    proof {
        assert(names_of(parts@) =~= all.take(0).map_values(fill));
        assert(lines_view(lines@).len() == lines@.len());
    }
    while i < lines.len()
        invariant
            i <= lines.len(),
            all == lines_of(chars@),
            lines_view(lines@) == all,
            fill == fill_with(avail_chars),
            parts@.len() == i,
            all.len() == lines@.len(),
            names_of(parts@) == all.take(i as int).map_values(fill),
        decreases lines.len() - i,
    {
        let mut line = String::new();
        push_chars(&mut line, &lines[i], 0, lines[i].len());
        proof {
            assert(lines@[i as int]@.subrange(0, lines@[i as int]@.len() as int)
                =~= lines@[i as int]@);
            assert(line@ =~= lines@[i as int]@);
            assert(all[i as int] == lines@[i as int]@);
        }
        let part = if line.as_str().is_ascii() {
            fill_line(line.as_str(), avail_chars)
        } else {
            line
        };
        proof {
            let lhs = names_of(parts@.push(part));
            let rhs = all.take(i + 1).map_values(fill);
            assert(lhs.len() == rhs.len());
            assert forall|j: int| 0 <= j < lhs.len() implies lhs[j] == rhs[j] by {
                if j < i {
                    assert(names_of(parts@)[j] == all.take(i as int).map_values(fill)[j]);
                } else {
                    assert(fill(all[i as int]) == if is_ascii_chars(all[i as int]) {
                        filled(all[i as int], avail_chars)
                    } else {
                        all[i as int]
                    });
                }
            }
            assert(lhs =~= rhs);
        }
        parts.push(part);
        i += 1;
    }
    proof {
        assert(all.take(lines@.len() as int) =~= all);
    }
    let mut text = String::new();
    push_joined(&mut text, &parts, "\n");
    proof {
        assert(text@ =~= joined(names_of(parts@), "\n"@));
    }
    text
}

/// The lines with a line feed and `indent` in front of each but the first.
pub open spec fn indented(lines: Seq<Seq<char>>, indent: Seq<char>) -> Seq<char>
    decreases lines.len(),
{
    if lines.len() == 0 {
        Seq::empty()
    } else if lines.len() == 1 {
        lines[0]
    } else {
        indented(lines.drop_last(), indent) + "\n"@ + indent + lines.last()
    }
}

/// A help text next to, or below, what it explains.
///
/// `margin` is the number of columns in front of the text and `indent` what
/// stands in front of each of its lines but the first. The text is broken
/// into lines where it would reach the right edge or where it holds a
/// line-break tag. With `own_line` the text stands on lines of its own, and
/// a line feed follows it if it is one line only; with `lead` a line feed
/// and three tabs go before it.
pub open spec fn laid_out(
    term_width: usize,
    own_line: bool,
    lead: bool,
    margin: usize,
    indent: Seq<char>,
    text: Seq<char>,
    spec_vals: Seq<char>,
    h_w: usize,
) -> Seq<char> {
    let body = help_body(term_width, margin, text, spec_vals, h_w);
    (if lead {
        "\n"@ + spaces(12)
    } else {
        Seq::empty()
    }) + indented(lines_of(body), indent) + (if !has_char(body, '\n') && own_line {
        "\n"@
    } else {
        Seq::empty()
    })
}

/// The help text with what is to be said of values, broken into lines if
/// need be.
pub open spec fn help_body(
    term_width: usize,
    margin: usize,
    text: Seq<char>,
    spec_vals: Seq<char>,
    h_w: usize,
) -> Seq<char> {
    if (plus(margin, h_w) >= term_width && margin <= term_width) || has_tag(text) {
        wrapped(untagged(text + spec_vals), room(term_width, margin))
    } else {
        text + spec_vals
    }
}

/// Appends the lines of `chars` with a line feed and `indent` blanks in
/// front of each but the first.
fn push_indented(out: &mut String, chars: &Vec<char>, indent: usize)
    ensures
        final(out)@ == old(out)@ + indented(lines_of(chars@), spaces(indent as nat)),
{
    let lines = split_lines(chars);
    let ghost all = lines_of(chars@);
    let ghost ind = spaces(indent as nat);
    let mut i: usize = 0;
    proof {
        assert(out@ =~= old(out)@ + indented(all.take(0), ind));
    }
    while i < lines.len()
        invariant
            i <= lines.len(),
            all == lines_of(chars@),
            lines_view(lines@) == all,
            ind == spaces(indent as nat),
            out@ == old(out)@ + indented(all.take(i as int), ind),
        decreases lines.len() - i,
    {
        proof {
            let next = all.take(i + 1);
            assert(next.drop_last() =~= all.take(i as int));
            assert(next.last() == lines@[i as int]@);
            assert(all[i as int] == lines@[i as int]@);
            if i == 0 {
                assert(next[0] == lines@[0]@);
                assert(indented(all.take(0), ind) =~= Seq::<char>::empty());
            }
            assert(lines@[i as int]@.subrange(0, lines@[i as int]@.len() as int)
                =~= lines@[i as int]@);
        }
        if i > 0 {
            push_str(out, "\n");
            write_nspaces(out, indent);
        }
        push_chars(out, &lines[i], 0, lines[i].len());
        proof {
            let next = all.take(i + 1);
            if i == 0 {
                assert(out@ =~= old(out)@ + indented(next, ind));
            } else {
                assert(out@ =~= old(out)@ + (indented(all.take(i as int), ind) + "\n"@ + ind
                    + next.last()));
            }
        }
        i += 1;
    }
    proof {
        assert(all.take(lines@.len() as int) =~= all);
    }
}

/// Appends a help text next to, or below, what it explains.
fn push_laid_out(
    out: &mut String,
    term_width: usize,
    own_line: bool,
    lead: bool,
    margin: usize,
    indent: usize,
    text: &str,
    spec_vals: &str,
    h_w: usize,
)
    ensures
        final(out)@ == old(out)@ + laid_out(
            term_width,
            own_line,
            lead,
            margin,
            spaces(indent as nat),
            text@,
            spec_vals@,
            h_w,
        ),
{
    let mut full = String::new();
    push_str(&mut full, text);
    push_str(&mut full, spec_vals);
    proof {
        assert(full@ =~= text@ + spec_vals@);
    }
    let too_long = margin.saturating_add(h_w) >= term_width;
    let text_chars = chars_of(text);
    let body: Vec<char> = if (too_long && margin <= term_width) || contains_tag(&text_chars) {
        let avail = if margin <= term_width {
            term_width - margin
        } else {
            usize::MAX
        };
        let flat = replace_tags(&chars_of(full.as_str()));
        chars_of(wrap_chars(&flat, avail).as_str())
    } else {
        chars_of(full.as_str())
    };
    assert(body@ == help_body(term_width, margin, text@, spec_vals@, h_w));
    let ghost start = out@;
    if lead {
        push_str(out, "\n");
        write_nspaces(out, 12);
    }
    let ghost led = out@;
    push_indented(out, &body, indent);
    if !contains_char(&body, '\n') && own_line {
        push_str(out, "\n");
    }
    proof {
        let l = if lead {
            "\n"@ + spaces(12)
        } else {
            Seq::<char>::empty()
        };
        let t = if !has_char(body@, '\n') && own_line {
            "\n"@
        } else {
            Seq::<char>::empty()
        };
        assert(led =~= start + l);
        assert(out@ =~= start + (l + indented(lines_of(body@), spaces(indent as nat)) + t));
    }
}

/// The mathematical value of a [`HelpWriter`].
#[verifier::ext_equal]
pub struct HelpSpec {
    pub app: AppSpec,
    pub use_stderr: bool,
    /// Whether every help text goes below what it explains.
    pub next_line_help: bool,
    /// Whether possible values are left out.
    pub hide_pv: bool,
    /// The number of columns that the text is laid out for.
    pub term_width: usize,
    /// The width of the left column from which on a help text that does not
    /// fit beside it goes below it.
    pub next_line_from: usize,
    /// Working value: the widest name in the list that is being written.
    pub longest: usize,
    /// Working value: whether the help text of the entry that is being
    /// written goes below it for want of room.
    pub force_next_line: bool,
    /// Whether the long texts are shown.
    pub use_long: bool,
}

/// Lays out help for a model.
pub struct HelpWriter<'a> {
    app: &'a App,
    use_stderr: bool,
    next_line_help: bool,
    hide_pv: bool,
    term_width: usize,
    next_line_from: usize,
    longest: usize,
    force_next_line: bool,
    use_long: bool,
}

impl<'a> View for HelpWriter<'a> {
    type V = HelpSpec;

    closed spec fn view(&self) -> HelpSpec {
        HelpSpec {
            app: self.app@,
            use_stderr: self.use_stderr,
            next_line_help: self.next_line_help,
            hide_pv: self.hide_pv,
            term_width: self.term_width,
            next_line_from: self.next_line_from,
            longest: self.longest,
            force_next_line: self.force_next_line,
            use_long: self.use_long,
        }
    }
}

impl HelpSpec {
    /// The same writer with other working values.
    pub open spec fn working(self, longest: usize, force_next_line: bool) -> HelpSpec {
        HelpSpec { longest, force_next_line, ..self }
    }

    /// Whether two writers differ in their working values at most.
    pub open spec fn same_settings(self, other: HelpSpec) -> bool {
        self.working(0, false) == other.working(0, false)
    }
}

/// What help says of the values of an argument: its default, its aliases,
/// and the values it can take, each in square brackets.
pub open spec fn spec_vals_parts(hide_pv: bool, a: ArgSpec) -> Seq<Seq<char>> {
    (if !a.hide_default_value && a.default_value is Some {
        seq![" [default: "@ + a.default_value->0 + "]"@]
    } else {
        Seq::empty()
    }) + (if a.visible_aliases.len() > 0 {
        seq![" [aliases: "@ + joined(a.visible_aliases, ", "@) + "]"@]
    } else {
        Seq::empty()
    }) + (if !hide_pv && !a.hide_possible_values && a.possible_values.len() > 0 {
        seq![" [values: "@ + joined(a.possible_values, ", "@) + "]"@]
    } else {
        Seq::empty()
    })
}

/// What help says of the values of an argument, as one text.
pub open spec fn spec_vals_text(hide_pv: bool, a: ArgSpec) -> Seq<char> {
    joined(spec_vals_parts(hide_pv, a), " "@)
}

/// The help text of an argument that is shown: the long one if long texts
/// are asked for and there is one, else the short one, and the other way
/// round.
pub open spec fn shown_help(use_long: bool, a: ArgSpec) -> Seq<char> {
    if use_long {
        first_of(a.long_help, a.help)
    } else {
        first_of(a.help, a.long_help)
    }
}

/// What goes before the name of an argument that has a long form: its short
/// form with a comma, or a tab in its place.
pub open spec fn short_text(a: ArgSpec) -> Seq<char> {
    match a.short {
        Some(c) => if a.long is Some {
            "-"@.push(c) + ", "@
        } else {
            arg_text(a)
        },
        None => if a.has_switch() {
            spaces(4)
        } else {
            Seq::empty()
        },
    }
}

/// Whether a help text goes below its entry for want of room: the left
/// column takes more than its share of the line, and the text does not fit
/// into the rest.
pub open spec fn forces_next_line(h: HelpSpec, nlh: bool, taken: usize, h_w: usize) -> bool {
    !nlh && h.term_width >= taken && taken >= h.next_line_from && h_w > h.term_width - taken
}

/// The width of the help text of an argument with what is said of its
/// values.
pub open spec fn help_width(h: HelpSpec, a: ArgSpec) -> usize {
    plus(display_width(shown_help(h.use_long, a)), display_width(spec_vals_text(h.hide_pv, a)))
}

/// Whether the help text of the argument goes below it for want of room.
pub open spec fn arg_forced(h: HelpSpec, a: ArgSpec) -> bool {
    forces_next_line(h, h.next_line_help || a.next_line_help, plus(h.longest, 12), help_width(h, a))
}

/// The blanks between the name of an argument and its help text.
pub open spec fn arg_gap(h: HelpSpec, a: ArgSpec) -> Seq<char> {
    let arg_len = display_width(arg_text(a));
    if h.next_line_help || a.next_line_help || arg_forced(h, a) {
        Seq::empty()
    } else if a.has_switch() {
        spaces(
            plus(
                minus(h.longest, arg_len),
                if a.long is Some {
                    4
                } else {
                    8
                },
            ) as nat,
        )
    } else {
        spaces(minus(plus(h.longest, 4), arg_len) as nat)
    }
}

/// Whether the help text of the argument stands on lines of its own.
pub open spec fn arg_own_line(h: HelpSpec, a: ArgSpec) -> bool {
    h.next_line_help || a.next_line_help || h.use_long || arg_forced(h, a)
}

/// The help text of an argument, laid out.
pub open spec fn arg_help(h: HelpSpec, a: ArgSpec) -> Seq<char> {
    let own = arg_own_line(h, a);
    laid_out(
        h.term_width,
        own,
        own,
        if own {
            12
        } else {
            plus(h.longest, 12)
        },
        spaces(
            (if own {
                12
            } else if a.has_switch() {
                plus(h.longest, 12)
            } else {
                plus(h.longest, 8)
            }) as nat,
        ),
        shown_help(h.use_long, a),
        spec_vals_text(h.hide_pv, a),
        help_width(h, a),
    )
}

/// The entry of an argument in help: a tab, its short form if it has a long
/// one too, its name, the gap, and its help text.
#[verifier::opaque]
pub open spec fn arg_block(h: HelpSpec, a: ArgSpec) -> Seq<char> {
    spaces(4) + (if a.long is Some {
        short_text(a)
    } else {
        Seq::empty()
    }) + arg_text(a) + arg_gap(h, a) + arg_help(h, a)
}

impl<'a> HelpWriter<'a> {
    /// A writer for `app`. The width of the terminal is taken from the model
    /// where it sets one, and from [`dimensions`] else.
    pub fn new(app: &'a App, use_stderr: bool) -> (hw: Self)
        ensures
            hw@ == (HelpSpec {
                app: app@,
                use_stderr,
                next_line_help: app@.next_line_help,
                hide_pv: app@.hide_possible_values,
                term_width: width_for(app@.term_width, app@.max_term_width, None),
                next_line_from: two_fifths(width_for(app@.term_width, app@.max_term_width, None)),
                longest: 0,
                force_next_line: false,
                use_long: false,
            }),
    {
        let term_width = term_width_for(app.term_width, app.max_term_width, dimensions());
        HelpWriter {
            app,
            use_stderr,
            next_line_help: app.next_line_help,
            hide_pv: app.hide_possible_values,
            term_width,
            next_line_from: more_than_two_fifths(term_width),
            longest: 0,
            force_next_line: false,
            use_long: false,
        }
    }

    /// The same writer for a terminal of `width` columns.
    pub fn with_term_width(self, width: usize) -> (hw: Self)
        ensures
            hw@ == (HelpSpec {
                term_width: width,
                next_line_from: two_fifths(width),
                ..self@
            }),
    {
        let mut hw = self;
        hw.term_width = width;
        hw.next_line_from = more_than_two_fifths(width);
        hw
    }

    /// The same writer with another width of the left column from which on
    /// a help text that does not fit beside its entry goes below it.
    pub fn with_next_line_from(self, taken: usize) -> (hw: Self)
        ensures
            hw@ == (HelpSpec { next_line_from: taken, ..self@ }),
    {
        let mut hw = self;
        hw.next_line_from = taken;
        hw
    }

    /// The number of columns that the text is laid out for.
    pub fn term_width(&self) -> (w: usize)
        ensures
            w == self@.term_width,
    {
        self.term_width
    }

    /// Whether errors go to the error stream.
    pub fn use_stderr(&self) -> (b: bool)
        ensures
            b == self@.use_stderr,
    {
        self.use_stderr
    }

    /// What help says of the values of `a`.
    fn spec_vals(&self, a: &Arg) -> (text: String)
        ensures
            text@ == spec_vals_text(self@.hide_pv, a@),
    {
        let mut parts: Vec<String> = Vec::new();
        proof {
            assert(names_of(parts@) =~= Seq::<Seq<char>>::empty());
        }
        if !a.hide_default_value {
            match &a.default_value {
                Some(pv) => {
                    let mut part = String::new();
                    push_str(&mut part, " [default: ");
                    push_str(&mut part, pv.as_str());
                    push_str(&mut part, "]");
                    proof {
                        assert(part@ =~= " [default: "@ + pv@ + "]"@);
                        assert(names_of(parts@.push(part)) =~= seq![part@]);
                    }
                    parts.push(part);
                },
                None => {},
            }
        }
        let ghost first = names_of(parts@);
        if a.visible_aliases.len() > 0 {
            let mut part = String::new();
            push_str(&mut part, " [aliases: ");
            push_joined(&mut part, &a.visible_aliases, ", ");
            push_str(&mut part, "]");
            proof {
                assert(part@ =~= " [aliases: "@ + joined(a@.visible_aliases, ", "@) + "]"@);
                assert(names_of(parts@.push(part)) =~= first + seq![part@]);
            }
            parts.push(part);
        } else {
            proof {
                assert(first + Seq::<Seq<char>>::empty() =~= first);
            }
        }
        let ghost second = names_of(parts@);
        if !self.hide_pv && !a.hide_possible_values && a.possible_values.len() > 0 {
            let mut part = String::new();
            push_str(&mut part, " [values: ");
            push_joined(&mut part, &a.possible_values, ", ");
            push_str(&mut part, "]");
            proof {
                assert(part@ =~= " [values: "@ + joined(a@.possible_values, ", "@) + "]"@);
                assert(names_of(parts@.push(part)) =~= second + seq![part@]);
            }
            parts.push(part);
        } else {
            proof {
                assert(second + Seq::<Seq<char>>::empty() =~= second);
            }
        }
        let mut text = String::new();
        push_joined(&mut text, &parts, " ");
        proof {
            assert(text@ =~= joined(names_of(parts@), " "@));
        }
        text
    }

    /// Writes what goes before the name of an argument that has a long form.
    fn short(&self, out: &mut String, arg: &Arg, arg_str: &str)
        requires
            arg_str@ == arg_text(arg@),
        ensures
            final(out)@ == old(out)@ + short_text(arg@),
    {
        match arg.short {
            Some(c) => {
                if arg.long.is_some() {
                    push_str(out, "-");
                    push_char(out, c);
                    push_str(out, ", ");
                    proof {
                        assert(out@ =~= old(out)@ + ("-"@.push(c) + ", "@));
                    }
                } else {
                    push_str(out, arg_str);
                }
            },
            None => {
                if arg.long.is_some() {
                    write_nspaces(out, 4);
                } else {
                    proof {
                        assert(out@ =~= old(out)@ + Seq::<char>::empty());
                    }
                }
            },
        }
    }

    /// Writes the blanks between the name of an argument and its help text,
    /// and tells whether the help text goes below for want of room.
    fn write_arg_spaces(&self, out: &mut String, arg: &Arg, arg_len: usize, h_w: usize) -> (force:
        bool)
        requires
            arg_len == display_width(arg_text(arg@)),
            h_w == help_width(self@, arg@),
        ensures
            final(out)@ == old(out)@ + arg_gap(self@, arg@),
            force == arg_forced(self@, arg@),
    {
        let nlh = self.next_line_help || arg.next_line_help;
        let taken = self.longest.saturating_add(12);
        let force = !nlh && self.term_width >= taken && taken >= self.next_line_from && h_w
            > self.term_width - taken;
        let has_switch = arg.short.is_some() || arg.long.is_some();
        if nlh || force {
            proof {
                assert(out@ =~= old(out)@ + Seq::<char>::empty());
            }
        } else if has_switch {
            let spcs = self.longest.saturating_sub(arg_len).saturating_add(
                if arg.long.is_some() {
                    4
                } else {
                    8
                },
            );
            write_nspaces(out, spcs);
        } else {
            write_nspaces(out, self.longest.saturating_add(4).saturating_sub(arg_len));
        }
        force
    }

    /// Writes the help text of an argument.
    fn help(&self, out: &mut String, arg: &Arg, spec_vals: &str, h: &str, h_w: usize, force: bool)
        requires
            spec_vals@ == spec_vals_text(self@.hide_pv, arg@),
            h@ == shown_help(self@.use_long, arg@),
            h_w == help_width(self@, arg@),
            force == arg_forced(self@, arg@),
        ensures
            final(out)@ == old(out)@ + arg_help(self@, arg@),
    {
        let own = self.next_line_help || arg.next_line_help || self.use_long || force;
        let has_switch = arg.short.is_some() || arg.long.is_some();
        let margin = if own {
            12
        } else {
            self.longest.saturating_add(12)
        };
        let indent = if own {
            12
        } else if has_switch {
            self.longest.saturating_add(12)
        } else {
            self.longest.saturating_add(8)
        };
        push_laid_out(out, self.term_width, own, own, margin, indent, h, spec_vals, h_w);
    }

    /// The help text of `arg` that is shown.
    fn shown_help(&self, arg: &Arg) -> (h: String)
        ensures
            h@ == shown_help(self@.use_long, arg@),
    {
        let mut h = String::new();
        if self.use_long {
            push_first_of(&mut h, &arg.long_help, &arg.help);
        } else {
            push_first_of(&mut h, &arg.help, &arg.long_help);
        }
        proof {
            assert(h@ =~= shown_help(self@.use_long, arg@));
        }
        h
    }

    /// Writes the tab and the name of an argument, with its short form in
    /// front if it has a long one too.
    fn write_arg_name(&self, out: &mut String, arg: &Arg, arg_str: &str)
        requires
            arg_str@ == arg_text(arg@),
        ensures
            final(out)@ == old(out)@ + (spaces(4) + (if arg@.long is Some {
                short_text(arg@)
            } else {
                Seq::empty()
            }) + arg_text(arg@)),
    {
        write_nspaces(out, 4);
        let ghost o1 = out@;
        if arg.long.is_some() {
            self.short(out, arg, arg_str);
        }
        let ghost o2 = out@;
        push_str(out, arg_str);
        proof {
            let s = if arg@.long is Some {
                short_text(arg@)
            } else {
                Seq::<char>::empty()
            };
            assert(o2 =~= o1 + s);
            assert(out@ =~= old(out)@ + (spaces(4) + s + arg_text(arg@)));
        }
    }

    /// Writes the entry of an argument.
    fn write_arg(&mut self, out: &mut String, arg: &Arg, arg_str: &str, arg_len: usize)
        requires
            arg_str@ == arg_text(arg@),
            arg_len == display_width(arg_str@),
        ensures
            final(out)@ == old(out)@ + arg_block(old(self)@, arg@),
            final(self)@ == old(self)@.working(old(self)@.longest, arg_forced(old(self)@, arg@)),
    {
        self.write_arg_name(out, arg, arg_str);
        let ghost o1 = out@;
        let spec_vals = self.spec_vals(arg);
        let h = self.shown_help(arg);
        let h_w = str_width(h.as_str()).saturating_add(str_width(spec_vals.as_str()));
        let force = self.write_arg_spaces(out, arg, arg_len, h_w);
        let ghost o2 = out@;
        self.help(out, arg, spec_vals.as_str(), h.as_str(), h_w, force);
        proof {
            assert(out@ =~= old(out)@ + arg_block(old(self)@, arg@)) by {
                reveal(arg_block);
                assert(out@ == o2 + arg_help(old(self)@, arg@));
                assert(o2 == o1 + arg_gap(old(self)@, arg@));
            }
        }
        self.force_next_line = force;
    }
}

/// A kind of argument that help lists under a heading of its own.
#[derive(Clone, Copy, Debug, PartialEq, Eq, Structural)]
pub enum Listing {
    Flags,
    Opts,
    Positionals,
}

/// Whether the argument belongs to the listing.
pub open spec fn listed(a: ArgSpec, which: Listing) -> bool {
    match which {
        Listing::Flags => a.kind is Flag,
        Listing::Opts => a.kind is Opt,
        Listing::Positionals => a.kind is Positional,
    }
}

/// The places of the arguments that belong to the listing, in the order of
/// declaration.
pub open spec fn picks(args: Seq<ArgSpec>, which: Listing) -> Seq<usize>
    decreases args.len(),
{
    if args.len() == 0 {
        Seq::empty()
    } else if listed(args.last(), which) {
        picks(args.drop_last(), which).push((args.len() - 1) as usize)
    } else {
        picks(args.drop_last(), which)
    }
}

/// Those of the places `shown` whose argument is not hidden.
pub open spec fn visible(args: Seq<ArgSpec>, shown: Seq<usize>) -> Seq<usize>
    decreases shown.len(),
{
    if shown.len() == 0 {
        Seq::empty()
    } else if args[shown.last() as int].hidden {
        visible(args, shown.drop_last())
    } else {
        visible(args, shown.drop_last()).push(shown.last())
    }
}

/// The width of the widest name among the arguments at `order`, and two at
/// least. An argument whose help goes below it anyway does not count.
pub open spec fn longest_of(args: Seq<ArgSpec>, order: Seq<usize>) -> usize
    decreases order.len(),
{
    if order.len() == 0 {
        2
    } else {
        let before = longest_of(args, order.drop_last());
        let a = args[order.last() as int];
        if !a.next_line_help && display_width(arg_text(a)) > before {
            display_width(arg_text(a))
        } else {
            before
        }
    }
}

/// The entries of the arguments at `order`, one below the other.
pub open spec fn blocks(h: HelpSpec, order: Seq<usize>) -> Seq<char>
    decreases order.len(),
{
    if order.len() == 0 {
        Seq::empty()
    } else if order.len() == 1 {
        arg_block(h, h.app.args[order[0] as int])
    } else {
        blocks(h, order.drop_last()) + "\n"@ + arg_block(h, h.app.args[order.last() as int])
    }
}

/// The working value that says whether a help text went below its entry,
/// after the entries at `order` have been written.
pub open spec fn forced_after(h: HelpSpec, order: Seq<usize>) -> bool {
    if order.len() == 0 {
        h.force_next_line
    } else {
        arg_forced(h, h.app.args[order.last() as int])
    }
}

/// The display rank of every argument: its place if ranks are derived from
/// the order of declaration, else the rank it was given.
pub open spec fn arg_ranks(app: AppSpec) -> Seq<usize> {
    Seq::new(
        app.args.len(),
        |i: int|
            if app.derive_display_order {
                i as usize
            } else {
                app.args[i].display_order
            },
    )
}

/// The name of every argument.
pub open spec fn arg_names(app: AppSpec) -> Seq<Name> {
    Seq::new(app.args.len(), |i: int| app.args[i].name)
}

/// The entry of an argument does not depend on the working value that says
/// whether the last help text went below its entry.
pub proof fn lemma_block_frame(h: HelpSpec, force: bool, a: ArgSpec)
    ensures
        arg_block(h.working(h.longest, force), a) == arg_block(h, a),
        arg_forced(h.working(h.longest, force), a) == arg_forced(h, a),
{
    reveal(arg_block);
    let g = h.working(h.longest, force);
    assert(help_width(g, a) == help_width(h, a));
    assert(arg_forced(g, a) == arg_forced(h, a));
    assert(arg_gap(g, a) == arg_gap(h, a));
    assert(arg_help(g, a) == arg_help(h, a));
}

/// The entries do not depend on that working value either.
pub proof fn lemma_blocks_frame(h: HelpSpec, force: bool, order: Seq<usize>)
    ensures
        blocks(h.working(h.longest, force), order) == blocks(h, order),
    decreases order.len(),
{
    if order.len() > 0 {
        lemma_block_frame(h, force, h.app.args[order.last() as int]);
        lemma_block_frame(h, force, h.app.args[order[0] as int]);
        lemma_blocks_frame(h, force, order.drop_last());
    }
}

impl<'a> HelpWriter<'a> {
    /// The places of the arguments that belong to the listing.
    pub fn pick(&self, which: Listing) -> (shown: Vec<usize>)
        ensures
            shown@ == picks(self@.app.args, which),
            forall|k: int| 0 <= k < shown@.len() ==> shown@[k] < self@.app.args.len(),
    {
        let mut shown: Vec<usize> = Vec::new();
        let mut i: usize = 0;
        let ghost args = self.app@.args;
        proof {
            assert(args.take(0) =~= Seq::<ArgSpec>::empty());
        }
        while i < self.app.args.len()
            invariant
                i <= self.app.args.len(),
                args == self.app@.args,
                shown@ == picks(args.take(i as int), which),
                forall|k: int| 0 <= k < shown@.len() ==> shown@[k] < i,
            decreases self.app.args.len() - i,
        {
            proof {
                let next = args.take(i + 1);
                assert(next.drop_last() =~= args.take(i as int));
                assert(next.last() == self.app.args@[i as int]@);
            }
            let belongs = match (which, self.app.args[i].kind) {
                (Listing::Flags, ArgKind::Flag) => true,
                (Listing::Opts, ArgKind::Opt) => true,
                (Listing::Positionals, ArgKind::Positional(_)) => true,
                _ => false,
            };
            if belongs {
                shown.push(i);
            }
            i += 1;
        }
        proof {
            assert(args.take(args.len() as int) =~= args);
        }
        shown
    }

    /// Leaves out the hidden arguments among `shown` and notes the width of
    /// the widest name among the others.
    fn measure(&mut self, shown: &Vec<usize>) -> (order: Vec<usize>)
        requires
            forall|k: int| 0 <= k < shown@.len() ==> shown@[k] < old(self)@.app.args.len(),
        ensures
            order@ == visible(old(self)@.app.args, shown@),
            forall|k: int| 0 <= k < order@.len() ==> order@[k] < old(self)@.app.args.len(),
            final(self)@ == old(self)@.working(
                longest_of(old(self)@.app.args, order@),
                old(self)@.force_next_line,
            ),
    {
        let ghost args = self.app@.args;
        let ghost h0 = self@;
        self.longest = 2;
        let mut order: Vec<usize> = Vec::new();
        let mut k: usize = 0;
        proof {
            assert(shown@.take(0) =~= Seq::<usize>::empty());
        }
        while k < shown.len()
            invariant
                k <= shown.len(),
                args == self.app@.args,
                forall|j: int| 0 <= j < shown@.len() ==> shown@[j] < args.len(),
                forall|j: int| 0 <= j < order@.len() ==> order@[j] < args.len(),
                order@ == visible(args, shown@.take(k as int)),
                self@ == h0.working(longest_of(args, order@), h0.force_next_line),
            decreases shown.len() - k,
        {
            let arg = &self.app.args[shown[k]];
            proof {
                let next = shown@.take(k + 1);
                assert(next.drop_last() =~= shown@.take(k as int));
                assert(next.last() == shown@[k as int]);
                assert(args[shown@[k as int] as int] == arg@);
            }
            if !arg.hidden {
                let arg_len = str_width(arg_string(arg).as_str());
                proof {
                    assert(order@.push(shown@[k as int]).drop_last() =~= order@);
                }
                if !arg.next_line_help && arg_len > self.longest {
                    self.longest = arg_len;
                }
                order.push(shown[k]);
            }
            k += 1;
        }
        proof {
            assert(shown@.take(shown@.len() as int) =~= shown@);
        }
        order
    }

    /// Writes the entries of the arguments at `order`, one below the other.
    fn write_blocks(&mut self, out: &mut String, order: &Vec<usize>)
        requires
            forall|k: int| 0 <= k < order@.len() ==> order@[k] < old(self)@.app.args.len(),
        ensures
            final(out)@ == old(out)@ + blocks(old(self)@, order@),
            final(self)@ == old(self)@.working(
                old(self)@.longest,
                forced_after(old(self)@, order@),
            ),
    {
        let ghost h0 = self@;
        let mut k: usize = 0;
        proof {
            assert(order@.take(0) =~= Seq::<usize>::empty());
            assert(out@ =~= old(out)@ + blocks(h0, order@.take(0)));
        }
        while k < order.len()
            invariant
                k <= order.len(),
                h0 == old(self)@,
                forall|j: int| 0 <= j < order@.len() ==> order@[j] < h0.app.args.len(),
                out@ == old(out)@ + blocks(h0, order@.take(k as int)),
                self@ == h0.working(h0.longest, forced_after(h0, order@.take(k as int))),
            decreases order.len() - k,
        {
            let arg = &self.app.args[order[k]];
            let ghost before = out@;
            let ghost next = order@.take(k + 1);
            proof {
                assert(next.drop_last() =~= order@.take(k as int));
                assert(next.last() == order@[k as int]);
                assert(h0.app.args[order@[k as int] as int] == arg@);
                if k == 0 {
                    assert(next[0] == order@[0]);
                    assert(blocks(h0, order@.take(0)) =~= Seq::<char>::empty());
                }
                lemma_block_frame(h0, self@.force_next_line, arg@);
            }
            if k > 0 {
                push_str(out, "\n");
            }
            let arg_str = arg_string(arg);
            let arg_len = str_width(arg_str.as_str());
            self.write_arg(out, arg, arg_str.as_str(), arg_len);
            proof {
                if k == 0 {
                    assert(out@ =~= old(out)@ + blocks(h0, next));
                } else {
                    assert(out@ =~= old(out)@ + (blocks(h0, order@.take(k as int)) + "\n"@
                        + arg_block(h0, arg@)));
                }
            }
            k += 1;
        }
        proof {
            assert(order@.take(order@.len() as int) =~= order@);
        }
    }

    /// Writes the entries of the arguments at `shown` in the order given,
    /// leaving out the hidden ones.
    pub fn write_args_unsorted(&mut self, out: &mut String, shown: &Vec<usize>)
        requires
            forall|k: int| 0 <= k < shown@.len() ==> shown@[k] < old(self)@.app.args.len(),
        ensures
            ({
                let order = visible(old(self)@.app.args, shown@);
                let h = old(self)@.working(
                    longest_of(old(self)@.app.args, order),
                    old(self)@.force_next_line,
                );
                &&& final(out)@ == old(out)@ + blocks(h, order)
                &&& final(self)@ == h.working(h.longest, forced_after(h, order))
            }),
    {
        let order = self.measure(shown);
        self.write_blocks(out, &order);
    }

    /// The display rank and the name of every argument.
    fn ranks_and_names(&self) -> (r: (Vec<usize>, Vec<String>))
        ensures
            r.0@ == arg_ranks(self@.app),
            names_of(r.1@) == arg_names(self@.app),
            r.0@.len() == r.1@.len(),
            r.1@.len() == self@.app.args.len(),
    {
        let mut ranks: Vec<usize> = Vec::new();
        let mut names: Vec<String> = Vec::new();
        let mut i: usize = 0;
        while i < self.app.args.len()
            invariant
                i <= self.app.args.len(),
                ranks@.len() == i,
                names@.len() == i,
                forall|j: int| 0 <= j < i ==> ranks@[j] == arg_ranks(self.app@)[j],
                forall|j: int| 0 <= j < i ==> names@[j]@ == arg_names(self.app@)[j],
            decreases self.app.args.len() - i,
        {
            assert(self.app@.args[i as int] == self.app.args@[i as int]@);
            ranks.push(
                if self.app.derive_display_order {
                    i
                } else {
                    self.app.args[i].display_order
                },
            );
            names.push(self.app.args[i].name.clone());
            i += 1;
        }
        proof {
            assert(ranks@ =~= arg_ranks(self.app@));
            assert(names_of(names@) =~= arg_names(self.app@));
        }
        (ranks, names)
    }

    /// Writes the entries of the arguments at `shown`, leaving out the
    /// hidden ones, by ascending display rank and by name within a rank.
    ///
    /// The ranks of the arguments that are shown must not be greater than
    /// [`max_rank`]: one slot is kept for every rank up to the greatest.
    pub fn write_args(&mut self, out: &mut String, shown: &Vec<usize>)
        requires
            forall|k: int| 0 <= k < shown@.len() ==> shown@[k] < old(self)@.app.args.len(),
            forall|k: int|
                0 <= k < shown@.len() && !old(self)@.app.args[shown@[k] as int].hidden
                    ==> arg_ranks(old(self)@.app)[shown@[k] as int] <= max_rank(),
        ensures
            ({
                let seen = visible(old(self)@.app.args, shown@);
                let order = by_rank(arg_ranks(old(self)@.app), arg_names(old(self)@.app), seen);
                let h = old(self)@.working(
                    longest_of(old(self)@.app.args, seen),
                    old(self)@.force_next_line,
                );
                &&& final(out)@ == old(out)@ + blocks(h, order)
                &&& final(self)@ == h.working(h.longest, forced_after(h, order))
            }),
    {
        let ghost args = self@.app.args;
        let seen = self.measure(shown);
        let (ranks, names) = self.ranks_and_names();
        proof {
            lemma_visible_subset(args, shown@);
            assert forall|k: int| 0 <= k < seen@.len() implies ranks@[seen@[k] as int]
                <= max_rank() by {
                let j = choose|j: int|
                    0 <= j < shown@.len() && shown@[j] == seen@[k] && !args[shown@[j] as int].hidden;
                assert(arg_ranks(old(self)@.app)[shown@[j] as int] <= max_rank());
            }
        }
        let order = rank_order(&ranks, &names, &seen);
        self.write_blocks(out, &order);
    }
}

/// What is visible is shown and not hidden.
pub proof fn lemma_visible_subset(args: Seq<ArgSpec>, shown: Seq<usize>)
    ensures
        forall|k: int|
            0 <= k < visible(args, shown).len() ==> exists|j: int|
                0 <= j < shown.len() && shown[j] == #[trigger] visible(args, shown)[k]
                    && !args[shown[j] as int].hidden,
    decreases shown.len(),
{
    if shown.len() > 0 {
        let init = shown.drop_last();
        lemma_visible_subset(args, init);
        let vis = visible(args, shown);
        assert forall|k: int| 0 <= k < vis.len() implies exists|j: int|
            0 <= j < shown.len() && shown[j] == #[trigger] vis[k] && !args[shown[j] as int].hidden by {
            if k < visible(args, init).len() {
                assert(vis[k] == visible(args, init)[k]);
                let j = choose|j: int|
                    0 <= j < init.len() && init[j] == visible(args, init)[k]
                        && !args[init[j] as int].hidden;
                assert(shown[j] == init[j]);
            } else {
                let j = shown.len() - 1;
                assert(shown[j] == vis[k] && !args[shown[j] as int].hidden);
            }
        }
    }
}

/// What help says of the aliases of a subcommand.
pub open spec fn sub_spec_vals(s: SubCommandSpec) -> Seq<char> {
    if s.visible_aliases.len() > 0 {
        " [aliases: "@ + joined(s.visible_aliases, ", "@) + "]"@
    } else {
        Seq::empty()
    }
}

/// The description of a subcommand that is shown.
pub open spec fn sub_about(use_long: bool, s: SubCommandSpec) -> Seq<char> {
    if use_long {
        first_of(s.long_about, s.about)
    } else {
        first_of(s.about, s.long_about)
    }
}

/// The width of the description of a subcommand with what is said of its
/// aliases.
pub open spec fn sub_width(h: HelpSpec, s: SubCommandSpec) -> usize {
    plus(display_width(sub_about(h.use_long, s)), display_width(sub_spec_vals(s)))
}

/// Whether the description of the subcommand goes below it for want of
/// room.
pub open spec fn sub_forced(h: HelpSpec, s: SubCommandSpec) -> bool {
    forces_next_line(
        h,
        h.next_line_help || s.next_line_help || h.use_long,
        plus(h.longest, 8),
        sub_width(h, s),
    )
}

/// What stands between the name of a subcommand and its description: blanks,
/// or a line feed and three tabs.
pub open spec fn sub_gap(h: HelpSpec, s: SubCommandSpec) -> Seq<char> {
    if h.next_line_help || s.next_line_help || h.use_long || sub_forced(h, s) {
        "\n"@ + spaces(12)
    } else {
        spaces(plus(minus(h.longest, display_width(s.name)), 4) as nat)
    }
}

/// The description of a subcommand, laid out.
pub open spec fn sub_help(h: HelpSpec, s: SubCommandSpec) -> Seq<char> {
    let own = h.next_line_help || h.use_long || sub_forced(h, s);
    let margin = if own {
        12
    } else {
        plus(h.longest, 8)
    };
    laid_out(
        h.term_width,
        own,
        false,
        margin,
        spaces(margin as nat),
        sub_about(h.use_long, s),
        sub_spec_vals(s),
        sub_width(h, s),
    )
}

/// The entry of a subcommand in help.
#[verifier::opaque]
pub open spec fn sub_block(h: HelpSpec, s: SubCommandSpec) -> Seq<char> {
    spaces(4) + s.name + sub_gap(h, s) + sub_help(h, s)
}

/// The places of the subcommands that are not hidden, in the order of
/// declaration.
pub open spec fn visible_subs(subs: Seq<SubCommandSpec>) -> Seq<usize>
    decreases subs.len(),
{
    if subs.len() == 0 {
        Seq::empty()
    } else if subs.last().hidden {
        visible_subs(subs.drop_last())
    } else {
        visible_subs(subs.drop_last()).push((subs.len() - 1) as usize)
    }
}

/// The width of the widest name among the subcommands at `order`, and two at
/// least.
pub open spec fn sub_longest_of(subs: Seq<SubCommandSpec>, order: Seq<usize>) -> usize
    decreases order.len(),
{
    if order.len() == 0 {
        2
    } else {
        let before = sub_longest_of(subs, order.drop_last());
        let w = display_width(subs[order.last() as int].name);
        if w > before {
            w
        } else {
            before
        }
    }
}

/// The entries of the subcommands at `order`, one below the other.
pub open spec fn sub_blocks(h: HelpSpec, order: Seq<usize>) -> Seq<char>
    decreases order.len(),
{
    if order.len() == 0 {
        Seq::empty()
    } else if order.len() == 1 {
        sub_block(h, h.app.subcommands[order[0] as int])
    } else {
        sub_blocks(h, order.drop_last()) + "\n"@ + sub_block(
            h,
            h.app.subcommands[order.last() as int],
        )
    }
}

/// The working value that says whether a description went below its entry,
/// after the entries at `order` have been written.
pub open spec fn sub_forced_after(h: HelpSpec, order: Seq<usize>) -> bool {
    if order.len() == 0 {
        h.force_next_line
    } else {
        sub_forced(h, h.app.subcommands[order.last() as int])
    }
}

/// The display rank of every subcommand.
pub open spec fn sub_ranks(app: AppSpec) -> Seq<usize> {
    Seq::new(app.subcommands.len(), |i: int| app.subcommands[i].display_order)
}

/// The name of every subcommand.
pub open spec fn sub_names(app: AppSpec) -> Seq<Name> {
    Seq::new(app.subcommands.len(), |i: int| app.subcommands[i].name)
}

/// The subcommands that help lists, in its order.
pub open spec fn subs_in_order(app: AppSpec) -> Seq<usize> {
    by_rank(sub_ranks(app), sub_names(app), visible_subs(app.subcommands))
}

/// The writer as it lists the subcommands.
pub open spec fn sub_writer(h: HelpSpec) -> HelpSpec {
    h.working(
        sub_longest_of(h.app.subcommands, visible_subs(h.app.subcommands)),
        h.force_next_line,
    )
}

/// The list of the subcommands.
#[verifier::opaque]
pub open spec fn subcommands_text(h: HelpSpec) -> Seq<char> {
    sub_blocks(
        h.working(sub_longest_of(h.app.subcommands, visible_subs(h.app.subcommands)), false),
        subs_in_order(h.app),
    )
}

/// The entries of the subcommands do not depend on the working value that
/// says whether the last description went below its entry.
pub proof fn lemma_sub_blocks_frame(h: HelpSpec, force: bool, order: Seq<usize>)
    ensures
        sub_blocks(h.working(h.longest, force), order) == sub_blocks(h, order),
    decreases order.len(),
{
    if order.len() > 0 {
        lemma_sub_block_frame(h, force, h.app.subcommands[order.last() as int]);
        lemma_sub_block_frame(h, force, h.app.subcommands[order[0] as int]);
        lemma_sub_blocks_frame(h, force, order.drop_last());
    }
}

/// The entry of a subcommand does not depend on the working value that says
/// whether the last description went below its entry.
pub proof fn lemma_sub_block_frame(h: HelpSpec, force: bool, s: SubCommandSpec)
    ensures
        sub_block(h.working(h.longest, force), s) == sub_block(h, s),
        sub_forced(h.working(h.longest, force), s) == sub_forced(h, s),
{
    reveal(sub_block);
    let g = h.working(h.longest, force);
    assert(sub_width(g, s) == sub_width(h, s));
    assert(sub_forced(g, s) == sub_forced(h, s));
    assert(sub_gap(g, s) == sub_gap(h, s));
    assert(sub_help(g, s) == sub_help(h, s));
}

impl<'a> HelpWriter<'a> {
    /// What help says of the aliases of `sc`.
    fn subcommand_spec_vals(&self, sc: &SubCommand) -> (text: String)
        ensures
            text@ == sub_spec_vals(sc@),
    {
        let mut text = String::new();
        if sc.visible_aliases.len() > 0 {
            push_str(&mut text, " [aliases: ");
            push_joined(&mut text, &sc.visible_aliases, ", ");
            push_str(&mut text, "]");
            proof {
                assert(text@ =~= " [aliases: "@ + joined(sc@.visible_aliases, ", "@) + "]"@);
            }
        }
        text
    }

    /// Writes what stands between the name of a subcommand and its
    /// description, and tells whether the description goes below for want of
    /// room.
    fn write_subcommand_spaces(&self, out: &mut String, sc: &SubCommand, h_w: usize) -> (force:
        bool)
        requires
            h_w == sub_width(self@, sc@),
        ensures
            final(out)@ == old(out)@ + sub_gap(self@, sc@),
            force == sub_forced(self@, sc@),
    {
        let nlh = self.next_line_help || sc.next_line_help || self.use_long;
        let taken = self.longest.saturating_add(8);
        let force = !nlh && self.term_width >= taken && taken >= self.next_line_from && h_w
            > self.term_width - taken;
        if !(nlh || force) {
            let spcs = self.longest.saturating_sub(str_width(sc.name.as_str())).saturating_add(4);
            write_nspaces(out, spcs);
        } else {
            push_str(out, "\n");
            write_nspaces(out, 12);
            proof {
                assert(out@ =~= old(out)@ + ("\n"@ + spaces(12)));
            }
        }
        force
    }

    /// Writes the description of a subcommand.
    fn subcommand_help(
        &self,
        out: &mut String,
        sc: &SubCommand,
        spec_vals: &str,
        h: &str,
        h_w: usize,
        force: bool,
    )
        requires
            spec_vals@ == sub_spec_vals(sc@),
            h@ == sub_about(self@.use_long, sc@),
            h_w == sub_width(self@, sc@),
            force == sub_forced(self@, sc@),
        ensures
            final(out)@ == old(out)@ + sub_help(self@, sc@),
    {
        let own = self.next_line_help || self.use_long || force;
        let margin = if own {
            12
        } else {
            self.longest.saturating_add(8)
        };
        push_laid_out(out, self.term_width, own, false, margin, margin, h, spec_vals, h_w);
    }

    /// Writes the entry of a subcommand.
    fn write_subcommand_as_arg(&mut self, out: &mut String, sc: &SubCommand)
        ensures
            final(out)@ == old(out)@ + sub_block(old(self)@, sc@),
            final(self)@ == old(self)@.working(old(self)@.longest, sub_forced(old(self)@, sc@)),
    {
        write_nspaces(out, 4);
        push_str(out, sc.name.as_str());
        let ghost o1 = out@;
        let spec_vals = self.subcommand_spec_vals(sc);
        let mut h = String::new();
        if self.use_long {
            push_first_of(&mut h, &sc.long_about, &sc.about);
        } else {
            push_first_of(&mut h, &sc.about, &sc.long_about);
        }
        proof {
            assert(h@ =~= sub_about(self@.use_long, sc@));
        }
        let h_w = str_width(h.as_str()).saturating_add(str_width(spec_vals.as_str()));
        let force = self.write_subcommand_spaces(out, sc, h_w);
        let ghost o2 = out@;
        self.subcommand_help(out, sc, spec_vals.as_str(), h.as_str(), h_w, force);
        proof {
            assert(out@ =~= old(out)@ + sub_block(old(self)@, sc@)) by {
                reveal(sub_block);
                assert(o1 =~= old(out)@ + (spaces(4) + sc@.name));
                assert(o2 == o1 + sub_gap(old(self)@, sc@));
                assert(out@ == o2 + sub_help(old(self)@, sc@));
            }
        }
        self.force_next_line = force;
    }

    /// The display rank and the name of every subcommand.
    fn sub_ranks_and_names(&self) -> (r: (Vec<usize>, Vec<String>))
        ensures
            r.0@ == sub_ranks(self@.app),
            names_of(r.1@) == sub_names(self@.app),
            r.0@.len() == r.1@.len(),
            r.1@.len() == self@.app.subcommands.len(),
    {
        let mut ranks: Vec<usize> = Vec::new();
        let mut names: Vec<String> = Vec::new();
        let mut i: usize = 0;
        while i < self.app.subcommands.len()
            invariant
                i <= self.app.subcommands.len(),
                ranks@.len() == i,
                names@.len() == i,
                forall|j: int| 0 <= j < i ==> ranks@[j] == sub_ranks(self.app@)[j],
                forall|j: int| 0 <= j < i ==> names@[j]@ == sub_names(self.app@)[j],
            decreases self.app.subcommands.len() - i,
        {
            assert(self.app@.subcommands[i as int] == self.app.subcommands@[i as int]@);
            ranks.push(self.app.subcommands[i].display_order);
            names.push(self.app.subcommands[i].name.clone());
            i += 1;
        }
        proof {
            assert(ranks@ =~= sub_ranks(self.app@));
            assert(names_of(names@) =~= sub_names(self.app@));
        }
        (ranks, names)
    }

    /// Leaves out the hidden subcommands and notes the width of the widest
    /// name among the others.
    fn measure_subcommands(&mut self) -> (order: Vec<usize>)
        ensures
            order@ == visible_subs(old(self)@.app.subcommands),
            forall|k: int| 0 <= k < order@.len() ==> order@[k] < old(self)@.app.subcommands.len(),
            final(self)@ == sub_writer(old(self)@),
    {
        let ghost subs = self.app@.subcommands;
        let ghost h0 = self@;
        self.longest = 2;
        let mut order: Vec<usize> = Vec::new();
        let mut i: usize = 0;
        proof {
            assert(subs.take(0) =~= Seq::<SubCommandSpec>::empty());
        }
        while i < self.app.subcommands.len()
            invariant
                i <= self.app.subcommands.len(),
                subs == self.app@.subcommands,
                forall|j: int| 0 <= j < order@.len() ==> order@[j] < i,
                order@ == visible_subs(subs.take(i as int)),
                self@ == h0.working(sub_longest_of(subs, order@), h0.force_next_line),
            decreases self.app.subcommands.len() - i,
        {
            let sc = &self.app.subcommands[i];
            proof {
                let next = subs.take(i + 1);
                assert(next.drop_last() =~= subs.take(i as int));
                assert(next.last() == sc@);
                assert(subs[i as int] == sc@);
            }
            if !sc.hidden {
                let w = str_width(sc.name.as_str());
                proof {
                    assert(order@.push(i).drop_last() =~= order@);
                }
                if w > self.longest {
                    self.longest = w;
                }
                order.push(i);
            }
            i += 1;
        }
        proof {
            assert(subs.take(subs.len() as int) =~= subs);
        }
        order
    }

    /// Writes the list of the subcommands that are not hidden, by ascending
    /// display rank and by name within a rank.
    ///
    /// The ranks of the subcommands that are shown must not be greater than
    /// [`max_rank`].
    pub fn write_subcommands(&mut self, out: &mut String)
        requires
            ranks_in_reach(sub_ranks(old(self)@.app), visible_subs(old(self)@.app.subcommands)),
        ensures
            final(out)@ == old(out)@ + subcommands_text(old(self)@),
            final(self)@ == sub_writer(old(self)@).working(
                sub_writer(old(self)@).longest,
                sub_forced_after(sub_writer(old(self)@), subs_in_order(old(self)@.app)),
            ),
    {
        let seen = self.measure_subcommands();
        let ghost h0 = self@;
        let (ranks, names) = self.sub_ranks_and_names();
        let order = rank_order(&ranks, &names, &seen);
        let mut k: usize = 0;
        proof {
            assert(order@.take(0) =~= Seq::<usize>::empty());
            assert(out@ =~= old(out)@ + sub_blocks(h0, order@.take(0)));
        }
        while k < order.len()
            invariant
                k <= order.len(),
                h0.app == self@.app,
                forall|j: int| 0 <= j < order@.len() ==> order@[j] < h0.app.subcommands.len(),
                out@ == old(out)@ + sub_blocks(h0, order@.take(k as int)),
                self@ == h0.working(h0.longest, sub_forced_after(h0, order@.take(k as int))),
            decreases order.len() - k,
        {
            let sc = &self.app.subcommands[order[k]];
            let ghost next = order@.take(k + 1);
            proof {
                assert(next.drop_last() =~= order@.take(k as int));
                assert(next.last() == order@[k as int]);
                assert(h0.app.subcommands[order@[k as int] as int] == sc@);
                if k == 0 {
                    assert(next[0] == order@[0]);
                    assert(sub_blocks(h0, order@.take(0)) =~= Seq::<char>::empty());
                }
                lemma_sub_block_frame(h0, self@.force_next_line, sc@);
            }
            if k > 0 {
                push_str(out, "\n");
            }
            self.write_subcommand_as_arg(out, sc);
            proof {
                if k == 0 {
                    assert(out@ =~= old(out)@ + sub_blocks(h0, next));
                } else {
                    assert(out@ =~= old(out)@ + (sub_blocks(h0, order@.take(k as int)) + "\n"@
                        + sub_block(h0, sc@)));
                }
            }
            k += 1;
        }
        proof {
            assert(order@.take(order@.len() as int) =~= order@);
            reveal(subcommands_text);
            let n = h0.working(h0.longest, false);
            lemma_sub_blocks_frame(n, h0.force_next_line, order@);
            assert(n.working(n.longest, h0.force_next_line) == h0);
        }
    }
}

/// Whether the ranks of the places `shown` are within [`max_rank`].
pub open spec fn ranks_in_reach(ranks: Seq<usize>, shown: Seq<usize>) -> bool {
    forall|k: int| 0 <= k < shown.len() ==> ranks[#[trigger] shown[k] as int] <= max_rank()
}

/// Whether the ranks of all arguments and subcommands that help shows are
/// within [`max_rank`].
pub open spec fn ranks_ok(app: AppSpec) -> bool {
    &&& forall|i: int|
        0 <= i < app.args.len() && !(#[trigger] app.args[i]).hidden ==> arg_ranks(app)[i]
            <= max_rank()
    &&& forall|i: int|
        0 <= i < app.subcommands.len() && !(#[trigger] app.subcommands[i]).hidden
            ==> app.subcommands[i].display_order <= max_rank()
}

/// The arguments at `shown` as help lists them under a heading: without the
/// hidden ones, by ascending display rank and by name within a rank.
#[verifier::opaque]
pub open spec fn sorted_text(h: HelpSpec, shown: Seq<usize>) -> Seq<char> {
    let seen = visible(h.app.args, shown);
    blocks(
        h.working(longest_of(h.app.args, seen), false),
        by_rank(arg_ranks(h.app), arg_names(h.app), seen),
    )
}

/// The arguments at `shown` as help lists them in the order given, without
/// the hidden ones.
#[verifier::opaque]
pub open spec fn unsorted_text(h: HelpSpec, shown: Seq<usize>) -> Seq<char> {
    let seen = visible(h.app.args, shown);
    blocks(h.working(longest_of(h.app.args, seen), false), seen)
}

/// Two line feeds unless nothing has been written yet.
pub open spec fn gap_unless(first: bool) -> Seq<char> {
    if first {
        Seq::empty()
    } else {
        "\n\n"@
    }
}

/// The lists of flags and options: under one heading if the model asks for
/// that, else under a heading each.
#[verifier::opaque]
pub open spec fn switches_text(h: HelpSpec) -> Seq<char> {
    let args = h.app.args;
    let flags = picks(args, Listing::Flags).len() > 0;
    let opts = picks(args, Listing::Opts).len() > 0;
    if h.app.unified_help && (flags || opts) {
        "OPTIONS:\n"@ + sorted_text(h, picks(args, Listing::Flags) + picks(args, Listing::Opts))
    } else {
        (if flags {
            "FLAGS:\n"@ + sorted_text(h, picks(args, Listing::Flags))
        } else {
            Seq::empty()
        }) + (if opts {
            gap_unless(!flags) + "OPTIONS:\n"@ + sorted_text(h, picks(args, Listing::Opts))
        } else {
            Seq::empty()
        })
    }
}

/// Whether the model declares a flag or an option.
pub open spec fn has_switches(app: AppSpec) -> bool {
    picks(app.args, Listing::Flags).len() > 0 || picks(app.args, Listing::Opts).len() > 0
}

/// Whether the model declares a positional argument that is not hidden.
pub open spec fn shows_positionals(app: AppSpec) -> bool {
    visible(app.args, picks(app.args, Listing::Positionals)).len() > 0
}

/// The list of the positional arguments under its heading, if one of them
/// is shown.
#[verifier::opaque]
pub open spec fn positionals_section(h: HelpSpec, first: bool) -> Seq<char> {
    if shows_positionals(h.app) {
        gap_unless(first) + "ARGS:\n"@ + unsorted_text(h, picks(h.app.args, Listing::Positionals))
    } else {
        Seq::empty()
    }
}

/// The list of the subcommands under its heading, if there are any.
#[verifier::opaque]
pub open spec fn subcommands_section(h: HelpSpec, first: bool) -> Seq<char> {
    if h.app.subcommands.len() > 0 {
        gap_unless(first) + "SUBCOMMANDS:\n"@ + subcommands_text(h)
    } else {
        Seq::empty()
    }
}

/// The lists of everything the model declares, each under its heading.
pub open spec fn all_args_text(h: HelpSpec) -> Seq<char> {
    switches_text(h) + positionals_section(h, !has_switches(h.app)) + subcommands_section(
        h,
        !has_switches(h.app) && !shows_positionals(h.app),
    )
}

/// A text before or after help: broken into lines if it is too wide or holds
/// a line-break tag.
pub open spec fn before_after_text(h: HelpSpec, t: Seq<char>) -> Seq<char> {
    if display_width(t) >= h.term_width || has_tag(t) {
        wrapped(untagged(t), h.term_width)
    } else {
        t
    }
}

/// Whether the name under which the program was started holds a blank, as
/// the name of a subcommand does.
pub open spec fn spaced_bin_name(app: AppSpec) -> bool {
    app.bin_name is Some && has_char(app.bin_name->0, ' ')
}

/// The name of the program as help shows it.
pub open spec fn bin_name_text(h: HelpSpec) -> Seq<char> {
    if spaced_bin_name(h.app) {
        hyphenated(h.app.bin_name->0)
    } else {
        wrapped(untagged(h.app.name), h.term_width)
    }
}

/// The author or the description, broken into lines, with a line feed.
pub open spec fn thing_text(h: HelpSpec, t: Option<Seq<char>>) -> Seq<char> {
    match t {
        Some(x) => wrapped(untagged(x), h.term_width) + "\n"@,
        None => Seq::empty(),
    }
}

/// Whether the model declares anything that help lists.
pub open spec fn declares_anything(app: AppSpec) -> bool {
    has_switches(app) || picks(app.args, Listing::Positionals).len() > 0 || app.subcommands.len()
        > 0
}

/// The text that goes before help, with an empty line after it.
pub open spec fn head_before(h: HelpSpec) -> Seq<char> {
    match h.app.before_help {
        Some(b) => before_after_text(h, b) + "\n\n"@,
        None => Seq::empty(),
    }
}

/// The line with the name and the version of the program.
pub open spec fn head_title(h: HelpSpec) -> Seq<char> {
    bin_name_text(h) + " "@ + opt_text(h.app.version) + "\n"@
}

/// The usage, under its heading.
pub open spec fn head_usage(h: HelpSpec) -> Seq<char> {
    "\nUSAGE:"@ + "\n"@ + spaces(4) + opt_text(h.app.usage) + "\n\n"@
}

/// The head of the default help: the text before help, the name and the
/// version, the author, the description and the usage.
pub open spec fn help_head(h: HelpSpec) -> Seq<char> {
    head_before(h) + head_title(h) + thing_text(h, h.app.author) + thing_text(h, h.app.about)
        + head_usage(h)
}

/// The default help.
pub open spec fn default_help_text(h: HelpSpec) -> Seq<char> {
    let app = h.app;
    help_head(h) + (if declares_anything(app) {
        all_args_text(h)
    } else {
        Seq::empty()
    }) + (match app.after_help {
        Some(a) => gap_unless(!declares_anything(app)) + before_after_text(h, a),
        None => Seq::empty(),
    })
}

/// The line that names the program and its version.
pub open spec fn version_text(app: AppSpec, use_long: bool) -> Seq<char> {
    (if spaced_bin_name(app) {
        hyphenated(app.bin_name->0)
    } else {
        app.name
    }) + " "@ + (if use_long {
        first_of(app.long_version, app.version)
    } else {
        first_of(app.version, app.long_version)
    })
}

/// The sorted list does not depend on the working values.
pub proof fn lemma_sorted_text_frame(h: HelpSpec, longest: usize, force: bool, shown: Seq<usize>)
    ensures
        sorted_text(h.working(longest, force), shown) == sorted_text(h, shown),
        unsorted_text(h.working(longest, force), shown) == unsorted_text(h, shown),
{
    reveal(sorted_text);
    reveal(unsorted_text);
    let g = h.working(longest, force);
    let seen = visible(h.app.args, shown);
    assert(g.working(longest_of(h.app.args, seen), false) == h.working(
        longest_of(h.app.args, seen),
        false,
    ));
}

impl<'a> HelpWriter<'a> {
    /// Tells whether the ranks of all arguments and subcommands that help
    /// shows are within [`max_rank`].
    pub fn ranks_ok(&self) -> (b: bool)
        ensures
            b == ranks_ok(self@.app),
    {
        let limit = usize::MAX / 128;
        let mut i: usize = 0;
        while i < self.app.args.len()
            invariant
                i <= self.app.args.len(),
                limit == max_rank(),
                forall|j: int|
                    0 <= j < i && !(#[trigger] self.app@.args[j]).hidden ==> arg_ranks(
                        self.app@,
                    )[j] <= max_rank(),
            decreases self.app.args.len() - i,
        {
            let a = &self.app.args[i];
            assert(self.app@.args[i as int] == a@);
            let rank = if self.app.derive_display_order {
                i
            } else {
                a.display_order
            };
            if !a.hidden && rank > limit {
                return false;
            }
            i += 1;
        }
        let mut k: usize = 0;
        while k < self.app.subcommands.len()
            invariant
                k <= self.app.subcommands.len(),
                limit == max_rank(),
                forall|j: int|
                    0 <= j < k && !(#[trigger] self.app@.subcommands[j]).hidden
                        ==> self.app@.subcommands[j].display_order <= max_rank(),
            decreases self.app.subcommands.len() - k,
        {
            let sc = &self.app.subcommands[k];
            assert(self.app@.subcommands[k as int] == sc@);
            if !sc.hidden && sc.display_order > limit {
                return false;
            }
            k += 1;
        }
        true
    }

    /// Writes the arguments at `shown` as help lists them under a heading.
    fn write_sorted(&mut self, out: &mut String, shown: &Vec<usize>)
        requires
            ranks_ok(old(self)@.app),
            forall|k: int| 0 <= k < shown@.len() ==> shown@[k] < old(self)@.app.args.len(),
        ensures
            final(out)@ == old(out)@ + sorted_text(old(self)@, shown@),
            final(self)@.same_settings(old(self)@),
    {
        let ghost h0 = self@;
        proof {
            reveal(sorted_text);
            lemma_ranks_in_reach(h0.app, shown@);
            let seen = visible(h0.app.args, shown@);
            lemma_blocks_frame(
                h0.working(longest_of(h0.app.args, seen), false),
                h0.force_next_line,
                by_rank(arg_ranks(h0.app), arg_names(h0.app), seen),
            );
            assert(h0.working(longest_of(h0.app.args, seen), false).working(
                longest_of(h0.app.args, seen),
                h0.force_next_line,
            ) == h0.working(longest_of(h0.app.args, seen), h0.force_next_line));
        }
        self.write_args(out, shown);
    }

    /// Writes the arguments at `shown` as help lists them in the order
    /// given.
    fn write_unsorted(&mut self, out: &mut String, shown: &Vec<usize>)
        requires
            forall|k: int| 0 <= k < shown@.len() ==> shown@[k] < old(self)@.app.args.len(),
        ensures
            final(out)@ == old(out)@ + unsorted_text(old(self)@, shown@),
            final(self)@.same_settings(old(self)@),
    {
        let ghost h0 = self@;
        proof {
            reveal(unsorted_text);
            let seen = visible(h0.app.args, shown@);
            lemma_blocks_frame(
                h0.working(longest_of(h0.app.args, seen), false),
                h0.force_next_line,
                seen,
            );
            assert(h0.working(longest_of(h0.app.args, seen), false).working(
                longest_of(h0.app.args, seen),
                h0.force_next_line,
            ) == h0.working(longest_of(h0.app.args, seen), h0.force_next_line));
        }
        self.write_args_unsorted(out, shown);
    }
}

/// With ranks within reach everywhere, the ranks of what is shown are within
/// reach.
pub proof fn lemma_ranks_in_reach(app: AppSpec, shown: Seq<usize>)
    requires
        ranks_ok(app),
        forall|k: int| 0 <= k < shown.len() ==> shown[k] < app.args.len(),
    ensures
        forall|k: int|
            0 <= k < shown.len() && !app.args[shown[k] as int].hidden ==> arg_ranks(
                app,
            )[shown[k] as int] <= max_rank(),
{
    assert forall|k: int| 0 <= k < shown.len() && !app.args[shown[k] as int].hidden implies arg_ranks(
        app,
    )[shown[k] as int] <= max_rank() by {
        let i = shown[k] as int;
        assert(!app.args[i].hidden);
    }
}

/// The list of subcommands does not depend on the working values.
pub proof fn lemma_subcommands_text_frame(h: HelpSpec, longest: usize, force: bool)
    ensures
        subcommands_text(h.working(longest, force)) == subcommands_text(h),
{
    reveal(subcommands_text);
    let l = sub_longest_of(h.app.subcommands, visible_subs(h.app.subcommands));
    assert(h.working(longest, force).working(l, false) == h.working(l, false));
}

impl<'a> HelpWriter<'a> {
    /// Writes the list of the subcommands.
    fn write_subs(&mut self, out: &mut String)
        requires
            ranks_ok(old(self)@.app),
        ensures
            final(out)@ == old(out)@ + subcommands_text(old(self)@),
            final(self)@.same_settings(old(self)@),
    {
        let count = self.app.subcommands.len();
        proof {
            let app = self@.app;
            assert(app.subcommands.len() == count);
            lemma_visible_subs(app.subcommands);
            assert forall|k: int| 0 <= k < visible_subs(app.subcommands).len() implies sub_ranks(
                app,
            )[#[trigger] visible_subs(app.subcommands)[k] as int] <= max_rank() by {
                let i = visible_subs(app.subcommands)[k] as int;
                assert(!app.subcommands[i].hidden);
            }
        }
        self.write_subcommands(out);
    }

    /// Tells whether one of the arguments at `shown` is not hidden.
    fn any_visible(&self, shown: &Vec<usize>) -> (b: bool)
        requires
            forall|k: int| 0 <= k < shown@.len() ==> shown@[k] < self@.app.args.len(),
        ensures
            b == (visible(self@.app.args, shown@).len() > 0),
    {
        let ghost args = self.app@.args;
        let mut k: usize = 0;
        proof {
            assert(shown@.take(0) =~= Seq::<usize>::empty());
        }
        while k < shown.len()
            invariant
                k <= shown.len(),
                args == self.app@.args,
                forall|j: int| 0 <= j < shown@.len() ==> shown@[j] < args.len(),
                visible(args, shown@.take(k as int)).len() == 0,
            decreases shown.len() - k,
        {
            proof {
                let next = shown@.take(k + 1);
                assert(next.drop_last() =~= shown@.take(k as int));
                assert(next.last() == shown@[k as int]);
                assert(args[shown@[k as int] as int] == self.app.args@[shown@[k as int] as int]@);
            }
            if !self.app.args[shown[k]].hidden {
                proof {
                    lemma_visible_grows(args, shown@, k + 1);
                }
                return true;
            }
            k += 1;
        }
        proof {
            assert(shown@.take(shown@.len() as int) =~= shown@);
        }
        false
    }

    /// Writes the lists of flags and options.
    fn write_switches(&mut self, out: &mut String)
        requires
            ranks_ok(old(self)@.app),
        ensures
            final(out)@ == old(out)@ + switches_text(old(self)@),
            final(self)@.same_settings(old(self)@),
    {
        let ghost h0 = self@;
        proof {
            reveal(switches_text);
        }
        let flags = self.pick(Listing::Flags);
        let opts = self.pick(Listing::Opts);
        if self.app.unified_help && (flags.len() > 0 || opts.len() > 0) {
            push_str(out, "OPTIONS:\n");
            let mut both: Vec<usize> = Vec::new();
            let mut i: usize = 0;
            while i < flags.len()
                invariant
                    i <= flags.len(),
                    both@ == flags@.take(i as int),
                decreases flags.len() - i,
            {
                both.push(flags[i]);
                proof {
                    assert(both@ =~= flags@.take(i + 1));
                }
                i += 1;
            }
            let mut j: usize = 0;
            proof {
                assert(flags@.take(flags@.len() as int) =~= flags@);
                assert(both@ =~= flags@ + opts@.take(0));
            }
            while j < opts.len()
                invariant
                    j <= opts.len(),
                    both@ == flags@ + opts@.take(j as int),
                decreases opts.len() - j,
            {
                both.push(opts[j]);
                proof {
                    assert(both@ =~= flags@ + opts@.take(j + 1));
                }
                j += 1;
            }
            proof {
                assert(opts@.take(opts@.len() as int) =~= opts@);
            }
            self.write_sorted(out, &both);
            proof {
                assert(out@ =~= old(out)@ + ("OPTIONS:\n"@ + sorted_text(h0, flags@ + opts@)));
            }
        } else {
            let ghost mut t1: Seq<char> = Seq::empty();
            if flags.len() > 0 {
                push_str(out, "FLAGS:\n");
                self.write_sorted(out, &flags);
                proof {
                    t1 = "FLAGS:\n"@ + sorted_text(h0, flags@);
                }
            }
            proof {
                assert(out@ =~= old(out)@ + t1);
            }
            let ghost h1 = self@;
            if opts.len() > 0 {
                if flags.len() > 0 {
                    push_str(out, "\n\n");
                }
                push_str(out, "OPTIONS:\n");
                self.write_sorted(out, &opts);
                proof {
                    lemma_sorted_text_frame(h0, h1.longest, h1.force_next_line, opts@);
                    assert(h1 == h0.working(h1.longest, h1.force_next_line));
                    assert(out@ =~= old(out)@ + (t1 + (gap_unless(!(flags@.len() > 0))
                        + "OPTIONS:\n"@ + sorted_text(h0, opts@))));
                }
            } else {
                proof {
                    assert(out@ =~= old(out)@ + (t1 + Seq::<char>::empty()));
                }
            }
        }
    }

    /// Writes the list of the positional arguments under its heading.
    fn write_positionals_section(&mut self, out: &mut String, first: bool)
        ensures
            final(out)@ == old(out)@ + positionals_section(old(self)@, first),
            final(self)@.same_settings(old(self)@),
    {
        proof {
            reveal(positionals_section);
        }
        let pos = self.pick(Listing::Positionals);
        if self.any_visible(&pos) {
            if !first {
                push_str(out, "\n\n");
            }
            push_str(out, "ARGS:\n");
            self.write_unsorted(out, &pos);
            proof {
                assert(out@ =~= old(out)@ + (gap_unless(first) + "ARGS:\n"@ + unsorted_text(
                    old(self)@,
                    pos@,
                )));
            }
        }
    }

    /// Writes the list of the subcommands under its heading.
    fn write_subcommands_section(&mut self, out: &mut String, first: bool)
        requires
            ranks_ok(old(self)@.app),
        ensures
            final(out)@ == old(out)@ + subcommands_section(old(self)@, first),
            final(self)@.same_settings(old(self)@),
    {
        proof {
            reveal(subcommands_section);
        }
        if self.app.subcommands.len() > 0 {
            if !first {
                push_str(out, "\n\n");
            }
            push_str(out, "SUBCOMMANDS:\n");
            self.write_subs(out);
            proof {
                assert(out@ =~= old(out)@ + (gap_unless(first) + "SUBCOMMANDS:\n"@
                    + subcommands_text(old(self)@)));
            }
        }
    }

    /// Tells whether the model declares a flag or an option.
    fn has_switches(&self) -> (b: bool)
        ensures
            b == has_switches(self@.app),
    {
        self.pick(Listing::Flags).len() > 0 || self.pick(Listing::Opts).len() > 0
    }

    /// Tells whether the model declares a positional argument that is not
    /// hidden.
    fn shows_positionals(&self) -> (b: bool)
        ensures
            b == shows_positionals(self@.app),
    {
        let pos = self.pick(Listing::Positionals);
        self.any_visible(&pos)
    }

    /// Writes the lists of everything the model declares, as text.
    fn all_args(&mut self, out: &mut String)
        requires
            ranks_ok(old(self)@.app),
        ensures
            final(out)@ == old(out)@ + all_args_text(old(self)@),
            final(self)@.same_settings(old(self)@),
    {
        let ghost h0 = self@;
        let switches = self.has_switches();
        let shows_pos = self.shows_positionals();
        self.write_switches(out);
        let ghost o1 = out@;
        let ghost h1 = self@;
        self.write_positionals_section(out, !switches);
        let ghost o2 = out@;
        let ghost h2 = self@;
        self.write_subcommands_section(out, !switches && !shows_pos);
        proof {
            lemma_sections_normal(h0, !switches, !switches && !shows_pos);
            lemma_sections_normal(h1, !switches, !switches && !shows_pos);
            lemma_sections_normal(h2, !switches, !switches && !shows_pos);
            assert(out@ =~= old(out)@ + (switches_text(h0) + positionals_section(h0, !switches)
                + subcommands_section(h0, !switches && !shows_pos)));
        }
    }
}

/// The sections do not depend on the working values.
pub proof fn lemma_sections_normal(h: HelpSpec, first_pos: bool, first_sub: bool)
    ensures
        positionals_section(h, first_pos) == positionals_section(h.working(0, false), first_pos),
        subcommands_section(h, first_sub) == subcommands_section(h.working(0, false), first_sub),
        switches_text(h) == switches_text(h.working(0, false)),
{
    reveal(positionals_section);
    reveal(subcommands_section);
    reveal(switches_text);
    let n = h.working(0, false);
    let args = h.app.args;
    lemma_sorted_text_frame(n, h.longest, h.force_next_line, picks(args, Listing::Positionals));
    lemma_sorted_text_frame(n, h.longest, h.force_next_line, picks(args, Listing::Flags));
    lemma_sorted_text_frame(n, h.longest, h.force_next_line, picks(args, Listing::Opts));
    lemma_sorted_text_frame(
        n,
        h.longest,
        h.force_next_line,
        picks(args, Listing::Flags) + picks(args, Listing::Opts),
    );
    lemma_subcommands_text_frame(n, h.longest, h.force_next_line);
    assert(n.working(h.longest, h.force_next_line) == h);
}

/// The places of the subcommands that are not hidden are places of
/// subcommands that are not hidden.
pub proof fn lemma_visible_subs(subs: Seq<SubCommandSpec>)
    requires
        subs.len() <= usize::MAX,
    ensures
        forall|k: int|
            0 <= k < visible_subs(subs).len() ==> (#[trigger] visible_subs(subs)[k]) < subs.len()
                && !subs[visible_subs(subs)[k] as int].hidden,
    decreases subs.len(),
{
    if subs.len() > 0 {
        let init = subs.drop_last();
        lemma_visible_subs(init);
        assert forall|k: int| 0 <= k < visible_subs(subs).len() implies (#[trigger] visible_subs(
            subs,
        )[k]) < subs.len() && !subs[visible_subs(subs)[k] as int].hidden by {
            if k < visible_subs(init).len() {
                assert(visible_subs(subs)[k] == visible_subs(init)[k]);
                assert(init[visible_subs(init)[k] as int] == subs[visible_subs(init)[k] as int]);
            } else {
                assert(!subs.last().hidden);
                assert(visible_subs(subs)[k] == (subs.len() - 1) as usize);
                assert(subs[subs.len() - 1] == subs.last());
            }
        }
    }
}

/// Once a prefix shows something, the whole shows something.
pub proof fn lemma_visible_grows(args: Seq<ArgSpec>, shown: Seq<usize>, k: int)
    requires
        0 <= k <= shown.len(),
        visible(args, shown.take(k)).len() > 0,
    ensures
        visible(args, shown).len() > 0,
    decreases shown.len(),
{
    if k == shown.len() {
        assert(shown.take(k) =~= shown);
    } else {
        assert(shown.drop_last().take(k) =~= shown.take(k));
        lemma_visible_grows(args, shown.drop_last(), k);
    }
}

/// Appends the bytes of `text` to `w`.
pub fn push_text(w: &mut Vec<u8>, text: &str)
    ensures
        final(w)@ == old(w)@ + encode_utf8(text@),
{
    let bytes = text.as_bytes();
    let mut i: usize = 0;
    proof {
        assert(w@ =~= old(w)@ + bytes@.take(0));
    }
    while i < bytes.len()
        invariant
            i <= bytes.len(),
            bytes@ == encode_utf8(text@),
            w@ == old(w)@ + bytes@.take(i as int),
        decreases bytes.len() - i,
    {
        w.push(bytes[i]);
        proof {
            assert(w@ =~= old(w)@ + bytes@.take(i + 1));
        }
        i += 1;
    }
    proof {
        assert(bytes@.take(bytes@.len() as int) =~= bytes@);
    }
}

/// A text of the model, or `fallback` where the model has none.
pub open spec fn text_or(t: Option<Seq<char>>, fallback: Seq<char>) -> Seq<char> {
    match t {
        Some(x) => x,
        None => fallback,
    }
}

/// What a template tag stands for; nothing if the tag is not known.
pub open spec fn tag_text(h: HelpSpec, tag: Seq<u8>) -> Option<Seq<char>> {
    let app = h.app;
    let flags = picks(app.args, Listing::Flags);
    let opts = picks(app.args, Listing::Opts);
    if tag == encode_utf8("?"@) {
        Some("Could not decode tag name"@)
    } else if tag == encode_utf8("bin"@) {
        Some(bin_name_text(h))
    } else if tag == encode_utf8("version"@) {
        Some(text_or(app.version, "unknown version"@))
    } else if tag == encode_utf8("author"@) {
        Some(text_or(app.author, "unknown author"@))
    } else if tag == encode_utf8("about"@) {
        Some(text_or(app.about, "unknown about"@))
    } else if tag == encode_utf8("usage"@) {
        Some(opt_text(app.usage))
    } else if tag == encode_utf8("all-args"@) {
        Some(all_args_text(h))
    } else if tag == encode_utf8("unified"@) {
        Some(sorted_text(h, flags + opts))
    } else if tag == encode_utf8("flags"@) {
        Some(sorted_text(h, flags))
    } else if tag == encode_utf8("options"@) {
        Some(sorted_text(h, opts))
    } else if tag == encode_utf8("positionals"@) {
        Some(sorted_text(h, picks(app.args, Listing::Positionals)))
    } else if tag == encode_utf8("subcommands"@) {
        Some(subcommands_text(h))
    } else if tag == encode_utf8("after-help"@) {
        Some(text_or(app.after_help, "unknown after-help"@))
    } else if tag == encode_utf8("before-help"@) {
        Some(text_or(app.before_help, "unknown before-help"@))
    } else {
        None
    }
}

/// The bytes that go in place of a template tag: what the tag stands for,
/// or the tag itself in its braces if it is not known.
#[verifier::opaque]
pub open spec fn tag_bytes(h: HelpSpec, tag: Seq<u8>) -> Seq<u8> {
    match tag_text(h, tag) {
        Some(t) => encode_utf8(t),
        None => seq![0x7bu8] + tag + seq![0x7du8],
    }
}

/// The length of the buffer that takes a tag: a tag of up to fourteen bytes
/// fits with its closing brace.
pub open spec fn tag_capacity() -> int {
    15
}

/// Where the template goes on after its first opening brace, counted from
/// the start of `rest`.
pub open spec fn after_tag(rest: Seq<u8>) -> int {
    let n = delimiter_index(rest, 0x7b);
    let window = tag_window(rest, n, tag_capacity());
    if no_delimiter(window, 0x7d) {
        n + 1 + window.len()
    } else {
        n + 1 + delimiter_index(window, 0x7d) + 1
    }
}

/// The help that a template gives. Text outside braces is copied. A tag in
/// braces is replaced by what it stands for. An opening brace that no
/// closing brace follows within the capacity of the tag buffer is copied
/// with what follows it; one at the very end of the template is dropped, and
/// so is an empty pair of braces.
pub open spec fn template_bytes(h: HelpSpec, rest: Seq<u8>) -> Seq<u8>
    decreases rest.len(),
{
    if no_delimiter(rest, 0x7b) {
        rest
    } else {
        let n = delimiter_index(rest, 0x7b);
        let window = tag_window(rest, n, tag_capacity());
        if window.len() == 0 {
            rest.take(n)
        } else if !(0 <= n && 0 < after_tag(rest) <= rest.len()) {
            rest.take(n)
        } else if no_delimiter(window, 0x7d) {
            rest.take(n) + seq![0x7bu8] + window + template_bytes(h, rest.skip(after_tag(rest)))
        } else {
            let k = delimiter_index(window, 0x7d);
            rest.take(n) + (if k > 0 {
                tag_bytes(h, window.take(k))
            } else {
                Seq::empty()
            }) + template_bytes(h, rest.skip(after_tag(rest)))
        }
    }
}

/// Where there is a delimiter there is a first one.
pub proof fn lemma_first_delimiter(s: Seq<u8>, delimiter: u8)
    requires
        !no_delimiter(s, delimiter),
    ensures
        first_delimiter_at(s, delimiter, delimiter_index(s, delimiter)),
{
    let j = choose|j: int| 0 <= j < s.len() && s[j] == delimiter;
    lemma_least_delimiter(s, delimiter, j);
}

/// Below any place that holds the delimiter there is a first one.
proof fn lemma_least_delimiter(s: Seq<u8>, delimiter: u8, k: int)
    requires
        0 <= k < s.len(),
        s[k] == delimiter,
    ensures
        exists|n: int| first_delimiter_at(s, delimiter, n),
    decreases k,
{
    if forall|j: int| 0 <= j < k ==> s[j] != delimiter {
        assert(first_delimiter_at(s, delimiter, k));
    } else {
        let j = choose|j: int| 0 <= j < k && s[j] == delimiter;
        lemma_least_delimiter(s, delimiter, j);
    }
}

impl<'a> HelpWriter<'a> {
    /// Writes a text that stands before or after help.
    fn write_before_after_help(&self, out: &mut String, t: &str)
        ensures
            final(out)@ == old(out)@ + before_after_text(self@, t@),
    {
        let chars = chars_of(t);
        if str_width(t) >= self.term_width || contains_tag(&chars) {
            let flat = replace_tags(&chars);
            let wrapped = wrap_chars(&flat, self.term_width);
            push_str(out, wrapped.as_str());
        } else {
            push_str(out, t);
        }
    }

    /// Writes the name of the program.
    fn write_bin_name(&self, out: &mut String)
        ensures
            final(out)@ == old(out)@ + bin_name_text(self@),
    {
        let spaced = match &self.app.bin_name {
            Some(bn) => {
                let chars = chars_of(bn.as_str());
                if contains_char(&chars, ' ') {
                    push_hyphenated(out, &chars);
                    true
                } else {
                    false
                }
            },
            None => false,
        };
        if !spaced {
            let flat = replace_tags(&chars_of(self.app.name.as_str()));
            let wrapped = wrap_chars(&flat, self.term_width);
            push_str(out, wrapped.as_str());
        }
    }

    /// Writes the version.
    fn write_only_version(&self, out: &mut String)
        ensures
            final(out)@ == old(out)@ + opt_text(self@.app.version),
    {
        push_opt(out, &self.app.version);
    }

    /// Writes the author or the description.
    fn write_thing(&self, out: &mut String, t: &Option<String>)
        ensures
            final(out)@ == old(out)@ + thing_text(self@, opt_name(*t)),
    {
        match t {
            Some(x) => {
                let flat = replace_tags(&chars_of(x.as_str()));
                let wrapped = wrap_chars(&flat, self.term_width);
                push_str(out, wrapped.as_str());
                push_str(out, "\n");
                proof {
                    assert(out@ =~= old(out)@ + (wrapped@ + "\n"@));
                }
            },
            None => {
                proof {
                    assert(out@ =~= old(out)@ + Seq::<char>::empty());
                }
            },
        }
    }

    /// Writes the text that goes before help.
    fn write_head_before(&self, out: &mut String)
        ensures
            final(out)@ == old(out)@ + head_before(self@),
    {
        match &self.app.before_help {
            Some(b) => {
                self.write_before_after_help(out, b.as_str());
                push_str(out, "\n\n");
                proof {
                    assert(out@ =~= old(out)@ + (before_after_text(self@, b@) + "\n\n"@));
                }
            },
            None => {
                proof {
                    assert(out@ =~= old(out)@ + Seq::<char>::empty());
                }
            },
        }
    }

    /// Writes the line with the name and the version of the program.
    fn write_head_title(&self, out: &mut String)
        ensures
            final(out)@ == old(out)@ + head_title(self@),
    {
        self.write_bin_name(out);
        push_str(out, " ");
        self.write_only_version(out);
        push_str(out, "\n");
        proof {
            assert(out@ =~= old(out)@ + (bin_name_text(self@) + " "@ + opt_text(
                self@.app.version,
            ) + "\n"@));
        }
    }

    /// Writes the usage under its heading.
    fn write_head_usage(&self, out: &mut String)
        ensures
            final(out)@ == old(out)@ + head_usage(self@),
    {
        push_str(out, "\nUSAGE:");
        push_str(out, "\n");
        write_nspaces(out, 4);
        push_opt(out, &self.app.usage);
        push_str(out, "\n\n");
        proof {
            assert(out@ =~= old(out)@ + ("\nUSAGE:"@ + "\n"@ + spaces(4) + opt_text(
                self@.app.usage,
            ) + "\n\n"@));
        }
    }

    /// Writes the head of the default help.
    fn write_help_head(&self, out: &mut String)
        ensures
            final(out)@ == old(out)@ + help_head(self@),
    {
        let ghost h = self@;
        self.write_head_before(out);
        self.write_head_title(out);
        let ghost o1 = out@;
        self.write_thing(out, &self.app.author);
        self.write_thing(out, &self.app.about);
        let ghost o2 = out@;
        self.write_head_usage(out);
        proof {
            assert(o1 =~= old(out)@ + (head_before(h) + head_title(h)));
            assert(o2 =~= old(out)@ + (head_before(h) + head_title(h) + thing_text(
                h,
                h.app.author,
            ) + thing_text(h, h.app.about)));
            assert(out@ =~= old(out)@ + help_head(h));
        }
    }

    /// Tells whether the model declares anything that help lists.
    fn declares_anything(&self) -> (b: bool)
        ensures
            b == declares_anything(self@.app),
    {
        self.has_switches() || self.pick(Listing::Positionals).len() > 0
            || self.app.subcommands.len() > 0
    }

    /// Writes the default help, as text.
    fn default_help(&mut self, out: &mut String)
        requires
            ranks_ok(old(self)@.app),
        ensures
            final(out)@ == old(out)@ + default_help_text(old(self)@),
            final(self)@.same_settings(old(self)@),
    {
        let ghost h0 = self@;
        self.write_help_head(out);
        let any = self.declares_anything();
        let ghost o1 = out@;
        let ghost mut t1: Seq<char> = Seq::empty();
        if any {
            self.all_args(out);
            proof {
                t1 = all_args_text(h0);
            }
        }
        proof {
            assert(out@ =~= o1 + t1);
        }
        let ghost o2 = out@;
        let ghost h2 = self@;
        let ghost mut t2: Seq<char> = Seq::empty();
        match &self.app.after_help {
            Some(a) => {
                if any {
                    push_str(out, "\n\n");
                }
                self.write_before_after_help(out, a.as_str());
                proof {
                    assert(before_after_text(h2, a@) == before_after_text(h0, a@));
                    t2 = gap_unless(!any) + before_after_text(h0, a@);
                }
            },
            None => {},
        }
        proof {
            assert(out@ =~= o2 + t2);
            assert(out@ =~= old(out)@ + (help_head(h0) + t1 + t2));
        }
    }

    /// Writes the line that names the program and its version, as text.
    fn _write_version(&self, out: &mut String, use_long: bool)
        ensures
            final(out)@ == old(out)@ + version_text(self@.app, use_long),
    {
        let spaced = match &self.app.bin_name {
            Some(bn) => {
                let chars = chars_of(bn.as_str());
                if contains_char(&chars, ' ') {
                    push_hyphenated(out, &chars);
                    true
                } else {
                    false
                }
            },
            None => false,
        };
        if !spaced {
            push_str(out, self.app.name.as_str());
        }
        let ghost o1 = out@;
        push_str(out, " ");
        if use_long {
            push_first_of(out, &self.app.long_version, &self.app.version);
        } else {
            push_first_of(out, &self.app.version, &self.app.long_version);
        }
        proof {
            let name = if spaced_bin_name(self@.app) {
                hyphenated(self@.app.bin_name->0)
            } else {
                self@.app.name
            };
            let ver = if use_long {
                first_of(self@.app.long_version, self@.app.version)
            } else {
                first_of(self@.app.version, self@.app.long_version)
            };
            assert(o1 =~= old(out)@ + name);
            assert(out@ =~= old(out)@ + (name + " "@ + ver));
        }
    }
}

/// The writer with the choice between the short and the long texts made.
pub open spec fn with_long(h: HelpSpec, use_long: bool) -> HelpSpec {
    HelpSpec { use_long, ..h }
}

/// The help of the model, as bytes: the text that the model gives in place
/// of help; else what its template gives; else the default help.
pub open spec fn help_bytes(h: HelpSpec, use_long: bool) -> Seq<u8> {
    match h.app.override_help {
        Some(o) => encode_utf8(o),
        None => match h.app.help_template {
            Some(t) => template_bytes(with_long(h, use_long), encode_utf8(t)),
            None => encode_utf8(default_help_text(with_long(h, use_long))),
        },
    }
}

/// What a tag stands for does not depend on the working values.
pub proof fn lemma_tag_normal(h: HelpSpec, tag: Seq<u8>)
    ensures
        tag_bytes(h, tag) == tag_bytes(h.working(0, false), tag),
{
    reveal(tag_bytes);
    let n = h.working(0, false);
    let args = h.app.args;
    let flags = picks(args, Listing::Flags);
    let opts = picks(args, Listing::Opts);
    lemma_sections_normal(h, !has_switches(h.app), !has_switches(h.app) && !shows_positionals(h.app));
    lemma_sorted_text_frame(n, h.longest, h.force_next_line, flags + opts);
    lemma_sorted_text_frame(n, h.longest, h.force_next_line, flags);
    lemma_sorted_text_frame(n, h.longest, h.force_next_line, opts);
    lemma_sorted_text_frame(n, h.longest, h.force_next_line, picks(args, Listing::Positionals));
    lemma_subcommands_text_frame(n, h.longest, h.force_next_line);
    assert(n.working(h.longest, h.force_next_line) == h);
    assert(bin_name_text(h) == bin_name_text(n));
}

/// Where a tag can be taken, the template goes on behind it.
pub proof fn lemma_after_tag(rest: Seq<u8>)
    requires
        !no_delimiter(rest, 0x7b),
        tag_window(rest, delimiter_index(rest, 0x7b), tag_capacity()).len() > 0,
    ensures
        0 <= delimiter_index(rest, 0x7b) < rest.len(),
        0 < after_tag(rest) <= rest.len(),
{
    lemma_first_delimiter(rest, 0x7b);
    let n = delimiter_index(rest, 0x7b);
    let window = tag_window(rest, n, tag_capacity());
    if !no_delimiter(window, 0x7d) {
        lemma_first_delimiter(window, 0x7d);
    }
}

impl<'a> HelpWriter<'a> {
    /// Tells whether the first `len` bytes of `tag` spell `name`.
    fn tag_is(tag: &Vec<u8>, len: usize, name: &str) -> (b: bool)
        requires
            len <= tag@.len(),
        ensures
            b == (tag@.take(len as int) == encode_utf8(name@)),
    {
        let bytes = name.as_bytes();
        if bytes.len() != len {
            return false;
        }
        let mut i: usize = 0;
        while i < len
            invariant
                i <= len <= tag@.len(),
                bytes@.len() == len,
                bytes@ == encode_utf8(name@),
                forall|j: int| 0 <= j < i ==> tag@[j] == bytes@[j],
            decreases len - i,
        {
            if tag[i] != bytes[i] {
                assert(tag@.take(len as int)[i as int] != bytes@[i as int]);
                return false;
            }
            i += 1;
        }
        proof {
            assert(tag@.take(len as int) =~= bytes@);
        }
        true
    }

    /// Writes the arguments of the listing `which`, or flags and options in
    /// one list, as bytes.
    fn write_listing(&mut self, w: &mut Vec<u8>, which: Option<Listing>)
        requires
            ranks_ok(old(self)@.app),
        ensures
            final(w)@ == old(w)@ + encode_utf8(
                sorted_text(
                    old(self)@,
                    match which {
                        Some(l) => picks(old(self)@.app.args, l),
                        None => picks(old(self)@.app.args, Listing::Flags) + picks(
                            old(self)@.app.args,
                            Listing::Opts,
                        ),
                    },
                ),
            ),
            final(self)@.same_settings(old(self)@),
    {
        let shown = match which {
            Some(l) => self.pick(l),
            None => {
                let flags = self.pick(Listing::Flags);
                let opts = self.pick(Listing::Opts);
                let mut both: Vec<usize> = Vec::new();
                let mut i: usize = 0;
                while i < flags.len()
                    invariant
                        i <= flags.len(),
                        both@ == flags@.take(i as int),
                    decreases flags.len() - i,
                {
                    both.push(flags[i]);
                    proof {
                        assert(both@ =~= flags@.take(i + 1));
                    }
                    i += 1;
                }
                let mut j: usize = 0;
                proof {
                    assert(flags@.take(flags@.len() as int) =~= flags@);
                    assert(both@ =~= flags@ + opts@.take(0));
                }
                while j < opts.len()
                    invariant
                        j <= opts.len(),
                        both@ == flags@ + opts@.take(j as int),
                    decreases opts.len() - j,
                {
                    both.push(opts[j]);
                    proof {
                        assert(both@ =~= flags@ + opts@.take(j + 1));
                    }
                    j += 1;
                }
                proof {
                    assert(opts@.take(opts@.len() as int) =~= opts@);
                }
                both
            },
        };
        let mut out = String::new();
        self.write_sorted(&mut out, &shown);
        proof {
            assert(out@ =~= sorted_text(old(self)@, shown@));
        }
        push_text(w, out.as_str());
    }

    /// Writes `text`, or `fallback` where there is none, as bytes.
    fn write_text_or(w: &mut Vec<u8>, text: &Option<String>, fallback: &str)
        ensures
            final(w)@ == old(w)@ + encode_utf8(text_or(opt_name(*text), fallback@)),
    {
        match text {
            Some(t) => push_text(w, t.as_str()),
            None => push_text(w, fallback),
        }
    }

    /// Writes what the tag in the first `len` bytes of `tag` stands for.
    fn write_tag(&mut self, w: &mut Vec<u8>, tag: &Vec<u8>, len: usize)
        requires
            ranks_ok(old(self)@.app),
            len <= tag@.len(),
        ensures
            final(w)@ == old(w)@ + tag_bytes(old(self)@, tag@.take(len as int)),
            final(self)@.same_settings(old(self)@),
    {
        proof {
            reveal(tag_bytes);
        }
        if Self::tag_is(tag, len, "?") {
            push_text(w, "Could not decode tag name");
        } else if Self::tag_is(tag, len, "bin") {
            let mut out = String::new();
            self.write_bin_name(&mut out);
            proof {
                assert(out@ =~= bin_name_text(self@));
            }
            push_text(w, out.as_str());
        } else if Self::tag_is(tag, len, "version") {
            Self::write_text_or(w, &self.app.version, "unknown version");
        } else if Self::tag_is(tag, len, "author") {
            Self::write_text_or(w, &self.app.author, "unknown author");
        } else if Self::tag_is(tag, len, "about") {
            Self::write_text_or(w, &self.app.about, "unknown about");
        } else if Self::tag_is(tag, len, "usage") {
            Self::write_text_or(w, &self.app.usage, "");
            proof {
                assert(text_or(self@.app.usage, ""@) =~= opt_text(self@.app.usage)) by {
                    reveal_strlit("");
                    assert(""@ =~= Seq::<char>::empty());
                }
            }
        } else if Self::tag_is(tag, len, "all-args") {
            let mut out = String::new();
            self.all_args(&mut out);
            proof {
                assert(out@ =~= all_args_text(old(self)@));
            }
            push_text(w, out.as_str());
        } else if Self::tag_is(tag, len, "unified") {
            self.write_listing(w, None);
        } else if Self::tag_is(tag, len, "flags") {
            self.write_listing(w, Some(Listing::Flags));
        } else if Self::tag_is(tag, len, "options") {
            self.write_listing(w, Some(Listing::Opts));
        } else if Self::tag_is(tag, len, "positionals") {
            self.write_listing(w, Some(Listing::Positionals));
        } else if Self::tag_is(tag, len, "subcommands") {
            let mut out = String::new();
            self.write_subs(&mut out);
            proof {
                assert(out@ =~= subcommands_text(old(self)@));
            }
            push_text(w, out.as_str());
        } else if Self::tag_is(tag, len, "after-help") {
            Self::write_text_or(w, &self.app.after_help, "unknown after-help");
        } else if Self::tag_is(tag, len, "before-help") {
            Self::write_text_or(w, &self.app.before_help, "unknown before-help");
        } else {
            w.push(0x7b);
            let mut i: usize = 0;
            while i < len
                invariant
                    i <= len <= tag@.len(),
                    w@ == old(w)@.push(0x7bu8) + tag@.take(i as int),
                decreases len - i,
            {
                w.push(tag[i]);
                proof {
                    assert(w@ =~= old(w)@.push(0x7bu8) + tag@.take(i + 1));
                }
                i += 1;
            }
            w.push(0x7d);
            proof {
                assert(w@ =~= old(w)@ + (seq![0x7bu8] + tag@.take(len as int) + seq![0x7du8]));
            }
        }
    }

    /// Writes the help that `template` gives.
    ///
    /// Text is copied as it stands. These tags, in braces, are replaced:
    /// `bin`, `version`, `author`, `about`, `usage`, `all-args`, `unified`,
    /// `flags`, `options`, `positionals`, `subcommands`, `after-help` and
    /// `before-help`. A tag that is not known is copied with its braces.
    pub fn write_templated_help(&mut self, w: &mut Vec<u8>, template: &[u8])
        requires
            ranks_ok(old(self)@.app),
        ensures
            final(w)@ == old(w)@ + template_bytes(old(self)@, template@),
            final(self)@ == old(self)@.working(0, false),
    {
        let ghost h0 = self@;
        let mut pos: usize = 0;
        let mut tag_buf: Vec<u8> = Vec::new();
        let mut f: usize = 0;
        while f < 15
            invariant
                f <= 15,
                tag_buf@.len() == f,
            decreases 15 - f,
        {
            tag_buf.push(0);
            f += 1;
        }
        proof {
            assert(template@.skip(0) =~= template@);
            assert(w@ + template_bytes(h0, template@.skip(0)) =~= old(w)@ + template_bytes(
                h0,
                template@,
            ));
        }
        loop
            invariant_except_break
                w@ + template_bytes(h0, template@.skip(pos as int)) == old(w)@ + template_bytes(
                    h0,
                    template@,
                ),
            invariant
                pos <= template@.len(),
                tag_buf@.len() == 15,
                self@.same_settings(h0),
                ranks_ok(self@.app),
                h0 == old(self)@,
            ensures
                w@ == old(w)@ + template_bytes(h0, template@),
                self@.same_settings(h0),
            decreases template@.len() - pos,
        {
            let ghost rest = template@.skip(pos as int);
            let ghost before = w@;
            let ghost start = pos;
            let ghost h1 = self@;
            let captured = copy_and_capture(template, &mut pos, w, &mut tag_buf);
            proof {
                if !no_delimiter(rest, 0x7b) {
                    let n = delimiter_index(rest, 0x7b);
                    let window = tag_window(rest, n, 15);
                    if window.len() > 0 {
                        lemma_after_tag(rest);
                        assert(rest.skip(after_tag(rest)) =~= template@.skip(start + after_tag(
                            rest,
                        )));
                    }
                }
            }
            match captured {
                None => {
                    proof {
                        assert(before + template_bytes(h0, rest) =~= w@);
                    }
                    break ;
                },
                Some(k) => {
                    if k > 0 {
                        proof {
                            let n = delimiter_index(rest, 0x7b);
                            let window = tag_window(rest, n, 15);
                            lemma_first_delimiter(window, 0x7d);
                            assert(k < window.len() <= 15);
                        }
                        self.write_tag(w, &tag_buf, k);
                        proof {
                            let n = delimiter_index(rest, 0x7b);
                            let window = tag_window(rest, n, 15);
                            assert(tag_buf@.take(k as int) =~= window.take(k as int));
                            lemma_tag_normal(h1, window.take(k as int));
                            lemma_tag_normal(h0, window.take(k as int));
                            assert(h1.working(0, false) == h0.working(0, false));
                            assert(w@ + template_bytes(h0, template@.skip(pos as int)) =~= before
                                + template_bytes(h0, rest));
                        }
                    } else {
                        proof {
                            let n = delimiter_index(rest, 0x7b);
                            let window = tag_window(rest, n, 15);
                            if !no_delimiter(window, 0x7d) {
                                lemma_first_delimiter(window, 0x7d);
                            }
                            assert(w@ + template_bytes(h0, template@.skip(pos as int)) =~= before
                                + template_bytes(h0, rest));
                        }
                    }
                },
            }
        }
        self.clear_working();
    }

    /// Clears the working values: what a list has left behind is of no use
    /// to the next one.
    fn clear_working(&mut self)
        ensures
            final(self)@ == old(self)@.working(0, false),
    {
        self.longest = 0;
        self.force_next_line = false;
    }

    /// Writes the help of the model: the text that the model gives in place
    /// of help, else what its template gives, else the default help.
    fn _write_help(&mut self, w: &mut Vec<u8>, use_long: bool)
        requires
            ranks_ok(old(self)@.app),
        ensures
            final(w)@ == old(w)@ + help_bytes(old(self)@, use_long),
            final(self)@ == with_long(old(self)@, use_long).working(0, false),
    {
        self.use_long = use_long;
        match &self.app.override_help {
            Some(h) => {
                push_text(w, h.as_str());
                self.clear_working();
            },
            None => match &self.app.help_template {
                Some(tmpl) => {
                    self.write_templated_help(w, tmpl.as_str().as_bytes());
                },
                None => {
                    self.write_default_help(w);
                },
            },
        }
    }

    /// Writes the help of the model with the short texts.
    pub fn write_help(&mut self, w: &mut Vec<u8>)
        requires
            ranks_ok(old(self)@.app),
        ensures
            final(w)@ == old(w)@ + help_bytes(old(self)@, false),
            final(self)@ == with_long(old(self)@, false).working(0, false),
    {
        self._write_help(w, false);
    }

    /// Writes the help of the model with the long texts.
    pub fn write_long_help(&mut self, w: &mut Vec<u8>)
        requires
            ranks_ok(old(self)@.app),
        ensures
            final(w)@ == old(w)@ + help_bytes(old(self)@, true),
            final(self)@ == with_long(old(self)@, true).working(0, false),
    {
        self._write_help(w, true);
    }

    /// Writes the name and the version of the program.
    pub fn write_version(&mut self, w: &mut Vec<u8>)
        ensures
            final(w)@ == old(w)@ + encode_utf8(version_text(old(self)@.app, false)),
            final(self)@ == old(self)@,
    {
        let mut out = String::new();
        self._write_version(&mut out, false);
        proof {
            assert(out@ =~= version_text(self@.app, false));
        }
        push_text(w, out.as_str());
    }

    /// Writes the name and the long version of the program.
    pub fn write_long_version(&mut self, w: &mut Vec<u8>)
        ensures
            final(w)@ == old(w)@ + encode_utf8(version_text(old(self)@.app, true)),
            final(self)@ == old(self)@,
    {
        let mut out = String::new();
        self._write_version(&mut out, true);
        proof {
            assert(out@ =~= version_text(self@.app, true));
        }
        push_text(w, out.as_str());
    }

    /// Writes the lists of everything the model declares, each under its
    /// heading: flags, options, positional arguments and subcommands.
    pub fn write_all_args(&mut self, w: &mut Vec<u8>)
        requires
            ranks_ok(old(self)@.app),
        ensures
            final(w)@ == old(w)@ + encode_utf8(all_args_text(old(self)@)),
            final(self)@ == old(self)@.working(0, false),
    {
        let mut out = String::new();
        self.all_args(&mut out);
        proof {
            assert(out@ =~= all_args_text(old(self)@));
        }
        push_text(w, out.as_str());
        self.clear_working();
    }

    /// Writes the default help: what stands before help, the name and the
    /// version, the author, the description, the usage, the lists of what
    /// the model declares, and what stands after help.
    pub fn write_default_help(&mut self, w: &mut Vec<u8>)
        requires
            ranks_ok(old(self)@.app),
        ensures
            final(w)@ == old(w)@ + encode_utf8(default_help_text(old(self)@)),
            final(self)@ == old(self)@.working(0, false),
    {
        let mut out = String::new();
        self.default_help(&mut out);
        proof {
            assert(out@ =~= default_help_text(old(self)@));
        }
        push_text(w, out.as_str());
        self.clear_working();
    }
}

} // verus!
