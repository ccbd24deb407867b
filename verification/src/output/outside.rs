//! What the help layout takes from other crates.
//!
//! Nothing here is proved. Each item says of a function of another crate what
//! that crate's source shows, and the layout is proved on top of it.

use vstd::prelude::*;
use vstd::utf8::is_ascii_chars;

verus! {

/// The number of columns that `s` takes on a terminal.
pub uninterp spec fn display_width(s: Seq<char>) -> usize;

/// Measures the columns that `s` takes on a terminal.
///
/// This is `UnicodeWidthStr::width` of `unicode-width`, which computes the
/// width from the characters of the string alone, by tables that are part of
/// the crate.
#[verifier::external_body]
pub(crate) fn str_width(s: &str) -> (w: usize)
    ensures
        w == display_width(s@),
{
    unicode_width::UnicodeWidthStr::width(s)
}

/// The text `line` broken into lines of at most `width` columns, with a line
/// feed between each two lines. Words are never broken, so a line can be
/// longer than `width`.
pub uninterp spec fn filled(line: Seq<char>, width: usize) -> Seq<char>;

/// Breaks `line` into lines of at most `width` columns.
///
/// This is `Wrapper::fill` of `textwrap`, on a wrapper made by `Wrapper::new`
/// for `width` with `break_words` switched off. The result depends on the
/// text and on the width alone: the wrapper splits at white space and at
/// hyphens between letters, and measures by the tables of `unicode-width`.
///
/// The text has to be ASCII. Where a word that does not fit follows white
/// space at the start of a line, the wrapper cuts the text at a byte that it
/// takes for the end of the word and that is not; in ASCII this costs the
/// word its last letters, with longer characters the cut can fall inside
/// one, and the wrapper panics.
#[verifier::external_body]
pub(crate) fn fill_line(line: &str, width: usize) -> (text: String)
    requires
        is_ascii_chars(line@),
    ensures
        text@ == filled(line@, width),
{
    textwrap::Wrapper::new(width).break_words(false).fill(line)
}

/// A map from display ranks to lists of places, as `vec_map` keeps it.
#[verifier::external_type_specification]
#[verifier::external_body]
#[verifier::reject_recursive_types(V)]
pub struct ExVecMap<V>(vec_map::VecMap<V>);

/// What the map holds: the list filed under each rank that has one.
pub uninterp spec fn slots(m: vec_map::VecMap<Vec<usize>>) -> Map<usize, Seq<usize>>;

/// The lists of the ranks below `below`, in ascending order of the ranks.
pub open spec fn ascending(m: Map<usize, Seq<usize>>, below: nat) -> Seq<Seq<usize>>
    decreases below,
{
    if below == 0 {
        Seq::empty()
    } else {
        let rank = (below - 1) as usize;
        if m.dom().contains(rank) {
            ascending(m, (below - 1) as nat).push(m[rank])
        } else {
            ascending(m, (below - 1) as nat)
        }
    }
}

/// The greatest rank under which a list can be filed. A map keeps one slot
/// for every rank up to the greatest one in use, and the standard library
/// refuses an allocation of more than `isize::MAX` bytes.
pub open spec fn max_rank() -> usize {
    (usize::MAX / 128) as usize
}

/// A map that holds nothing.
pub open spec fn no_slots() -> Map<usize, Seq<usize>> {
    Map::empty()
}

/// An empty map. This is `VecMap::new`.
#[verifier::external_body]
pub(crate) fn ranks_new() -> (m: vec_map::VecMap<Vec<usize>>)
    ensures
        slots(m) == no_slots(),
{
    vec_map::VecMap::new()
}

/// Takes the list filed under `rank` out of the map. This is
/// `VecMap::remove`, which hands back the value of a key that is present and
/// leaves the other keys alone.
#[verifier::external_body]
pub(crate) fn ranks_remove(m: &mut vec_map::VecMap<Vec<usize>>, rank: usize) -> (list: Option<
    Vec<usize>,
>)
    ensures
        slots(*final(m)) == slots(*old(m)).remove(rank),
        match list {
            Some(l) => slots(*old(m)).dom().contains(rank) && l@ == slots(*old(m))[rank],
            None => !slots(*old(m)).dom().contains(rank),
        },
{
    m.remove(rank)
}

/// Files `list` under `rank`, in place of what was filed there. This is
/// `VecMap::insert`. It makes room for every rank up to `rank`, so `rank` has
/// to be small enough for that allocation.
#[verifier::external_body]
pub(crate) fn ranks_insert(m: &mut vec_map::VecMap<Vec<usize>>, rank: usize, list: Vec<usize>)
    requires
        rank <= max_rank(),
    ensures
        slots(*final(m)) == slots(*old(m)).insert(rank, list@),
{
    m.insert(rank, list);
}

/// The lists of the map in ascending order of their ranks. This is
/// `VecMap::values`, which visits the values in ascending order of the keys.
#[verifier::external_body]
pub(crate) fn ranks_values(m: &vec_map::VecMap<Vec<usize>>) -> (lists: Vec<Vec<usize>>)
    ensures
        lists@.map_values(|l: Vec<usize>| l@) == ascending(slots(*m), usize::MAX as nat + 1),
{
    m.values().cloned().collect()
}

} // verus!
