//! The order in which help lists arguments and subcommands: by display rank
//! first, by name within a rank.

use vstd::prelude::*;
use vstd::string::StringSliceAdditionalSpecFns;
use vstd::utf8::{encode_utf8, encode_utf8_decode_utf8};
use crate::names::{Name, names_of};
use crate::output::outside::{slots, ascending, max_rank, ranks_new, ranks_remove, ranks_insert,
    ranks_values};

verus! {

/// Whether `a` comes before `b` when bytes are compared one by one and a
/// proper prefix comes first.
pub open spec fn lex_less(a: Seq<u8>, b: Seq<u8>) -> bool
    decreases a.len(),
{
    if b.len() == 0 {
        false
    } else if a.len() == 0 {
        true
    } else if a[0] != b[0] {
        a[0] < b[0]
    } else {
        lex_less(a.skip(1), b.skip(1))
    }
}

/// Whether the name `a` comes before the name `b`: the order of their bytes
/// in UTF-8.
pub open spec fn name_less(a: Name, b: Name) -> bool {
    lex_less(encode_utf8(a), encode_utf8(b))
}

/// Tells whether `a` comes before `b`.
pub fn str_less(a: &str, b: &str) -> (r: bool)
    ensures
        r == name_less(a@, b@),
{
    let x = a.as_bytes();
    let y = b.as_bytes();
    let mut i: usize = 0;
    proof {
        assert(x@.skip(0) =~= x@);
        assert(y@.skip(0) =~= y@);
    }
    while i < x.len() && i < y.len()
        invariant
            i <= x.len(),
            i <= y.len(),
            x@ == a.spec_bytes(),
            y@ == b.spec_bytes(),
            lex_less(x@, y@) == lex_less(x@.skip(i as int), y@.skip(i as int)),
        decreases x.len() - i,
    {
        proof {
            assert(x@.skip(i as int)[0] == x@[i as int]);
            assert(y@.skip(i as int)[0] == y@[i as int]);
            assert(x@.skip(i as int).skip(1) =~= x@.skip(i + 1));
            assert(y@.skip(i as int).skip(1) =~= y@.skip(i + 1));
        }
        if x[i] != y[i] {
            return x[i] < y[i];
        }
        i += 1;
    }
    i < y.len()
}

/// The list `list` of places, ordered by the names that `names` gives them,
/// with the place `i` filed into it: before the first place whose name does
/// not come before its own, and in place of that one if the two names are
/// the same.
pub open spec fn filed(list: Seq<usize>, names: Seq<Name>, i: usize) -> Seq<usize>
    decreases list.len(),
{
    if list.len() == 0 {
        seq![i]
    } else if name_less(names[list[0] as int], names[i as int]) {
        seq![list[0]] + filed(list.skip(1), names, i)
    } else if names[list[0] as int] == names[i as int] {
        seq![i] + list.skip(1)
    } else {
        seq![i] + list
    }
}

/// Files the place `i` into `list`, which is ordered by the names in
/// `names`.
pub fn file_by_name(list: &Vec<usize>, names: &Vec<String>, i: usize) -> (r: Vec<usize>)
    requires
        i < names@.len(),
        forall|k: int| 0 <= k < list@.len() ==> list@[k] < names@.len(),
    ensures
        r@ == filed(list@, names_of(names@), i),
        forall|k: int| 0 <= k < r@.len() ==> r@[k] < names@.len(),
{
    let ghost all = names_of(names@);
    let mut r: Vec<usize> = Vec::new();
    let mut p: usize = 0;
    proof {
        assert(list@.skip(0) =~= list@);
        assert(r@ + filed(list@.skip(0), all, i) =~= filed(list@, all, i));
    }
    while p < list.len() && str_less(names[list[p]].as_str(), names[i].as_str())
        invariant
            p <= list.len(),
            i < names@.len(),
            all == names_of(names@),
            forall|k: int| 0 <= k < list@.len() ==> list@[k] < names@.len(),
            forall|k: int| 0 <= k < r@.len() ==> r@[k] < names@.len(),
            r@ + filed(list@.skip(p as int), all, i) == filed(list@, all, i),
        decreases list.len() - p,
    {
        proof {
            let rest = list@.skip(p as int);
            assert(rest[0] == list@[p as int]);
            assert(rest.skip(1) =~= list@.skip(p + 1));
            assert(r@.push(list@[p as int]) + filed(list@.skip(p + 1), all, i) =~= r@ + (
            seq![rest[0]] + filed(rest.skip(1), all, i)));
        }
        r.push(list[p]);
        p += 1;
    }
    let ghost front = r@;
    let ghost rest = list@.skip(p as int);
    r.push(i);
    let same = p < list.len() && crate::names::str_eq(
        names[list[p]].as_str(),
        names[i].as_str(),
    );
    let mut q: usize = if same {
        p + 1
    } else {
        p
    };
    let ghost from = q;
    proof {
        if p < list.len() {
            assert(rest[0] == list@[p as int]);
            assert(all[list@[p as int] as int] == names@[list@[p as int] as int]@);
            assert(all[i as int] == names@[i as int]@);
        }
        assert(r@ =~= front + seq![i] + list@.subrange(from as int, q as int));
    }
    while q < list.len()
        invariant
            from <= q <= list.len(),
            forall|k: int| 0 <= k < list@.len() ==> list@[k] < names@.len(),
            forall|k: int| 0 <= k < r@.len() ==> r@[k] < names@.len(),
            r@ == front + seq![i] + list@.subrange(from as int, q as int),
        decreases list.len() - q,
    {
        r.push(list[q]);
        proof {
            assert(r@ =~= front + seq![i] + list@.subrange(from as int, q + 1));
        }
        q += 1;
    }
    proof {
        if p < list.len() {
            if same {
                assert(list@.subrange(from as int, list@.len() as int) =~= rest.skip(1));
            } else {
                assert(list@.subrange(from as int, list@.len() as int) =~= rest);
            }
            assert(front + seq![i] + list@.subrange(from as int, list@.len() as int) =~= front
                + filed(rest, all, i));
        } else {
            assert(rest =~= Seq::<usize>::empty());
            assert(list@.subrange(from as int, list@.len() as int) =~= Seq::<usize>::empty());
            assert(front + seq![i] + Seq::<usize>::empty() =~= front + filed(rest, all, i));
        }
    }
    r
}

/// The list filed under `rank`, or an empty one.
pub open spec fn list_at(m: Map<usize, Seq<usize>>, rank: usize) -> Seq<usize> {
    if m.dom().contains(rank) {
        m[rank]
    } else {
        Seq::empty()
    }
}

/// The places `shown`, filed one after the other under their ranks, each
/// list ordered by name.
pub open spec fn ranked(ranks: Seq<usize>, names: Seq<Name>, shown: Seq<usize>) -> Map<
    usize,
    Seq<usize>,
>
    decreases shown.len(),
{
    if shown.len() == 0 {
        Map::empty()
    } else {
        let before = ranked(ranks, names, shown.drop_last());
        let i = shown.last();
        let rank = ranks[i as int];
        before.insert(rank, filed(list_at(before, rank), names, i))
    }
}

/// The lists one after the other.
pub open spec fn flat(lists: Seq<Seq<usize>>) -> Seq<usize>
    decreases lists.len(),
{
    if lists.len() == 0 {
        Seq::empty()
    } else {
        flat(lists.drop_last()) + lists.last()
    }
}

/// The places `shown` in the order in which help lists them: by ascending
/// rank, and by name within a rank. Of two places with the same rank and the
/// same name the later one stays.
pub open spec fn by_rank(ranks: Seq<usize>, names: Seq<Name>, shown: Seq<usize>) -> Seq<usize> {
    flat(ascending(ranked(ranks, names, shown), usize::MAX as nat + 1))
}

/// Whether every place in every list is below `n`.
pub open spec fn within(m: Map<usize, Seq<usize>>, n: nat) -> bool {
    forall|r: usize, j: int|
        m.dom().contains(r) && 0 <= j < m[r].len() ==> (#[trigger] m[r][j]) < n
}

/// Filing a place below `n` into a list of places below `n` gives a list of
/// places below `n`.
proof fn lemma_filed_within(list: Seq<usize>, names: Seq<Name>, i: usize, n: nat)
    requires
        i < n,
        forall|j: int| 0 <= j < list.len() ==> list[j] < n,
    ensures
        forall|j: int| 0 <= j < filed(list, names, i).len() ==> filed(list, names, i)[j] < n,
    decreases list.len(),
{
    if list.len() > 0 {
        if name_less(names[list[0] as int], names[i as int]) {
            let rest = list.skip(1);
            assert forall|j: int| 0 <= j < rest.len() implies rest[j] < n by {
                assert(rest[j] == list[j + 1]);
            }
            lemma_filed_within(rest, names, i, n);
            let f = filed(rest, names, i);
            assert forall|j: int| 0 <= j < filed(list, names, i).len() implies filed(
                list,
                names,
                i,
            )[j] < n by {
                if j > 0 {
                    assert(filed(list, names, i)[j] == f[j - 1]);
                }
            }
        } else if names[list[0] as int] == names[i as int] {
            assert forall|j: int| 0 <= j < filed(list, names, i).len() implies filed(
                list,
                names,
                i,
            )[j] < n by {
                if j > 0 {
                    assert(filed(list, names, i)[j] == list[j]);
                }
            }
        } else {
            assert forall|j: int| 0 <= j < filed(list, names, i).len() implies filed(
                list,
                names,
                i,
            )[j] < n by {
                if j > 0 {
                    assert(filed(list, names, i)[j] == list[j - 1]);
                }
            }
        }
    }
}

/// The lists of a map of places below `n` hold places below `n`.
proof fn lemma_ascending_within(m: Map<usize, Seq<usize>>, below: nat, n: nat)
    requires
        within(m, n),
    ensures
        forall|g: int, j: int|
            0 <= g < ascending(m, below).len() && 0 <= j < ascending(m, below)[g].len() ==> (
            #[trigger] ascending(m, below)[g][j]) < n,
    decreases below,
{
    if below > 0 {
        lemma_ascending_within(m, (below - 1) as nat, n);
        let rank = (below - 1) as usize;
        let before = ascending(m, (below - 1) as nat);
        assert forall|g: int, j: int|
            0 <= g < ascending(m, below).len() && 0 <= j < ascending(
                m,
                below,
            )[g].len() implies (#[trigger] ascending(m, below)[g][j]) < n by {
            if g < before.len() {
                assert(ascending(m, below)[g] == before[g]);
                assert(before[g][j] < n);
            } else {
                assert(ascending(m, below)[g] == m[rank]);
                assert(m[rank][j] < n);
            }
        }
    }
}

/// Puts the places `shown` into the order in which help lists them.
/// `ranks` and `names` give the rank and the name of every place.
pub fn rank_order(ranks: &Vec<usize>, names: &Vec<String>, shown: &Vec<usize>) -> (order: Vec<
    usize,
>)
    requires
        ranks@.len() == names@.len(),
        forall|k: int| 0 <= k < shown@.len() ==> shown@[k] < names@.len(),
        forall|k: int| 0 <= k < shown@.len() ==> ranks@[shown@[k] as int] <= max_rank(),
    ensures
        order@ == by_rank(ranks@, names_of(names@), shown@),
        forall|k: int| 0 <= k < order@.len() ==> order@[k] < names@.len(),
{
    let ghost all = names_of(names@);
    let ghost n = names@.len() as nat;
    let mut ord_m = ranks_new();
    let mut k: usize = 0;
    proof {
        assert(shown@.take(0) =~= Seq::<usize>::empty());
    }
    while k < shown.len()
        invariant
            k <= shown.len(),
            ranks@.len() == names@.len(),
            n == names@.len(),
            all == names_of(names@),
            forall|j: int| 0 <= j < shown@.len() ==> shown@[j] < names@.len(),
            forall|j: int| 0 <= j < shown@.len() ==> ranks@[shown@[j] as int] <= max_rank(),
            slots(ord_m) == ranked(ranks@, all, shown@.take(k as int)),
            within(slots(ord_m), n),
        decreases shown.len() - k,
    {
        let i = shown[k];
        let rank = ranks[i];
        let ghost before = slots(ord_m);
        proof {
            let next = shown@.take(k + 1);
            assert(next.drop_last() =~= shown@.take(k as int));
            assert(next.last() == i);
        }
        let list = match ranks_remove(&mut ord_m, rank) {
            Some(l) => l,
            None => Vec::new(),
        };
        proof {
            assert(list@ == list_at(before, rank));
            assert forall|j: int| 0 <= j < list@.len() implies list@[j] < names@.len() by {
                if before.dom().contains(rank) {
                    assert(before[rank][j] < n);
                }
            }
            lemma_filed_within(list@, all, i, n);
        }
        let list = file_by_name(&list, names, i);
        ranks_insert(&mut ord_m, rank, list);
        proof {
            assert(slots(ord_m) =~= before.insert(rank, filed(list_at(before, rank), all, i)));
            assert forall|r: usize, j: int|
                slots(ord_m).dom().contains(r) && 0 <= j < slots(ord_m)[r].len() implies (
            #[trigger] slots(ord_m)[r][j]) < n by {
                if r != rank {
                    assert(before[r][j] < n);
                }
            }
        }
        k += 1;
    }
    proof {
        assert(shown@.take(shown@.len() as int) =~= shown@);
        lemma_ascending_within(slots(ord_m), usize::MAX as nat + 1, n);
    }
    let lists = ranks_values(&ord_m);
    let ghost views = lists@.map_values(|l: Vec<usize>| l@);
    let mut order: Vec<usize> = Vec::new();
    let mut g: usize = 0;
    proof {
        assert(views.take(0) =~= Seq::<Seq<usize>>::empty());
    }
    while g < lists.len()
        invariant
            g <= lists.len(),
            n == names@.len(),
            views == lists@.map_values(|l: Vec<usize>| l@),
            forall|a: int, b: int|
                0 <= a < views.len() && 0 <= b < views[a].len() ==> (#[trigger] views[a][b]) < n,
            order@ == flat(views.take(g as int)),
            forall|j: int| 0 <= j < order@.len() ==> order@[j] < names@.len(),
        decreases lists.len() - g,
    {
        let list = &lists[g];
        let ghost start = order@;
        let mut j: usize = 0;
        proof {
            assert(views[g as int] == list@);
            assert(order@ =~= start + list@.take(0));
        }
        while j < list.len()
            invariant
                j <= list.len(),
                n == names@.len(),
                forall|b: int| 0 <= b < list@.len() ==> list@[b] < n,
                forall|b: int| 0 <= b < start.len() ==> start[b] < names@.len(),
                order@ == start + list@.take(j as int),
                forall|b: int| 0 <= b < order@.len() ==> order@[b] < names@.len(),
            decreases list.len() - j,
        {
            order.push(list[j]);
            proof {
                assert(order@ =~= start + list@.take(j + 1));
            }
            j += 1;
        }
        proof {
            assert(list@.take(list@.len() as int) =~= list@);
            let next = views.take(g + 1);
            assert(next.drop_last() =~= views.take(g as int));
            assert(next.last() == list@);
        }
        g += 1;
    }
    proof {
        assert(views.take(lists@.len() as int) =~= views);
    }
    order
}

/// No sequence of bytes comes before itself.
pub proof fn lemma_lex_irreflexive(a: Seq<u8>)
    ensures
        !lex_less(a, a),
    decreases a.len(),
{
    if a.len() > 0 {
        lemma_lex_irreflexive(a.skip(1));
    }
}

/// What comes before something that comes before a third comes before the
/// third.
pub proof fn lemma_lex_transitive(a: Seq<u8>, b: Seq<u8>, c: Seq<u8>)
    requires
        lex_less(a, b),
        lex_less(b, c),
    ensures
        lex_less(a, c),
    decreases a.len(),
{
    if a.len() > 0 && b.len() > 0 && c.len() > 0 {
        if a[0] == b[0] && b[0] == c[0] {
            lemma_lex_transitive(a.skip(1), b.skip(1), c.skip(1));
        }
    }
}

/// Of two different sequences of bytes one comes before the other.
pub proof fn lemma_lex_total(a: Seq<u8>, b: Seq<u8>)
    ensures
        lex_less(a, b) || a == b || lex_less(b, a),
    decreases a.len(),
{
    if a.len() == 0 || b.len() == 0 {
        if a.len() == 0 && b.len() == 0 {
            assert(a =~= b);
        }
    } else if a[0] == b[0] {
        lemma_lex_total(a.skip(1), b.skip(1));
        if a.skip(1) == b.skip(1) {
            assert(a =~= seq![a[0]] + a.skip(1));
            assert(b =~= seq![b[0]] + b.skip(1));
        }
    }
}

/// The order of names is a strict total order.
pub proof fn lemma_name_order(a: Name, b: Name, c: Name)
    ensures
        !name_less(a, a),
        name_less(a, b) && name_less(b, c) ==> name_less(a, c),
        name_less(a, b) || a == b || name_less(b, a),
        !(name_less(a, b) && name_less(b, a)),
{
    lemma_lex_irreflexive(encode_utf8(a));
    if name_less(a, b) && name_less(b, c) {
        lemma_lex_transitive(encode_utf8(a), encode_utf8(b), encode_utf8(c));
    }
    lemma_lex_total(encode_utf8(a), encode_utf8(b));
    encode_utf8_decode_utf8(a);
    encode_utf8_decode_utf8(b);
    if name_less(a, b) && name_less(b, a) {
        lemma_lex_transitive(encode_utf8(a), encode_utf8(b), encode_utf8(a));
    }
}

/// Whether the names of the places in `list` ascend strictly.
pub open spec fn sorted_by_name(list: Seq<usize>, names: Seq<Name>) -> bool {
    forall|i: int, j: int|
        0 <= i < j < list.len() ==> name_less(
            names[#[trigger] list[i] as int],
            names[#[trigger] list[j] as int],
        )
}

/// What a filing leaves in a list: the place filed and places that were
/// there.
pub proof fn lemma_filed_members(list: Seq<usize>, names: Seq<Name>, i: usize, k: int)
    requires
        0 <= k < filed(list, names, i).len(),
    ensures
        filed(list, names, i)[k] == i || list.contains(filed(list, names, i)[k]),
    decreases list.len(),
{
    if list.len() > 0 {
        if name_less(names[list[0] as int], names[i as int]) {
            if k == 0 {
                assert(list[0] == filed(list, names, i)[0]);
            } else {
                let rest = list.skip(1);
                lemma_filed_members(rest, names, i, k - 1);
                let x = filed(rest, names, i)[k - 1];
                assert(filed(list, names, i)[k] == x);
                if x != i {
                    let j = choose|j: int| 0 <= j < rest.len() && rest[j] == x;
                    assert(list[j + 1] == x);
                }
            }
        } else if names[list[0] as int] == names[i as int] {
            if k > 0 {
                assert(filed(list, names, i)[k] == list[k]);
            }
        } else {
            if k > 0 {
                assert(filed(list, names, i)[k] == list[k - 1]);
            }
        }
    }
}

/// A filing keeps a list in the order of the names, and the place filed is
/// in the list afterwards.
pub proof fn lemma_filed_sorted(list: Seq<usize>, names: Seq<Name>, i: usize)
    requires
        sorted_by_name(list, names),
    ensures
        sorted_by_name(filed(list, names, i), names),
        filed(list, names, i).contains(i),
    decreases list.len(),
{
    let out = filed(list, names, i);
    if list.len() == 0 {
        assert(out[0] == i);
    } else {
        let head = list[0];
        let rest = list.skip(1);
        assert forall|a: int, b: int| 0 <= a < b < rest.len() implies name_less(
            names[#[trigger] rest[a] as int],
            names[#[trigger] rest[b] as int],
        ) by {
            assert(rest[a] == list[a + 1] && rest[b] == list[b + 1]);
        }
        if name_less(names[head as int], names[i as int]) {
            lemma_filed_sorted(rest, names, i);
            let tail = filed(rest, names, i);
            let k = choose|k: int| 0 <= k < tail.len() && tail[k] == i;
            assert(out[k + 1] == i);
            assert forall|a: int, b: int| 0 <= a < b < out.len() implies name_less(
                names[#[trigger] out[a] as int],
                names[#[trigger] out[b] as int],
            ) by {
                if a == 0 {
                    assert(out[b] == tail[b - 1]);
                    lemma_filed_members(rest, names, i, b - 1);
                    if tail[b - 1] != i {
                        let j = choose|j: int| 0 <= j < rest.len() && rest[j] == tail[b - 1];
                        assert(list[j + 1] == rest[j]);
                        assert(name_less(names[list[0] as int], names[list[j + 1] as int]));
                    }
                } else {
                    assert(out[a] == tail[a - 1] && out[b] == tail[b - 1]);
                }
            }
        } else if names[head as int] == names[i as int] {
            assert(out[0] == i);
            assert forall|a: int, b: int| 0 <= a < b < out.len() implies name_less(
                names[#[trigger] out[a] as int],
                names[#[trigger] out[b] as int],
            ) by {
                assert(out[b] == list[b]);
                if a == 0 {
                    assert(name_less(names[list[0] as int], names[list[b] as int]));
                } else {
                    assert(out[a] == list[a]);
                }
            }
        } else {
            assert(out[0] == i);
            lemma_name_order(names[i as int], names[head as int], names[head as int]);
            assert(name_less(names[i as int], names[head as int]));
            assert forall|a: int, b: int| 0 <= a < b < out.len() implies name_less(
                names[#[trigger] out[a] as int],
                names[#[trigger] out[b] as int],
            ) by {
                assert(out[b] == list[b - 1]);
                if a == 0 {
                    if b - 1 > 0 {
                        assert(name_less(names[list[0] as int], names[list[b - 1] as int]));
                        lemma_name_order(
                            names[i as int],
                            names[head as int],
                            names[list[b - 1] as int],
                        );
                    }
                } else {
                    assert(out[a] == list[a - 1]);
                }
            }
        }
    }
}

/// Whether the place `x` comes before the place `y` in help: by its rank,
/// and by its name where the ranks are the same.
pub open spec fn before_in_help(ranks: Seq<usize>, names: Seq<Name>, x: usize, y: usize) -> bool {
    ranks[x as int] < ranks[y as int] || (ranks[x as int] == ranks[y as int] && name_less(
        names[x as int],
        names[y as int],
    ))
}

/// Whether every list is in the order of the names and holds places of its
/// own rank only, all of them among `shown`.
pub open spec fn well_ranked(
    m: Map<usize, Seq<usize>>,
    ranks: Seq<usize>,
    names: Seq<Name>,
    shown: Seq<usize>,
) -> bool {
    forall|r: usize|
        #[trigger] m.dom().contains(r) ==> sorted_by_name(m[r], names) && forall|k: int|
            0 <= k < m[r].len() ==> ranks[#[trigger] m[r][k] as int] == r && shown.contains(m[r][k])
}

/// The lists that are filed are well ranked, and every place that is shown
/// has its rank and its name in them.
pub proof fn lemma_ranked(ranks: Seq<usize>, names: Seq<Name>, shown: Seq<usize>)
    ensures
        well_ranked(ranked(ranks, names, shown), ranks, names, shown),
        forall|k: int|
            0 <= k < shown.len() ==> ranked(ranks, names, shown).dom().contains(
                ranks[#[trigger] shown[k] as int],
            ) && exists|j: int|
                0 <= j < ranked(ranks, names, shown)[ranks[shown[k] as int]].len() && names[ranked(
                    ranks,
                    names,
                    shown,
                )[ranks[shown[k] as int]][j] as int] == names[shown[k] as int],
    decreases shown.len(),
{
    if shown.len() > 0 {
        let init = shown.drop_last();
        let i = shown.last();
        let rank = ranks[i as int];
        let before = ranked(ranks, names, init);
        let list = list_at(before, rank);
        let now = ranked(ranks, names, shown);
        lemma_ranked(ranks, names, init);
        lemma_filed_sorted(list, names, i);
        assert(shown[shown.len() - 1] == i);
        assert forall|r: usize| #[trigger] now.dom().contains(r) implies sorted_by_name(
            now[r],
            names,
        ) && forall|k: int|
            0 <= k < now[r].len() ==> ranks[#[trigger] now[r][k] as int] == r && shown.contains(
                now[r][k],
            ) by {
            assert forall|k: int| 0 <= k < now[r].len() implies ranks[#[trigger] now[r][k] as int]
                == r && shown.contains(now[r][k]) by {
                if r == rank {
                    lemma_filed_members(list, names, i, k);
                    if now[r][k] != i {
                        let j = choose|j: int| 0 <= j < list.len() && list[j] == now[r][k];
                        assert(before.dom().contains(rank));
                        assert(ranks[before[rank][j] as int] == rank);
                        assert(init.contains(before[rank][j]));
                        let p = choose|p: int| 0 <= p < init.len() && init[p] == before[rank][j];
                        assert(shown[p] == init[p]);
                    }
                } else {
                    assert(before.dom().contains(r));
                    assert(ranks[before[r][k] as int] == r);
                    assert(init.contains(before[r][k]));
                    let p = choose|p: int| 0 <= p < init.len() && init[p] == before[r][k];
                    assert(shown[p] == init[p]);
                }
            }
            if r != rank {
                assert(before.dom().contains(r));
            }
        }
        assert forall|k: int| 0 <= k < shown.len() implies now.dom().contains(
            ranks[#[trigger] shown[k] as int],
        ) && exists|j: int|
            0 <= j < now[ranks[shown[k] as int]].len() && names[now[ranks[shown[k] as int]][j] as int]
                == names[shown[k] as int] by {
            let x = shown[k];
            if k == shown.len() - 1 {
                let j = choose|j: int| 0 <= j < now[rank].len() && now[rank][j] == i;
                assert(names[now[rank][j] as int] == names[x as int]);
            } else {
                assert(init[k] == x);
                let r = ranks[x as int];
                assert(before.dom().contains(r));
                let j = choose|j: int|
                    0 <= j < before[r].len() && names[before[r][j] as int] == names[x as int];
                if r == rank {
                    lemma_filed_keeps_names(list, names, i, j);
                    let j2 = choose|j2: int|
                        0 <= j2 < filed(list, names, i).len() && names[filed(
                            list,
                            names,
                            i,
                        )[j2] as int] == names[list[j] as int];
                    assert(names[now[r][j2] as int] == names[x as int]);
                } else {
                    assert(now[r] == before[r]);
                }
            }
        }
    }
}

/// A filing keeps the name of every place that was in the list.
pub proof fn lemma_filed_keeps_names(list: Seq<usize>, names: Seq<Name>, i: usize, j: int)
    requires
        0 <= j < list.len(),
    ensures
        exists|k: int|
            0 <= k < filed(list, names, i).len() && names[filed(list, names, i)[k] as int]
                == names[list[j] as int],
    decreases list.len(),
{
    let out = filed(list, names, i);
    if name_less(names[list[0] as int], names[i as int]) {
        if j == 0 {
            assert(names[out[0] as int] == names[list[0] as int]);
        } else {
            let rest = list.skip(1);
            lemma_filed_keeps_names(rest, names, i, j - 1);
            let k = choose|k: int|
                0 <= k < filed(rest, names, i).len() && names[filed(rest, names, i)[k] as int]
                    == names[rest[j - 1] as int];
            assert(out[k + 1] == filed(rest, names, i)[k]);
            assert(rest[j - 1] == list[j]);
            assert(names[out[k + 1] as int] == names[list[j] as int]);
        }
    } else if names[list[0] as int] == names[i as int] {
        if j == 0 {
            assert(names[out[0] as int] == names[list[0] as int]);
        } else {
            assert(out[j] == list[j]);
            assert(names[out[j] as int] == names[list[j] as int]);
        }
    } else {
        assert(out[j + 1] == list[j]);
        assert(names[out[j + 1] as int] == names[list[j] as int]);
    }
}

/// The places of ranks below `below`, in the order of help.
proof fn lemma_flat_sorted(
    m: Map<usize, Seq<usize>>,
    ranks: Seq<usize>,
    names: Seq<Name>,
    shown: Seq<usize>,
    below: nat,
)
    requires
        well_ranked(m, ranks, names, shown),
        below <= usize::MAX + 1,
    ensures
        forall|a: int, b: int|
            0 <= a < b < flat(ascending(m, below)).len() ==> before_in_help(
                ranks,
                names,
                #[trigger] flat(ascending(m, below))[a],
                #[trigger] flat(ascending(m, below))[b],
            ),
        forall|a: int|
            0 <= a < flat(ascending(m, below)).len() ==> ranks[#[trigger] flat(
                ascending(m, below),
            )[a] as int] < below && shown.contains(flat(ascending(m, below))[a]),
        forall|r: usize, k: int|
            r < below && m.dom().contains(r) && 0 <= k < m[r].len() ==> flat(
                ascending(m, below),
            ).contains(#[trigger] m[r][k]),
    decreases below,
{
    if below > 0 {
        let rank = (below - 1) as usize;
        let lower = flat(ascending(m, (below - 1) as nat));
        lemma_flat_sorted(m, ranks, names, shown, (below - 1) as nat);
        let now = flat(ascending(m, below));
        if m.dom().contains(rank) {
            let list = m[rank];
            assert(ascending(m, below).drop_last() =~= ascending(m, (below - 1) as nat));
            assert(now == lower + list);
            assert forall|a: int, b: int| 0 <= a < b < now.len() implies before_in_help(
                ranks,
                names,
                #[trigger] now[a],
                #[trigger] now[b],
            ) by {
                if b < lower.len() {
                    assert(now[a] == lower[a] && now[b] == lower[b]);
                } else if a < lower.len() {
                    assert(now[a] == lower[a]);
                    assert(now[b] == list[b - lower.len()]);
                    assert(ranks[list[b - lower.len()] as int] == rank);
                } else {
                    assert(now[a] == list[a - lower.len()]);
                    assert(now[b] == list[b - lower.len()]);
                    assert(ranks[list[a - lower.len()] as int] == rank);
                    assert(ranks[list[b - lower.len()] as int] == rank);
                }
            }
            assert forall|a: int| 0 <= a < now.len() implies ranks[#[trigger] now[a] as int] < below
                && shown.contains(now[a]) by {
                if a < lower.len() {
                    assert(now[a] == lower[a]);
                } else {
                    assert(now[a] == list[a - lower.len()]);
                    assert(ranks[list[a - lower.len()] as int] == rank);
                }
            }
            assert forall|r: usize, k: int|
                r < below && m.dom().contains(r) && 0 <= k < m[r].len() implies now.contains(
                #[trigger] m[r][k],
            ) by {
                if r == rank {
                    assert(now[lower.len() + k] == m[r][k]);
                } else {
                    assert(lower.contains(m[r][k]));
                    let p = choose|p: int| 0 <= p < lower.len() && lower[p] == m[r][k];
                    assert(now[p] == m[r][k]);
                }
            }
        } else {
            assert(now == lower);
        }
    }
}

/// The order of help, said directly: the places come by ascending rank and,
/// within a rank, by ascending name; every one of them is among those
/// shown; and every place that is shown has its rank and name among them.
pub proof fn lemma_by_rank_sorted(ranks: Seq<usize>, names: Seq<Name>, shown: Seq<usize>)
    ensures
        forall|a: int, b: int|
            0 <= a < b < by_rank(ranks, names, shown).len() ==> before_in_help(
                ranks,
                names,
                #[trigger] by_rank(ranks, names, shown)[a],
                #[trigger] by_rank(ranks, names, shown)[b],
            ),
        forall|a: int|
            0 <= a < by_rank(ranks, names, shown).len() ==> shown.contains(
                #[trigger] by_rank(ranks, names, shown)[a],
            ),
        forall|k: int|
            0 <= k < shown.len() ==> exists|a: int|
                0 <= a < by_rank(ranks, names, shown).len() && ranks[by_rank(
                    ranks,
                    names,
                    shown,
                )[a] as int] == ranks[#[trigger] shown[k] as int] && names[by_rank(
                    ranks,
                    names,
                    shown,
                )[a] as int] == names[shown[k] as int],
{
    let m = ranked(ranks, names, shown);
    let out = by_rank(ranks, names, shown);
    lemma_ranked(ranks, names, shown);
    lemma_flat_sorted(m, ranks, names, shown, usize::MAX as nat + 1);
    assert forall|k: int| 0 <= k < shown.len() implies exists|a: int|
        0 <= a < out.len() && ranks[out[a] as int] == ranks[#[trigger] shown[k] as int]
            && names[out[a] as int] == names[shown[k] as int] by {
        let r = ranks[shown[k] as int];
        let j = choose|j: int|
            0 <= j < m[r].len() && names[m[r][j] as int] == names[shown[k] as int];
        assert(out.contains(m[r][j]));
        let a = choose|a: int| 0 <= a < out.len() && out[a] == m[r][j];
        assert(ranks[m[r][j] as int] == r);
    }
}

} // verus!
