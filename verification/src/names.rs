//! Argument names and ordered, duplicate-free lists of them.
//!
//! A name is modelled by its sequence of characters. Lists of names keep the
//! order in which the names were first inserted, so that anything reported
//! from them comes out in a stable order.

use vstd::prelude::*;
use vstd::string::StringSliceAdditionalSpecFns;
use vstd::utf8::encode_utf8_decode_utf8;

verus! {

/// The mathematical value of a name: its characters.
pub type Name = Seq<char>;

/// The names held by a list of strings, in order.
pub open spec fn names_of(v: Seq<String>) -> Seq<Name> {
    v.map_values(|s: String| s@)
}

/// The characters of an optional string.
pub open spec fn opt_name(o: Option<String>) -> Option<Name> {
    match o {
        Some(s) => Some(s@),
        None => None,
    }
}

/// `s` with `n` appended unless it is already there.
pub open spec fn insert_unique(s: Seq<Name>, n: Name) -> Seq<Name> {
    if s.contains(n) {
        s
    } else {
        s.push(n)
    }
}

/// `s` followed by those names of `more` that are not yet present, each once,
/// in the order of `more`.
pub open spec fn extend_unique(s: Seq<Name>, more: Seq<Name>) -> Seq<Name>
    decreases more.len(),
{
    if more.len() == 0 {
        s
    } else {
        insert_unique(extend_unique(s, more.drop_last()), more.last())
    }
}

/// The predicate "does not occur in `gone`".
pub open spec fn absent_from(gone: Seq<Name>) -> spec_fn(Name) -> bool {
    |n: Name| !gone.contains(n)
}

/// `s` without the names that occur in `gone`; the rest keep their order.
pub open spec fn without(s: Seq<Name>, gone: Seq<Name>) -> Seq<Name> {
    s.filter(absent_from(gone))
}

/// Appending the view of a pushed string is pushing its name.
pub proof fn lemma_names_push(v: Seq<String>, s: String)
    ensures
        names_of(v.push(s)) == names_of(v).push(s@),
{
    assert(names_of(v.push(s)) =~= names_of(v).push(s@));
}

/// The names of a prefix grow by one name per element.
pub proof fn lemma_names_take(v: Seq<String>, i: int)
    requires
        0 <= i < v.len(),
    ensures
        names_of(v).take(i + 1) == names_of(v).take(i).push(v[i]@),
        names_of(v).take(v.len() as int) == names_of(v),
        names_of(v).take(0) == Seq::<Name>::empty(),
{
    assert(names_of(v).take(i + 1) =~= names_of(v).take(i).push(v[i]@));
    assert(names_of(v).take(v.len() as int) =~= names_of(v));
    assert(names_of(v).take(0) =~= Seq::<Name>::empty());
}

/// How `without` treats a sequence that grew by one name.
pub proof fn lemma_without_push(s: Seq<Name>, n: Name, gone: Seq<Name>)
    ensures
        without(s.push(n), gone) == if gone.contains(n) {
            without(s, gone)
        } else {
            without(s, gone).push(n)
        },
        without(Seq::<Name>::empty(), gone) == Seq::<Name>::empty(),
{
    s.lemma_filter_push(n, absent_from(gone));
    reveal(Seq::filter);
    assert(Seq::<Name>::empty().filter(absent_from(gone)) =~= Seq::<Name>::empty());
}

/// Membership in `without`: a name stays exactly if it was there and is not
/// among the removed ones.
pub proof fn lemma_without_contains(s: Seq<Name>, gone: Seq<Name>, n: Name)
    ensures
        without(s, gone).contains(n) <==> (s.contains(n) && !gone.contains(n)),
    decreases s.len(),
{
    if s.len() == 0 {
        lemma_without_push(s, n, gone);
        assert(s =~= Seq::<Name>::empty());
    } else {
        let init = s.drop_last();
        let last = s.last();
        assert(s =~= init.push(last));
        lemma_without_push(init, last, gone);
        lemma_without_contains(init, gone, n);
        if s.contains(n) {
            let j = choose|j: int| 0 <= j < s.len() && s[j] == n;
            if j < init.len() {
                assert(init[j] == n);
            }
        }
        if init.contains(n) {
            let j = choose|j: int| 0 <= j < init.len() && init[j] == n;
            assert(s[j] == n);
        }
        let w = without(init, gone);
        if !gone.contains(last) {
            assert(w.push(last)[w.len() as int] == last);
            if w.push(last).contains(n) {
                let j = choose|j: int| 0 <= j < w.push(last).len() && w.push(last)[j] == n;
                if j < w.len() {
                    assert(w[j] == n);
                }
            }
            if w.contains(n) {
                let j = choose|j: int| 0 <= j < w.len() && w[j] == n;
                assert(w.push(last)[j] == n);
            }
        }
        assert(s[s.len() - 1] == last);
    }
}

/// Removing names keeps a list free of duplicates.
pub proof fn lemma_without_no_duplicates(s: Seq<Name>, gone: Seq<Name>)
    requires
        s.no_duplicates(),
    ensures
        without(s, gone).no_duplicates(),
    decreases s.len(),
{
    if s.len() == 0 {
        lemma_without_push(s, Seq::<char>::empty(), gone);
        assert(s =~= Seq::<Name>::empty());
    } else {
        let init = s.drop_last();
        let last = s.last();
        assert(s =~= init.push(last));
        lemma_without_push(init, last, gone);
        lemma_without_no_duplicates(init, gone);
        lemma_without_contains(init, gone, last);
        if init.contains(last) {
            let j = choose|j: int| 0 <= j < init.len() && init[j] == last;
            assert(s[j] == s[s.len() - 1]);
        }
        let w = without(init, gone);
        if !gone.contains(last) {
            assert forall|i: int, j: int|
                0 <= i < w.push(last).len() && 0 <= j < w.push(last).len() && i != j implies w.push(
                last,
            )[i] != w.push(last)[j] by {
                if i < w.len() && j < w.len() {
                } else if i < w.len() {
                    assert(w.contains(w[i]));
                } else {
                    assert(w.contains(w[j]));
                }
            }
        }
    }
}

/// Membership after an insertion: what was there, and the inserted name.
pub proof fn lemma_insert_unique_contains(s: Seq<Name>, n: Name, m: Name)
    ensures
        insert_unique(s, n).contains(m) <==> (s.contains(m) || m == n),
{
    let r = insert_unique(s, n);
    if !s.contains(n) {
        assert(r[s.len() as int] == n);
        if r.contains(m) {
            let j = choose|j: int| 0 <= j < r.len() && r[j] == m;
            if j < s.len() {
                assert(s[j] == m);
            }
        }
        if s.contains(m) {
            let j = choose|j: int| 0 <= j < s.len() && s[j] == m;
            assert(r[j] == m);
        }
    }
}

/// Membership after an extension: what was there, and what was offered.
pub proof fn lemma_extend_unique_contains(s: Seq<Name>, more: Seq<Name>, m: Name)
    ensures
        extend_unique(s, more).contains(m) <==> (s.contains(m) || more.contains(m)),
    decreases more.len(),
{
    if more.len() > 0 {
        let init = more.drop_last();
        let last = more.last();
        lemma_extend_unique_contains(s, init, m);
        lemma_insert_unique_contains(extend_unique(s, init), last, m);
        if more.contains(m) {
            let j = choose|j: int| 0 <= j < more.len() && more[j] == m;
            if j < init.len() {
                assert(init[j] == m);
            }
        }
        if init.contains(m) {
            let j = choose|j: int| 0 <= j < init.len() && init[j] == m;
            assert(more[j] == m);
        }
        assert(more[more.len() - 1] == last);
    }
}

/// Inserting keeps a duplicate-free list duplicate-free and adds exactly one
/// member.
pub proof fn lemma_insert_unique(s: Seq<Name>, n: Name)
    requires
        s.no_duplicates(),
    ensures
        insert_unique(s, n).no_duplicates(),
        insert_unique(s, n).contains(n),
        forall|m: Name| insert_unique(s, n).contains(m) <==> (s.contains(m) || m == n),
{
    let r = insert_unique(s, n);
    if !s.contains(n) {
        assert(r[s.len() as int] == n);
        assert forall|m: Name| r.contains(m) <==> (s.contains(m) || m == n) by {
            if r.contains(m) {
                let j = choose|j: int| 0 <= j < r.len() && r[j] == m;
                if j < s.len() {
                    assert(s[j] == m);
                }
            }
            if s.contains(m) {
                let j = choose|j: int| 0 <= j < s.len() && s[j] == m;
                assert(r[j] == m);
            }
        }
        assert forall|i: int, j: int| 0 <= i < r.len() && 0 <= j < r.len() && i != j implies r[i]
            != r[j] by {
            if i < s.len() && j < s.len() {
            } else if i < s.len() {
                assert(s.contains(s[i]));
            } else {
                assert(s.contains(s[j]));
            }
        }
    }
}

/// What `extend_unique` holds: everything it started with and everything
/// that was offered, and nothing else; and it stays duplicate-free.
pub proof fn lemma_extend_unique(s: Seq<Name>, more: Seq<Name>)
    requires
        s.no_duplicates(),
    ensures
        extend_unique(s, more).no_duplicates(),
        forall|m: Name| extend_unique(s, more).contains(m) <==> (s.contains(m) || more.contains(m)),
    decreases more.len(),
{
    if more.len() == 0 {
    } else {
        let init = more.drop_last();
        let last = more.last();
        lemma_extend_unique(s, init);
        let mid = extend_unique(s, init);
        lemma_insert_unique(mid, last);
        assert forall|m: Name| extend_unique(s, more).contains(m) <==> (s.contains(m)
            || more.contains(m)) by {
            if more.contains(m) {
                let j = choose|j: int| 0 <= j < more.len() && more[j] == m;
                if j < init.len() {
                    assert(init[j] == m);
                }
            }
            if init.contains(m) {
                let j = choose|j: int| 0 <= j < init.len() && init[j] == m;
                assert(more[j] == m);
            }
            assert(more[more.len() - 1] == last);
        }
    }
}

/// How a filter treats a prefix that grew by one name.
pub proof fn lemma_filter_step(s: Seq<Name>, p: spec_fn(Name) -> bool, i: int)
    requires
        0 <= i < s.len(),
    ensures
        s.take(i + 1).filter(p) == if p(s[i]) {
            s.take(i).filter(p).push(s[i])
        } else {
            s.take(i).filter(p)
        },
{
    assert(s.take(i + 1) =~= s.take(i).push(s[i]));
    s.take(i).lemma_filter_push(s[i], p);
}

/// A filter of nothing is nothing, and the whole prefix is the sequence.
pub proof fn lemma_filter_ends(s: Seq<Name>, p: spec_fn(Name) -> bool)
    ensures
        s.take(0).filter(p) == Seq::<Name>::empty(),
        s.take(s.len() as int) == s,
{
    reveal(Seq::filter);
    assert(s.take(0) =~= Seq::<Name>::empty());
    assert(Seq::<Name>::empty().filter(p) =~= Seq::<Name>::empty());
    assert(s.take(s.len() as int) =~= s);
}

/// Membership in a filtered list: a name stays exactly if it was there and
/// the predicate holds of it.
pub proof fn lemma_filter_contains(s: Seq<Name>, p: spec_fn(Name) -> bool, n: Name)
    ensures
        s.filter(p).contains(n) <==> (s.contains(n) && p(n)),
    decreases s.len(),
{
    reveal(Seq::filter);
    if s.len() == 0 {
    } else {
        let init = s.drop_last();
        let last = s.last();
        lemma_filter_contains(init, p, n);
        let w = init.filter(p);
        if s.contains(n) {
            let j = choose|j: int| 0 <= j < s.len() && s[j] == n;
            if j < init.len() {
                assert(init[j] == n);
            }
        }
        if init.contains(n) {
            let j = choose|j: int| 0 <= j < init.len() && init[j] == n;
            assert(s[j] == n);
        }
        assert(s[s.len() - 1] == last);
        if p(last) {
            assert(w.push(last)[w.len() as int] == last);
            if w.push(last).contains(n) {
                let j = choose|j: int| 0 <= j < w.push(last).len() && w.push(last)[j] == n;
                if j < w.len() {
                    assert(w[j] == n);
                }
            }
            if w.contains(n) {
                let j = choose|j: int| 0 <= j < w.len() && w[j] == n;
                assert(w.push(last)[j] == n);
            }
        }
    }
}

/// Filtering keeps a list free of duplicates.
pub proof fn lemma_filter_no_duplicates(s: Seq<Name>, p: spec_fn(Name) -> bool)
    requires
        s.no_duplicates(),
    ensures
        s.filter(p).no_duplicates(),
    decreases s.len(),
{
    reveal(Seq::filter);
    if s.len() == 0 {
    } else {
        let init = s.drop_last();
        let last = s.last();
        lemma_filter_no_duplicates(init, p);
        lemma_filter_contains(init, p, last);
        if init.contains(last) {
            let j = choose|j: int| 0 <= j < init.len() && init[j] == last;
            assert(s[j] == s[s.len() - 1]);
        }
        let w = init.filter(p);
        if p(last) {
            assert forall|i: int, j: int|
                0 <= i < w.push(last).len() && 0 <= j < w.push(last).len() && i != j implies w.push(
                last,
            )[i] != w.push(last)[j] by {
                if i < w.len() && j < w.len() {
                } else if i < w.len() {
                    assert(w.contains(w[i]));
                } else {
                    assert(w.contains(w[j]));
                }
            }
        }
    }
}

/// Compares two strings character by character.
pub fn str_eq(a: &str, b: &str) -> (same: bool)
    ensures
        same == (a@ == b@),
{
    let x = a.as_bytes();
    let y = b.as_bytes();
    proof {
        encode_utf8_decode_utf8(a@);
        encode_utf8_decode_utf8(b@);
    }
    if x.len() != y.len() {
        return false;
    }
    let mut i: usize = 0;
    while i < x.len()
        invariant
            i <= x.len(),
            x.len() == y.len(),
            x@ == a.spec_bytes(),
            y@ == b.spec_bytes(),
            forall|k: int| 0 <= k < i ==> x@[k] == y@[k],
        decreases x.len() - i,
    {
        if x[i] != y[i] {
            return false;
        }
        i += 1;
    }
    assert(x@ =~= y@);
    true
}

/// Tells whether `name` occurs in `list`.
pub fn contains_name(list: &Vec<String>, name: &str) -> (found: bool)
    ensures
        found == names_of(list@).contains(name@),
{
    let mut i: usize = 0;
    while i < list.len()
        invariant
            i <= list.len(),
            forall|k: int| 0 <= k < i ==> names_of(list@)[k] != name@,
        decreases list.len() - i,
    {
        if str_eq(list[i].as_str(), name) {
            assert(names_of(list@)[i as int] == name@);
            return true;
        }
        i += 1;
    }
    false
}

/// Appends `name` to `list` unless it is already there.
pub fn push_unique(list: &mut Vec<String>, name: &str)
    ensures
        names_of(final(list)@) == insert_unique(names_of(old(list)@), name@),
{
    if !contains_name(list, name) {
        let owned = name.to_owned();
        proof {
            lemma_names_push(list@, owned);
        }
        list.push(owned);
    }
}

/// Appends to `list`, in order, each name of `more` that it does not hold yet.
pub fn push_all_unique(list: &mut Vec<String>, more: &Vec<String>)
    ensures
        names_of(final(list)@) == extend_unique(names_of(old(list)@), names_of(more@)),
{
    let mut i: usize = 0;
    proof {
        if more.len() > 0 {
            lemma_names_take(more@, 0);
        } else {
            assert(names_of(more@).take(0) =~= Seq::<Name>::empty());
        }
    }
    while i < more.len()
        invariant
            i <= more.len(),
            names_of(list@) == extend_unique(names_of(old(list)@), names_of(more@).take(i as int)),
        decreases more.len() - i,
    {
        proof {
            lemma_names_take(more@, i as int);
            let next = names_of(more@).take(i + 1);
            assert(next.drop_last() =~= names_of(more@).take(i as int));
            assert(next.last() == more@[i as int]@);
        }
        push_unique(list, more[i].as_str());
        i += 1;
    }
    proof {
        assert(names_of(more@).take(more.len() as int) =~= names_of(more@));
    }
}

/// Removes from `list` every name that occurs in `gone`, keeping the order of
/// the others.
pub fn remove_names(list: &mut Vec<String>, gone: &Vec<String>)
    ensures
        names_of(final(list)@) == without(names_of(old(list)@), names_of(gone@)),
{
    let mut kept: Vec<String> = Vec::new();
    let mut i: usize = 0;
    proof {
        lemma_without_push(Seq::<Name>::empty(), Seq::<char>::empty(), names_of(gone@));
        assert(names_of(list@).take(0) =~= Seq::<Name>::empty());
        assert(names_of(kept@) =~= Seq::<Name>::empty());
    }
    while i < list.len()
        invariant
            i <= list.len(),
            list@ == old(list)@,
            names_of(kept@) == without(names_of(list@).take(i as int), names_of(gone@)),
        decreases list.len() - i,
    {
        proof {
            lemma_names_take(list@, i as int);
            lemma_without_push(names_of(list@).take(i as int), list@[i as int]@, names_of(gone@));
        }
        if !contains_name(gone, list[i].as_str()) {
            let owned = list[i].clone();
            proof {
                lemma_names_push(kept@, owned);
            }
            kept.push(owned);
        }
        i += 1;
    }
    proof {
        assert(names_of(list@).take(list.len() as int) =~= names_of(list@));
    }
    *list = kept;
}

/// Removes `name` from `list`.
pub fn remove_name(list: &mut Vec<String>, name: &str)
    ensures
        names_of(final(list)@) == without(names_of(old(list)@), seq![name@]),
{
    let mut gone: Vec<String> = Vec::new();
    let owned = name.to_owned();
    gone.push(owned);
    proof {
        assert(names_of(gone@) =~= seq![name@]);
    }
    remove_names(list, &gone);
}

/// A copy of a list of names.
pub fn clone_names(list: &Vec<String>) -> (copy: Vec<String>)
    ensures
        names_of(copy@) == names_of(list@),
        copy@.len() == list@.len(),
{
    let mut copy: Vec<String> = Vec::new();
    let mut i: usize = 0;
    while i < list.len()
        invariant
            i <= list.len(),
            copy@.len() == i,
            forall|k: int| 0 <= k < i ==> copy@[k]@ == list@[k]@,
        decreases list.len() - i,
    {
        copy.push(list[i].clone());
        i += 1;
    }
    assert(names_of(copy@) =~= names_of(list@));
    copy
}

} // verus!
