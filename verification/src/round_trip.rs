//! Round-trip completeness: what is supplied within the constraints is what
//! the ledger hands back.
//!
//! How the tokens read (which argument each token is bound to) depends on
//! the declarations and on the tokens before it, not on the ledger or the
//! side tables. That reading is defined here on its own. The theorem says:
//! if every token can be read, and the arguments so supplied respect the
//! model's requirements, conflicts and multiplicities, and none of them
//! overrides another, then the parse succeeds and the ledger holds each
//! argument with the number of its occurrences and with its values in order.

use vstd::prelude::*;
use crate::names::{Name, without, lemma_extend_unique_contains, lemma_without_contains,
    lemma_filter_contains};
use crate::args::{AppSpec, GroupSpec};
use crate::matcher::{MatchesSpec, Value};
use crate::resolver::{ResolverSpec, resolve, override_arrival, declare_overrides,
    conflict_bookkeeping, propagate_requires, discharge_groups, strip_named, absent_names,
    not_present, initially_required, lemma_resolve_frame};
use crate::parser::{ParseSpec, ErrorSpec, Binding, Shape, step, run, parse_spec, bind, advance,
    apply_match, starved, in_conflict, conflict_index, first_conflicting, conflict};
use crate::laws::{lemma_bind_in_range, lemma_strip_named_subset, lemma_discharge_origin};

verus! {

/// How the tokens read: the shape after the last of them and the binding of
/// each, or the first token that cannot be read.
pub open spec fn reading(app: AppSpec, tokens: Seq<Seq<char>>) -> Result<
    (Shape, Seq<Binding>),
    ErrorSpec,
>
    decreases tokens.len(),
{
    if tokens.len() == 0 {
        Ok((ParseSpec::initial(app).shape(), Seq::empty()))
    } else {
        match reading(app, tokens.drop_last()) {
            Ok((sh, bs)) => match bind(app, sh, tokens.last()) {
                Ok(b) => Ok((advance(app, sh, b), bs.push(b))),
                Err(e) => Err(e),
            },
            Err(e) => Err(e),
        }
    }
}

/// Whether the binding is an occurrence of the argument called `n`.
pub open spec fn occurrence_of(app: AppSpec, b: Binding, n: Name) -> bool {
    match b {
        Binding::Switch(i) => app.args[i].name == n,
        Binding::Positional(i) => app.args[i].name == n,
        _ => false,
    }
}

/// Whether the binding makes its token a value of the argument called `n`.
pub open spec fn value_of(app: AppSpec, b: Binding, n: Name) -> bool {
    match b {
        Binding::Positional(i) => app.args[i].name == n,
        Binding::Value(x) => x == n,
        _ => false,
    }
}

/// Whether the argument called `n` is supplied: some token is bound to an
/// occurrence of it.
pub open spec fn supplied(app: AppSpec, bs: Seq<Binding>, n: Name) -> bool {
    exists|k: int| 0 <= k < bs.len() && occurrence_of(app, #[trigger] bs[k], n)
}

/// How often the argument called `n` is supplied.
pub open spec fn supplied_count(app: AppSpec, bs: Seq<Binding>, n: Name) -> nat
    decreases bs.len(),
{
    if bs.len() == 0 {
        0
    } else {
        supplied_count(app, bs.drop_last(), n) + if occurrence_of(app, bs.last(), n) {
            1nat
        } else {
            0nat
        }
    }
}

/// The values supplied for the argument called `n`, in the order of the
/// tokens.
pub open spec fn supplied_values(app: AppSpec, bs: Seq<Binding>, tokens: Seq<Seq<char>>, n: Name)
    -> Seq<Value>
    decreases bs.len(),
{
    if bs.len() == 0 {
        Seq::empty()
    } else if value_of(app, bs.last(), n) {
        supplied_values(app, bs.drop_last(), tokens.drop_last(), n).push(tokens.last())
    } else {
        supplied_values(app, bs.drop_last(), tokens.drop_last(), n)
    }
}

/// Whether a member of the group is supplied.
pub open spec fn member_supplied(app: AppSpec, bs: Seq<Binding>, g: GroupSpec) -> bool {
    exists|k: int| 0 <= k < g.args.len() && supplied(app, bs, #[trigger] g.args[k])
}

/// Whether the model asks for the argument called `n`, given what is
/// supplied: it is required outright, or a supplied argument requires it, or
/// a group with a supplied member requires it.
pub open spec fn demanded(app: AppSpec, bs: Seq<Binding>, n: Name) -> bool {
    ||| exists|i: int|
        0 <= i < app.args.len() && (#[trigger] app.args[i]).name == n && app.args[i].required
    ||| exists|i: int|
        0 <= i < app.args.len() && supplied(app, bs, (#[trigger] app.args[i]).name)
            && app.args[i].requires.contains(n)
    ||| exists|g: int|
        0 <= g < app.groups.len() && member_supplied(app, bs, #[trigger] app.groups[g])
            && app.groups[g].requires.contains(n)
}

/// Every argument that the model asks for is supplied.
pub open spec fn requirements_met(app: AppSpec, bs: Seq<Binding>) -> bool {
    forall|n: Name| #[trigger] demanded(app, bs, n) ==> supplied(app, bs, n)
}

/// No two supplied arguments must not occur together.
pub open spec fn conflicts_avoided(app: AppSpec, bs: Seq<Binding>) -> bool {
    forall|i: int, j: int|
        0 <= i < app.args.len() && 0 <= j < app.args.len() && supplied(
            app,
            bs,
            (#[trigger] app.args[i]).name,
        ) && supplied(app, bs, (#[trigger] app.args[j]).name) ==> !in_conflict(
            app,
            app.args[i],
            app.args[j],
        )
}

/// A flag or option that is supplied twice may occur more than once.
pub open spec fn multiplicity_kept(app: AppSpec, bs: Seq<Binding>) -> bool {
    forall|k1: int, k2: int|
        0 <= k1 < k2 < bs.len() && (#[trigger] bs[k1]) is Switch && bs[k1] == (#[trigger] bs[k2])
            ==> app.args[bs[k1]->Switch_0].multiple
}

/// No supplied argument overrides a supplied one. Where one does, the
/// overridden values are discarded by design and cannot be handed back.
pub open spec fn overrides_unused(app: AppSpec, bs: Seq<Binding>) -> bool {
    forall|i: int, j: int|
        0 <= i < app.args.len() && 0 <= j < app.args.len() && supplied(
            app,
            bs,
            (#[trigger] app.args[i]).name,
        ) && supplied(app, bs, (#[trigger] app.args[j]).name)
            ==> !app.args[i].overrides_with.contains(app.args[j].name)
}

/// Whether some supplied argument overrides `n`.
pub open spec fn overridden_by_supplied(app: AppSpec, bs: Seq<Binding>, n: Name) -> bool {
    exists|i: int|
        0 <= i < app.args.len() && supplied(app, bs, (#[trigger] app.args[i]).name)
            && app.args[i].overrides_with.contains(n)
}

/// Every binding names a declared argument of the right kind.
pub open spec fn bindings_sound(app: AppSpec, bs: Seq<Binding>) -> bool {
    forall|k: int|
        0 <= k < bs.len() ==> match #[trigger] bs[k] {
            Binding::Switch(i) => 0 <= i < app.args.len() && !app.args[i].is_positional(),
            Binding::Positional(i) => 0 <= i < app.args.len() && app.args[i].is_positional(),
            _ => true,
        }
}

/// A reading of the whole is a reading of every prefix.
proof fn lemma_reading_prefix(app: AppSpec, tokens: Seq<Seq<char>>, k: int)
    requires
        reading(app, tokens) is Ok,
        0 <= k <= tokens.len(),
    ensures
        reading(app, tokens.take(k)) is Ok,
        reading(app, tokens)->Ok_0.1.len() == tokens.len(),
        reading(app, tokens.take(k))->Ok_0.1 == reading(app, tokens)->Ok_0.1.take(k),
        bindings_sound(app, reading(app, tokens)->Ok_0.1),
        k < tokens.len() ==> bind(app, reading(app, tokens.take(k))->Ok_0.0, tokens[k]) == Ok::<
            Binding,
            ErrorSpec,
        >(reading(app, tokens)->Ok_0.1[k]),
        k < tokens.len() ==> reading(app, tokens.take(k + 1))->Ok_0.0 == advance(
            app,
            reading(app, tokens.take(k))->Ok_0.0,
            reading(app, tokens)->Ok_0.1[k],
        ),
    decreases tokens.len(),
{
    if tokens.len() == 0 {
        assert(tokens.take(k) =~= tokens);
        assert(reading(app, tokens)->Ok_0.1.take(k) =~= reading(app, tokens)->Ok_0.1);
    } else {
        let init = tokens.drop_last();
        let (sh, bs) = reading(app, init)->Ok_0;
        let b = bind(app, sh, tokens.last())->Ok_0;
        let all = reading(app, tokens)->Ok_0.1;
        assert(all == bs.push(b));
        lemma_reading_prefix(app, init, init.len() as int);
        assert(init.take(init.len() as int) =~= init);
        lemma_bind_in_range(app, sh, tokens.last());
        assert(bindings_sound(app, all)) by {
            assert forall|j: int| 0 <= j < all.len() implies match #[trigger] all[j] {
                Binding::Switch(i) => 0 <= i < app.args.len() && !app.args[i].is_positional(),
                Binding::Positional(i) => 0 <= i < app.args.len() && app.args[i].is_positional(),
                _ => true,
            } by {
                if j < bs.len() {
                    assert(all[j] == bs[j]);
                }
            }
        }
        if k == tokens.len() {
            assert(tokens.take(k) =~= tokens);
            assert(all.take(k) =~= all);
        } else {
            lemma_reading_prefix(app, init, k);
            assert(init.take(k) =~= tokens.take(k));
            assert(bs.take(k) =~= all.take(k));
            if k < init.len() {
                assert(init[k] == tokens[k]);
                assert(bs[k] == all[k]);
                assert(init.take(k + 1) =~= tokens.take(k + 1));
            } else {
                assert(tokens.take(k + 1) =~= tokens);
                assert(tokens[k] == tokens.last());
            }
        }
    }
}

/// An argument is supplied exactly if it is supplied at least once.
proof fn lemma_supplied_count(app: AppSpec, bs: Seq<Binding>, n: Name)
    ensures
        supplied(app, bs, n) <==> supplied_count(app, bs, n) >= 1,
    decreases bs.len(),
{
    if bs.len() > 0 {
        let init = bs.drop_last();
        lemma_supplied_count(app, init, n);
        if supplied(app, bs, n) {
            let k = choose|k: int| 0 <= k < bs.len() && occurrence_of(app, #[trigger] bs[k], n);
            if k < init.len() {
                assert(occurrence_of(app, init[k], n));
            }
        }
        if supplied(app, init, n) {
            let k = choose|k: int| 0 <= k < init.len() && occurrence_of(app, #[trigger] init[k], n);
            assert(occurrence_of(app, bs[k], n));
        }
        if occurrence_of(app, bs.last(), n) {
            assert(occurrence_of(app, bs[bs.len() - 1], n));
        }
    }
}

/// What a prefix supplies, the whole supplies.
proof fn lemma_supplied_prefix(app: AppSpec, bs: Seq<Binding>, k: int, n: Name)
    requires
        0 <= k <= bs.len(),
        supplied(app, bs.take(k), n),
    ensures
        supplied(app, bs, n),
{
    let j = choose|j: int| 0 <= j < bs.take(k).len() && occurrence_of(app, #[trigger] bs.take(k)[j], n);
    assert(occurrence_of(app, bs[j], n));
}

/// What the ledger and the side tables hold after a prefix of the tokens,
/// when nothing has been refused and nothing discarded: the tally of the
/// prefix, and only what the supplied arguments account for.
pub open spec fn tallied(
    app: AppSpec,
    st: ParseSpec,
    bs: Seq<Binding>,
    tokens: Seq<Seq<char>>,
    all: Seq<Binding>,
) -> bool {
    &&& forall|n: Name| #[trigger] st.matches.occurrences(n) == supplied_count(app, bs, n)
    &&& forall|n: Name| #[trigger] st.matches.values(n) == supplied_values(app, bs, tokens, n)
    &&& forall|n: Name| #[trigger] st.matches.args.dom().contains(n) ==> supplied(app, bs, n)
    &&& st.pending is Some ==> supplied(app, bs, st.pending->0.name)
    &&& forall|k: int|
        0 <= k < st.resolver.overrides.len() ==> overridden_by_supplied(
            app,
            all,
            #[trigger] st.resolver.overrides[k],
        )
    &&& forall|k: int|
        0 <= k < st.resolver.required.len() ==> demanded(
            app,
            all,
            #[trigger] st.resolver.required[k],
        )
}

/// Under the constraints the resolver discards nothing and leaves pending
/// only what the supplied arguments ask for.
proof fn lemma_resolve_within(
    app: AppSpec,
    idx: int,
    r: ResolverSpec,
    m: MatchesSpec,
    seen: Seq<Binding>,
    all: Seq<Binding>,
)
    requires
        app.wf(),
        0 <= idx < app.args.len(),
        overrides_unused(app, all),
        supplied(app, all, app.args[idx].name),
        forall|n: Name| #[trigger] supplied(app, seen, n) ==> supplied(app, all, n),
        forall|n: Name| #[trigger] m.args.dom().contains(n) ==> supplied(app, seen, n),
        m.present(app.args[idx].name),
        forall|k: int|
            0 <= k < r.overrides.len() ==> overridden_by_supplied(app, all, #[trigger] r.overrides[k]),
        forall|k: int| 0 <= k < r.required.len() ==> demanded(app, all, #[trigger] r.required[k]),
    ensures
        resolve(app, app.args[idx], r, m).1 == m,
        forall|k: int|
            0 <= k < resolve(app, app.args[idx], r, m).0.overrides.len()
                ==> overridden_by_supplied(
                app,
                all,
                #[trigger] resolve(app, app.args[idx], r, m).0.overrides[k],
            ),
        forall|k: int|
            0 <= k < resolve(app, app.args[idx], r, m).0.required.len() ==> demanded(
                app,
                all,
                #[trigger] resolve(app, app.args[idx], r, m).0.required[k],
            ),
{
    let a = app.args[idx];
    // First step: `a` is supplied, so no supplied argument overrides it.
    assert(!r.overrides.contains(a.name)) by {
        if r.overrides.contains(a.name) {
            let k = choose|k: int| 0 <= k < r.overrides.len() && r.overrides[k] == a.name;
            assert(overridden_by_supplied(app, all, r.overrides[k]));
            let i = choose|i: int|
                0 <= i < app.args.len() && supplied(app, all, (#[trigger] app.args[i]).name)
                    && app.args[i].overrides_with.contains(a.name);
            assert(!app.args[i].overrides_with.contains(app.args[idx].name));
        }
    }
    let (s1, m1) = override_arrival(app, a, r, m);
    assert(s1 == r && m1 == m);
    // Second step: what `a` overrides is not supplied, so it has no entry.
    let m2 = m1.remove_all(a.overrides_with);
    assert(m2.args =~= m.args) by {
        assert forall|n: Name| m.args.dom().contains(n) implies !a.overrides_with.to_set().contains(
            n,
        ) by {
            if a.overrides_with.contains(n) {
                assert(supplied(app, seen, n));
                assert(supplied(app, all, n));
                let j = choose|j: int|
                    0 <= j < app.args.len() && (#[trigger] app.args[j]).name == n;
                assert(!app.args[idx].overrides_with.contains(app.args[j].name));
            }
        }
    }
    assert(m2 == m);
    let t = strip_named(app, m2, s1, a.overrides_with);
    let (s2, _) = declare_overrides(app, a, s1, m1);
    assert forall|k: int| 0 <= k < s2.required.len() implies demanded(
        app,
        all,
        #[trigger] s2.required[k],
    ) by {
        let n = s2.required[k];
        assert(s2.required.contains(n));
        lemma_without_contains(t.required, a.overrides_with, n);
        lemma_strip_named_subset(app, m2, s1, a.overrides_with, n);
        let j = choose|j: int| 0 <= j < r.required.len() && r.required[j] == n;
        assert(demanded(app, all, r.required[j]));
    }
    assert forall|k: int| 0 <= k < s2.overrides.len() implies overridden_by_supplied(
        app,
        all,
        #[trigger] s2.overrides[k],
    ) by {
        let n = s2.overrides[k];
        assert(s2.overrides.contains(n));
        lemma_extend_unique_contains(t.overrides, a.overrides_with, n);
        if t.overrides.contains(n) {
            lemma_strip_named_subset(app, m2, s1, a.overrides_with, n);
            let j = choose|j: int| 0 <= j < r.overrides.len() && r.overrides[j] == n;
            assert(overridden_by_supplied(app, all, r.overrides[j]));
        } else {
            assert(supplied(app, all, app.args[idx].name) && app.args[idx].overrides_with.contains(
                n,
            ));
        }
    }
    let s3 = conflict_bookkeeping(a, s2);
    assert forall|k: int| 0 <= k < s3.overrides.len() implies overridden_by_supplied(
        app,
        all,
        #[trigger] s3.overrides[k],
    ) by {
        let n = s3.overrides[k];
        assert(s3.overrides.contains(n));
        lemma_without_contains(s2.overrides, a.conflicts_with, n);
        let j = choose|j: int| 0 <= j < s2.overrides.len() && s2.overrides[j] == n;
        assert(overridden_by_supplied(app, all, s2.overrides[j]));
    }
    let s4 = propagate_requires(a, s3, m2);
    assert forall|n: Name| s4.required.contains(n) implies demanded(app, all, n) by {
        lemma_extend_unique_contains(s3.required, absent_names(m2, a.requires), n);
        if s3.required.contains(n) {
            let j = choose|j: int| 0 <= j < s2.required.len() && s2.required[j] == n;
            assert(demanded(app, all, s2.required[j]));
        } else {
            lemma_filter_contains(a.requires, not_present(m2), n);
            assert(supplied(app, all, app.args[idx].name) && app.args[idx].requires.contains(n));
        }
    }
    let r5 = discharge_groups(app.groups, a.name, m2, s4.required);
    assert forall|k: int| 0 <= k < r5.len() implies demanded(app, all, #[trigger] r5[k]) by {
        let n = r5[k];
        assert(r5.contains(n));
        lemma_discharge_origin(app.groups, a.name, m2, s4.required, n);
        if !s4.required.contains(n) {
            let g = choose|g: int|
                0 <= g < app.groups.len() && (#[trigger] app.groups[g]).args.contains(a.name)
                    && app.groups[g].requires.contains(n);
            let j = choose|j: int|
                0 <= j < app.groups[g].args.len() && app.groups[g].args[j] == a.name;
            assert(supplied(app, all, app.groups[g].args[j]));
            assert(member_supplied(app, all, app.groups[g]));
        }
    }
}

/// The constraints that the theorem asks of what is supplied.
pub open spec fn within_constraints(app: AppSpec, bs: Seq<Binding>) -> bool {
    &&& requirements_met(app, bs)
    &&& conflicts_avoided(app, bs)
    &&& multiplicity_kept(app, bs)
    &&& overrides_unused(app, bs)
}

/// One more token: under the constraints it is not refused, and the tally
/// goes on.
proof fn lemma_round_trip_step(
    app: AppSpec,
    st: ParseSpec,
    tokens: Seq<Seq<char>>,
    all: Seq<Binding>,
    k: int,
)
    requires
        app.wf(),
        reading(app, tokens) is Ok,
        all == reading(app, tokens)->Ok_0.1,
        within_constraints(app, all),
        0 <= k < tokens.len(),
        st.shape() == reading(app, tokens.take(k))->Ok_0.0,
        tallied(app, st, all.take(k), tokens.take(k), all),
    ensures
        step(app, st, tokens[k]) is Ok,
        step(app, st, tokens[k])->Ok_0.shape() == reading(app, tokens.take(k + 1))->Ok_0.0,
        tallied(app, step(app, st, tokens[k])->Ok_0, all.take(k + 1), tokens.take(k + 1), all),
{
    lemma_reading_prefix(app, tokens, k);
    let t = tokens[k];
    let b = all[k];
    let seen = all.take(k);
    let now = all.take(k + 1);
    let m = st.matches;
    let r = st.resolver;
    assert(now.drop_last() =~= seen);
    assert(now.last() == b);
    assert(tokens.take(k + 1).drop_last() =~= tokens.take(k));
    assert(tokens.take(k + 1).last() == t);
    assert(bind(app, st.shape(), t) == Ok::<Binding, ErrorSpec>(b));
    assert forall|n: Name| #[trigger] supplied(app, seen, n) implies supplied(app, now, n) by {
        assert(now.take(k) =~= seen);
        lemma_supplied_prefix(app, now, k, n);
    }
    assert forall|n: Name| #[trigger] supplied(app, now, n) implies supplied(app, all, n) by {
        lemma_supplied_prefix(app, all, k + 1, n);
    }
    assert forall|n: Name| #[trigger] m.present(n) implies supplied(app, all, n) by {
        assert(m.occurrences(n) == supplied_count(app, seen, n));
        lemma_supplied_count(app, seen, n);
    }
    match b {
        Binding::Switch(i) => {
            lemma_matched(app, st, tokens, all, k, i, None);
            let a = app.args[i];
            assert(!(m.present(a.name) && !a.multiple)) by {
                if m.present(a.name) {
                    assert(m.occurrences(a.name) == supplied_count(app, seen, a.name));
                    lemma_supplied_count(app, seen, a.name);
                    let k1 = choose|k1: int|
                        0 <= k1 < seen.len() && occurrence_of(app, #[trigger] seen[k1], a.name);
                    assert(seen[k1] == all[k1]);
                    match all[k1] {
                        Binding::Switch(j) => {
                            assert(j == i);
                            assert(all[k1] is Switch && all[k1] == all[k]);
                        },
                        Binding::Positional(j) => {
                            assert(j == i);
                        },
                        _ => {},
                    }
                }
            }
        },
        Binding::Positional(i) => {
            lemma_matched(app, st, tokens, all, k, i, Some(t));
        },
        Binding::Value(x) => {
            let s2 = step(app, st, t)->Ok_0;
            assert(st.pending is Some && st.pending->0.name == x);
            assert(supplied(app, now, x));
            assert forall|n: Name| #[trigger]
                s2.matches.occurrences(n) == supplied_count(app, now, n) by {
                assert(m.occurrences(n) == supplied_count(app, seen, n));
            }
            assert forall|n: Name| #[trigger]
                s2.matches.values(n) == supplied_values(app, now, tokens.take(k + 1), n) by {
                assert(m.values(n) == supplied_values(app, seen, tokens.take(k), n));
            }
            assert forall|n: Name| #[trigger]
                s2.matches.args.dom().contains(n) implies supplied(app, now, n) by {
                if n != x {
                    assert(m.args.dom().contains(n));
                }
            }
        },
        _ => {
            let s2 = step(app, st, t)->Ok_0;
            assert forall|n: Name| #[trigger]
                s2.matches.occurrences(n) == supplied_count(app, now, n) by {
                assert(m.occurrences(n) == supplied_count(app, seen, n));
            }
            assert forall|n: Name| #[trigger]
                s2.matches.values(n) == supplied_values(app, now, tokens.take(k + 1), n) by {
                assert(m.values(n) == supplied_values(app, seen, tokens.take(k), n));
            }
            assert forall|n: Name| #[trigger]
                s2.matches.args.dom().contains(n) implies supplied(app, now, n) by {
                assert(m.args.dom().contains(n));
            }
        },
    }
}

/// A match under the constraints: no conflict stands in its way, the
/// resolver discards nothing, and the tally goes on.
proof fn lemma_matched(
    app: AppSpec,
    st: ParseSpec,
    tokens: Seq<Seq<char>>,
    all: Seq<Binding>,
    k: int,
    i: int,
    value: Option<Value>,
)
    requires
        app.wf(),
        reading(app, tokens) is Ok,
        all == reading(app, tokens)->Ok_0.1,
        within_constraints(app, all),
        0 <= k < tokens.len(),
        tallied(app, st, all.take(k), tokens.take(k), all),
        all[k] == Binding::Switch(i) && value is None || all[k] == Binding::Positional(i) && value
            == Some(tokens[k]),
    ensures
        0 <= i < app.args.len(),
        conflict(app, st.matches, app.args[i]) is None,
        ({
            let (m2, r2) = apply_match(app, st.matches, st.resolver, i, value);
            let now = all.take(k + 1);
            &&& m2 == st.matches.record(app.groups, app.args[i].name, value)
            &&& forall|n: Name| #[trigger] m2.occurrences(n) == supplied_count(app, now, n)
            &&& forall|n: Name| #[trigger]
                m2.values(n) == supplied_values(app, now, tokens.take(k + 1), n)
            &&& forall|n: Name| #[trigger] m2.args.dom().contains(n) ==> supplied(app, now, n)
            &&& supplied(app, now, app.args[i].name)
            &&& r2.trailing_values == st.resolver.trailing_values
            &&& forall|j: int|
                0 <= j < r2.overrides.len() ==> overridden_by_supplied(
                    app,
                    all,
                    #[trigger] r2.overrides[j],
                )
            &&& forall|j: int|
                0 <= j < r2.required.len() ==> demanded(app, all, #[trigger] r2.required[j])
        }),
{
    lemma_reading_prefix(app, tokens, k);
    let t = tokens[k];
    let seen = all.take(k);
    let now = all.take(k + 1);
    let m = st.matches;
    let r = st.resolver;
    let a = app.args[i];
    assert(now.drop_last() =~= seen);
    assert(now.last() == all[k]);
    assert(tokens.take(k + 1).drop_last() =~= tokens.take(k));
    assert(tokens.take(k + 1).last() == t);
    assert(0 <= i < app.args.len());
    assert(occurrence_of(app, now[k], a.name));
    assert(supplied(app, now, a.name));
    assert forall|n: Name| #[trigger] supplied(app, seen, n) implies supplied(app, now, n) by {
        assert(now.take(k) =~= seen);
        lemma_supplied_prefix(app, now, k, n);
    }
    assert forall|n: Name| #[trigger] supplied(app, now, n) implies supplied(app, all, n) by {
        lemma_supplied_prefix(app, all, k + 1, n);
    }
    assert(conflict_index(app, m, a) is None) by {
        if conflict_index(app, m, a) is Some {
            let c = conflict_index(app, m, a)->0;
            assert(first_conflicting(app, m, a, c));
            assert(m.occurrences(app.args[c].name) == supplied_count(app, seen, app.args[c].name));
            lemma_supplied_count(app, seen, app.args[c].name);
            assert(supplied(app, all, app.args[c].name));
            assert(supplied(app, all, app.args[i].name));
            assert(!in_conflict(app, app.args[i], app.args[c]));
        }
    }
    let m1 = m.record(app.groups, a.name, value);
    assert forall|n: Name| #[trigger] m1.args.dom().contains(n) implies supplied(app, now, n) by {
        if n != a.name {
            assert(m.args.dom().contains(n));
        }
    }
    if r.last != Some(a.name) {
        lemma_resolve_within(app, i, r, m1, now, all);
        lemma_resolve_frame(app, a, r, m1);
    }
    let (m2, r2) = apply_match(app, m, r, i, value);
    assert(m2 == m1);
    assert forall|n: Name| #[trigger] m2.occurrences(n) == supplied_count(app, now, n) by {
        assert(m.occurrences(n) == supplied_count(app, seen, n));
    }
    assert forall|n: Name| #[trigger]
        m2.values(n) == supplied_values(app, now, tokens.take(k + 1), n) by {
        assert(m.values(n) == supplied_values(app, seen, tokens.take(k), n));
    }
}

/// Round-trip completeness.
///
/// If every token can be read, no option is left without its value, and
/// what is supplied is within the constraints, then the parse succeeds, and
/// the ledger holds every argument with the number of its occurrences and
/// with its values in the order in which they were supplied.
pub proof fn lemma_round_trip(app: AppSpec, tokens: Seq<Seq<char>>)
    requires
        app.wf(),
        reading(app, tokens) is Ok,
        starved(reading(app, tokens)->Ok_0.0.pending) is None,
        within_constraints(app, reading(app, tokens)->Ok_0.1),
    ensures
        parse_spec(app, tokens) is Ok,
        forall|n: Name| #[trigger]
            parse_spec(app, tokens)->Ok_0.occurrences(n) == supplied_count(
                app,
                reading(app, tokens)->Ok_0.1,
                n,
            ),
        forall|n: Name| #[trigger]
            parse_spec(app, tokens)->Ok_0.values(n) == supplied_values(
                app,
                reading(app, tokens)->Ok_0.1,
                tokens,
                n,
            ),
{
    let all = reading(app, tokens)->Ok_0.1;
    lemma_round_trip_prefix(app, tokens, tokens.len() as int);
    lemma_reading_prefix(app, tokens, tokens.len() as int);
    assert(tokens.take(tokens.len() as int) =~= tokens);
    assert(all.take(tokens.len() as int) =~= all);
    let end = run(app, ParseSpec::initial(app), tokens)->Ok_0;
    let missing = absent_names(end.matches, end.resolver.required);
    assert(missing.len() == 0) by {
        if missing.len() > 0 {
            let n = missing[0];
            assert(missing.contains(n));
            lemma_filter_contains(end.resolver.required, not_present(end.matches), n);
            let j = choose|j: int|
                0 <= j < end.resolver.required.len() && end.resolver.required[j] == n;
            assert(demanded(app, all, end.resolver.required[j]));
            assert(supplied(app, all, n));
            lemma_supplied_count(app, all, n);
            assert(end.matches.occurrences(n) == supplied_count(app, all, n));
        }
    }
}

/// The tally after every prefix.
proof fn lemma_round_trip_prefix(app: AppSpec, tokens: Seq<Seq<char>>, k: int)
    requires
        app.wf(),
        reading(app, tokens) is Ok,
        within_constraints(app, reading(app, tokens)->Ok_0.1),
        0 <= k <= tokens.len(),
    ensures
        run(app, ParseSpec::initial(app), tokens.take(k)) is Ok,
        run(app, ParseSpec::initial(app), tokens.take(k))->Ok_0.shape() == reading(
            app,
            tokens.take(k),
        )->Ok_0.0,
        tallied(
            app,
            run(app, ParseSpec::initial(app), tokens.take(k))->Ok_0,
            reading(app, tokens)->Ok_0.1.take(k),
            tokens.take(k),
            reading(app, tokens)->Ok_0.1,
        ),
    decreases k,
{
    let all = reading(app, tokens)->Ok_0.1;
    let start = ParseSpec::initial(app);
    if k == 0 {
        assert(tokens.take(0) =~= Seq::<Seq<char>>::empty());
        assert(all.take(0) =~= Seq::<Binding>::empty());
        lemma_initially_demanded(app, all, app.args.len() as int);
        assert(app.args.take(app.args.len() as int) =~= app.args);
    } else {
        lemma_round_trip_prefix(app, tokens, k - 1);
        let st = run(app, start, tokens.take(k - 1))->Ok_0;
        lemma_round_trip_step(app, st, tokens, all, k - 1);
        assert(tokens.take(k).drop_last() =~= tokens.take(k - 1));
        assert(tokens.take(k).last() == tokens[k - 1]);
    }
}

/// What is pending at the start is asked for by the model.
proof fn lemma_initially_demanded(app: AppSpec, all: Seq<Binding>, k: int)
    requires
        0 <= k <= app.args.len(),
    ensures
        forall|j: int|
            0 <= j < initially_required(app.args.take(k)).len() ==> demanded(
                app,
                all,
                #[trigger] initially_required(app.args.take(k))[j],
            ),
    decreases k,
{
    if k > 0 {
        lemma_initially_demanded(app, all, k - 1);
        let now = app.args.take(k);
        assert(now.drop_last() =~= app.args.take(k - 1));
        assert(now.last() == app.args[k - 1]);
        let before = initially_required(app.args.take(k - 1));
        let after = initially_required(now);
        assert forall|j: int| 0 <= j < after.len() implies demanded(app, all, #[trigger] after[j]) by {
            if j < before.len() {
                assert(after[j] == before[j]);
            } else {
                assert(after[j] == app.args[k - 1].name);
                assert(app.args[k - 1].name == after[j] && app.args[k - 1].required);
            }
        }
    }
}

} // verus!
