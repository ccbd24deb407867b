//! What holds of every parse.
//!
//! The functions here have no run-time content. Each states a property of the
//! rules in the resolver and the parser as a theorem and proves it.

use vstd::prelude::*;
use crate::names::{Name, extend_unique, lemma_insert_unique, lemma_extend_unique_contains,
    lemma_extend_unique, lemma_without_contains, lemma_without_no_duplicates,
    lemma_filter_contains, lemma_filter_no_duplicates};
use crate::args::{AppSpec, ArgSpec, GroupSpec};
use crate::matcher::{MatchesSpec, Value};
use crate::resolver::{ResolverSpec, resolve, override_arrival, declare_overrides,
    conflict_bookkeeping, propagate_requires, discharge_groups, strip, strip_named,
    still_required, keeps_required, keeps_override, group_matched, absent_names, not_present,
    overrider_index, first_overrider, initially_required, lemma_resolve_frame};
use crate::parser::{ParseSpec, ErrorSpec, Binding, Shape, step, run, finish, parse_spec, bind,
    violation, enters_trailing, lemma_run_error};

verus! {

/// Whether every name in `s` is the name of a declared argument.
pub open spec fn all_declared(app: AppSpec, s: Seq<Name>) -> bool {
    forall|k: int| 0 <= k < s.len() ==> app.declares(#[trigger] s[k])
}

/// Whether the side tables are in order: each list holds a name once at
/// most, and only names of declared arguments.
pub open spec fn tables_in_order(app: AppSpec, st: ResolverSpec) -> bool {
    &&& st.required.no_duplicates()
    &&& st.overrides.no_duplicates()
    &&& all_declared(app, st.required)
    &&& all_declared(app, st.overrides)
}

/// A name that a list holds is found at some place of it.
proof fn lemma_contains_declared(app: AppSpec, s: Seq<Name>, n: Name)
    requires
        all_declared(app, s),
        s.contains(n),
    ensures
        app.declares(n),
{
    let k = choose|k: int| 0 <= k < s.len() && s[k] == n;
    assert(app.declares(s[k]));
}

/// Superseding an argument leaves in the lists only what was there.
pub proof fn lemma_strip_subset(app: AppSpec, m: MatchesSpec, st: ResolverSpec, x: ArgSpec, n: Name)
    ensures
        strip(app, m, st, x).required.contains(n) ==> st.required.contains(n),
        strip(app, m, st, x).overrides.contains(n) ==> st.overrides.contains(n),
        strip(app, m, st, x).required.contains(n) ==> (!x.requires.contains(n) || still_required(
            app,
            m,
            n,
        )),
{
    lemma_filter_contains(st.required, keeps_required(app, m, x), n);
    lemma_filter_contains(st.overrides, keeps_override(app, m, x), n);
}

/// Superseding arguments leaves in the lists only what was there.
pub proof fn lemma_strip_named_subset(
    app: AppSpec,
    m: MatchesSpec,
    st: ResolverSpec,
    names: Seq<Name>,
    n: Name,
)
    ensures
        strip_named(app, m, st, names).required.contains(n) ==> st.required.contains(n),
        strip_named(app, m, st, names).overrides.contains(n) ==> st.overrides.contains(n),
    decreases names.len(),
{
    if names.len() > 0 {
        let before = strip_named(app, m, st, names.drop_last());
        lemma_strip_named_subset(app, m, st, names.drop_last(), n);
        match app.arg_index(names.last()) {
            Some(i) => {
                lemma_strip_subset(app, m, before, app.args[i], n);
            },
            None => {},
        }
    }
}

/// Superseding arguments keeps the lists free of duplicates.
pub proof fn lemma_strip_named_distinct(
    app: AppSpec,
    m: MatchesSpec,
    st: ResolverSpec,
    names: Seq<Name>,
)
    requires
        st.required.no_duplicates(),
        st.overrides.no_duplicates(),
    ensures
        strip_named(app, m, st, names).required.no_duplicates(),
        strip_named(app, m, st, names).overrides.no_duplicates(),
    decreases names.len(),
{
    if names.len() > 0 {
        let before = strip_named(app, m, st, names.drop_last());
        lemma_strip_named_distinct(app, m, st, names.drop_last());
        match app.arg_index(names.last()) {
            Some(i) => {
                lemma_filter_no_duplicates(before.required, keeps_required(app, m, app.args[i]));
                lemma_filter_no_duplicates(before.overrides, keeps_override(app, m, app.args[i]));
            },
            None => {},
        }
    }
}

/// What the fifth step leaves pending was pending before or is required by
/// a group that has `a` as a member; and the list stays free of duplicates.
pub proof fn lemma_discharge_subset(
    groups: Seq<GroupSpec>,
    a: Name,
    m: MatchesSpec,
    required: Seq<Name>,
)
    requires
        required.no_duplicates(),
    ensures
        discharge_groups(groups, a, m, required).no_duplicates(),
        forall|n: Name| #[trigger]
            discharge_groups(groups, a, m, required).contains(n) ==> required.contains(n) || exists|
                g: int,
            |
                0 <= g < groups.len() && (#[trigger] groups[g]).args.contains(a)
                    && groups[g].requires.contains(n) && !m.present(n),
    decreases groups.len(),
{
    if groups.len() > 0 {
        let init = groups.drop_last();
        let g = groups.last();
        let before = discharge_groups(init, a, m, required);
        lemma_discharge_subset(init, a, m, required);
        if g.args.contains(a) {
            let asked = absent_names(m, g.requires);
            let grown = extend_unique(before, asked);
            lemma_extend_unique(before, asked);
            lemma_without_no_duplicates(grown, g.args);
            assert forall|n: Name| #[trigger]
                discharge_groups(groups, a, m, required).contains(n) implies required.contains(n)
                || exists|k: int|
                0 <= k < groups.len() && (#[trigger] groups[k]).args.contains(a)
                    && groups[k].requires.contains(n) && !m.present(n) by {
                lemma_without_contains(grown, g.args, n);
                assert(grown.contains(n));
                if asked.contains(n) {
                    lemma_filter_contains(g.requires, not_present(m), n);
                    assert(groups[groups.len() - 1] == g);
                } else {
                    assert(before.contains(n));
                    if !required.contains(n) {
                        let k = choose|k: int|
                            0 <= k < init.len() && (#[trigger] init[k]).args.contains(a)
                                && init[k].requires.contains(n) && !m.present(n);
                        assert(groups[k] == init[k]);
                    }
                }
            }
        } else {
            assert forall|n: Name| #[trigger]
                discharge_groups(groups, a, m, required).contains(n) implies required.contains(n)
                || exists|k: int|
                0 <= k < groups.len() && (#[trigger] groups[k]).args.contains(a)
                    && groups[k].requires.contains(n) && !m.present(n) by {
                if !required.contains(n) {
                    let k = choose|k: int|
                        0 <= k < init.len() && (#[trigger] init[k]).args.contains(a)
                            && init[k].requires.contains(n) && !m.present(n);
                    assert(groups[k] == init[k]);
                }
            }
        }
    }
}

/// The resolver never leaves the side tables out of order: with a
/// well-formed model, each list still holds a name once at most, and only
/// names of declared arguments.
pub proof fn lemma_resolve_keeps_order(app: AppSpec, idx: int, st: ResolverSpec, m: MatchesSpec)
    requires
        app.wf(),
        0 <= idx < app.args.len(),
        tables_in_order(app, st),
    ensures
        tables_in_order(app, resolve(app, app.args[idx], st, m).0),
{
    let a = app.args[idx];
    let (s1, m1) = override_arrival(app, a, st, m);
    assert(tables_in_order(app, s1)) by {
        if st.overrides.contains(a.name) && overrider_index(app, m, a.name) is Some {
            let i = overrider_index(app, m, a.name)->0;
            let mm = m.remove(app.args[i].name);
            lemma_filter_no_duplicates(st.required, keeps_required(app, mm, app.args[i]));
            lemma_filter_no_duplicates(st.overrides, keeps_override(app, mm, app.args[i]));
            assert forall|k: int| 0 <= k < s1.required.len() implies app.declares(
                #[trigger] s1.required[k],
            ) by {
                lemma_strip_subset(app, mm, st, app.args[i], s1.required[k]);
                lemma_contains_declared(app, st.required, s1.required[k]);
            }
            assert forall|k: int| 0 <= k < s1.overrides.len() implies app.declares(
                #[trigger] s1.overrides[k],
            ) by {
                lemma_strip_subset(app, mm, st, app.args[i], s1.overrides[k]);
                lemma_contains_declared(app, st.overrides, s1.overrides[k]);
            }
        }
    }
    let m2 = m1.remove_all(a.overrides_with);
    let t = strip_named(app, m2, s1, a.overrides_with);
    lemma_strip_named_distinct(app, m2, s1, a.overrides_with);
    let (s2, _) = declare_overrides(app, a, s1, m1);
    assert(tables_in_order(app, s2)) by {
        lemma_extend_unique(t.overrides, a.overrides_with);
        lemma_without_no_duplicates(t.required, a.overrides_with);
        assert forall|k: int| 0 <= k < s2.required.len() implies app.declares(
            #[trigger] s2.required[k],
        ) by {
            let n = s2.required[k];
            lemma_without_contains(t.required, a.overrides_with, n);
            lemma_strip_named_subset(app, m2, s1, a.overrides_with, n);
            lemma_contains_declared(app, s1.required, n);
        }
        assert forall|k: int| 0 <= k < s2.overrides.len() implies app.declares(
            #[trigger] s2.overrides[k],
        ) by {
            let n = s2.overrides[k];
            assert(s2.overrides.contains(n));
            if t.overrides.contains(n) {
                lemma_strip_named_subset(app, m2, s1, a.overrides_with, n);
                lemma_contains_declared(app, s1.overrides, n);
            } else {
                assert(a.overrides_with.contains(n));
            }
        }
    }
    let s3 = conflict_bookkeeping(a, s2);
    assert(tables_in_order(app, s3)) by {
        lemma_without_no_duplicates(s2.overrides, a.conflicts_with);
        assert forall|k: int| 0 <= k < s3.overrides.len() implies app.declares(
            #[trigger] s3.overrides[k],
        ) by {
            lemma_without_contains(s2.overrides, a.conflicts_with, s3.overrides[k]);
            lemma_contains_declared(app, s2.overrides, s3.overrides[k]);
        }
    }
    let s4 = propagate_requires(a, s3, m2);
    assert(tables_in_order(app, s4)) by {
        let asked = absent_names(m2, a.requires);
        lemma_extend_unique(s3.required, asked);
        assert forall|k: int| 0 <= k < s4.required.len() implies app.declares(
            #[trigger] s4.required[k],
        ) by {
            let n = s4.required[k];
            assert(s4.required.contains(n));
            if s3.required.contains(n) {
                lemma_contains_declared(app, s3.required, n);
            } else {
                lemma_filter_contains(a.requires, not_present(m2), n);
                assert(a.requires.contains(n));
            }
        }
    }
    let r5 = discharge_groups(app.groups, a.name, m2, s4.required);
    lemma_discharge_subset(app.groups, a.name, m2, s4.required);
    assert forall|k: int| 0 <= k < r5.len() implies app.declares(#[trigger] r5[k]) by {
        let n = r5[k];
        assert(r5.contains(n));
        if s4.required.contains(n) {
            lemma_contains_declared(app, s4.required, n);
        } else {
            let g = choose|g: int|
                0 <= g < app.groups.len() && (#[trigger] app.groups[g]).args.contains(a.name)
                    && app.groups[g].requires.contains(n) && !m2.present(n);
            assert(app.groups[g].requires.contains(n));
        }
    }
}

/// Before the first token the side tables are in order.
pub proof fn lemma_initial_in_order(app: AppSpec)
    ensures
        tables_in_order(app, ResolverSpec::initial(app)),
{
    lemma_initially_required(app.args, app.args.len() as int);
    assert(app.args.take(app.args.len() as int) =~= app.args);
    let r = initially_required(app.args);
    assert forall|k: int| 0 <= k < r.len() implies app.declares(#[trigger] r[k]) by {
        assert(r.contains(r[k]));
        let i = choose|i: int| 0 <= i < app.args.len() && app.args[i].name == r[k];
        assert(app.args[i].name == r[k]);
    }
}

/// The names that are pending at the start are the names of arguments that
/// are required outright, each once.
proof fn lemma_initially_required(args: Seq<ArgSpec>, k: int)
    requires
        0 <= k <= args.len(),
    ensures
        initially_required(args.take(k)).no_duplicates(),
        forall|n: Name| #[trigger]
            initially_required(args.take(k)).contains(n) ==> exists|i: int|
                0 <= i < k && args[i].name == n && args[i].required,
    decreases k,
{
    if k > 0 {
        lemma_initially_required(args, k - 1);
        let now = args.take(k);
        assert(now.drop_last() =~= args.take(k - 1));
        assert(now.last() == args[k - 1]);
        let before = initially_required(args.take(k - 1));
        if args[k - 1].required {
            lemma_insert_unique(before, args[k - 1].name);
        }
        assert forall|n: Name| #[trigger] initially_required(now).contains(n) implies exists|
            i: int,
        |
            0 <= i < k && args[i].name == n && args[i].required by {
            if before.contains(n) {
                let i = choose|i: int| 0 <= i < k - 1 && args[i].name == n && args[i].required;
                assert(0 <= i < k && args[i].name == n && args[i].required);
            } else {
                assert(args[k - 1].name == n && args[k - 1].required);
            }
        }
    }
}

/// Every binding that a token gets names a declared argument.
pub proof fn lemma_bind_in_range(app: AppSpec, sh: Shape, t: Seq<char>)
    ensures
        bind(app, sh, t) matches Ok(Binding::Switch(i)) ==> 0 <= i < app.args.len()
            && !app.args[i].is_positional(),
        bind(app, sh, t) matches Ok(Binding::Positional(i)) ==> 0 <= i < app.args.len()
            && app.args[i].is_positional(),
{
    match bind(app, sh, t) {
        Ok(Binding::Switch(i)) => {
            match crate::parser::classify(t) {
                crate::parser::TokenKind::Long(l) => {
                    assert(crate::args::first_long(app.args, l, i));
                },
                crate::parser::TokenKind::Short(c) => {
                    assert(crate::args::first_short(app.args, c, i));
                },
                _ => {},
            }
        },
        Ok(Binding::Positional(i)) => {
            if sh.trailing_values || enters_trailing(app, sh) {
                let place = app.positional_count() as int - 1 + 1;
                assert(crate::args::first_at_place(app.args, place, i));
            } else {
                let place = sh.cursor as int + 1;
                assert(crate::args::first_at_place(app.args, place, i));
            }
        },
        _ => {},
    }
}

/// One token leaves the side tables in order.
pub proof fn lemma_step_keeps_order(app: AppSpec, st: ParseSpec, t: Seq<char>)
    requires
        app.wf(),
        tables_in_order(app, st.resolver),
        step(app, st, t) is Ok,
    ensures
        tables_in_order(app, step(app, st, t)->Ok_0.resolver),
{
    lemma_bind_in_range(app, st.shape(), t);
    let b = bind(app, st.shape(), t)->Ok_0;
    match b {
        Binding::Switch(i) => {
            let m1 = st.matches.record(app.groups, app.args[i].name, None);
            lemma_resolve_keeps_order(app, i, st.resolver, m1);
        },
        Binding::Positional(i) => {
            let m1 = st.matches.record(app.groups, app.args[i].name, Some(t));
            lemma_resolve_keeps_order(app, i, st.resolver, m1);
        },
        _ => {},
    }
}

/// With a well-formed model, whatever the tokens, the side tables of a parse
/// that has not failed are in order: every name that is pending or
/// overridden is the name of a declared argument, and no list holds a name
/// twice.
pub proof fn lemma_tables_always_in_order(app: AppSpec, tokens: Seq<Seq<char>>)
    requires
        app.wf(),
        run(app, ParseSpec::initial(app), tokens) is Ok,
    ensures
        tables_in_order(app, run(app, ParseSpec::initial(app), tokens)->Ok_0.resolver),
    decreases tokens.len(),
{
    if tokens.len() == 0 {
        lemma_initial_in_order(app);
    } else {
        lemma_tables_always_in_order(app, tokens.drop_last());
        let s = run(app, ParseSpec::initial(app), tokens.drop_last())->Ok_0;
        lemma_step_keeps_order(app, s, tokens.last());
    }
}

/// When a parse succeeds, nothing is left pending: every name in the list of
/// required names has occurred.
pub proof fn lemma_success_leaves_nothing_pending(app: AppSpec, tokens: Seq<Seq<char>>)
    requires
        parse_spec(app, tokens) is Ok,
    ensures
        ({
            let end = run(app, ParseSpec::initial(app), tokens)->Ok_0;
            &&& run(app, ParseSpec::initial(app), tokens) is Ok
            &&& parse_spec(app, tokens) == Ok::<MatchesSpec, ErrorSpec>(end.matches)
            &&& forall|k: int|
                0 <= k < end.resolver.required.len() ==> end.matches.present(
                    #[trigger] end.resolver.required[k],
                )
        }),
{
    let end = run(app, ParseSpec::initial(app), tokens)->Ok_0;
    let missing = absent_names(end.matches, end.resolver.required);
    assert(missing.len() == 0);
    assert forall|k: int| 0 <= k < end.resolver.required.len() implies end.matches.present(
        #[trigger] end.resolver.required[k],
    ) by {
        let n = end.resolver.required[k];
        lemma_filter_contains(end.resolver.required, not_present(end.matches), n);
        assert(end.resolver.required.contains(n));
        if !end.matches.present(n) {
            assert(missing.contains(n));
            let j = choose|j: int| 0 <= j < missing.len() && missing[j] == n;
        }
    }
}

/// The first violation decides: if a prefix of the tokens fails, the whole
/// sequence fails in the same way, whatever follows and whatever else is
/// wrong with it. Identical input therefore gives the identical report.
pub proof fn lemma_first_violation_decides(app: AppSpec, tokens: Seq<Seq<char>>, k: int)
    requires
        0 <= k <= tokens.len(),
        run(app, ParseSpec::initial(app), tokens.take(k)) is Err,
    ensures
        parse_spec(app, tokens) == Err::<MatchesSpec, ErrorSpec>(
            run(app, ParseSpec::initial(app), tokens.take(k))->Err_0,
        ),
        parse_spec(app, tokens) == parse_spec(app, tokens.take(k)),
{
    lemma_run_error(app, ParseSpec::initial(app), tokens, k);
}

/// Override supersedence, first half: once the resolver has run for an
/// argument, nothing is left in the ledger of what that argument overrides.
pub proof fn lemma_override_discards(
    app: AppSpec,
    a: ArgSpec,
    st: ResolverSpec,
    m: MatchesSpec,
    b: Name,
)
    requires
        a.overrides_with.contains(b),
    ensures
        resolve(app, a, st, m).1.occurrences(b) == 0,
        resolve(app, a, st, m).1.values(b) == Seq::<Value>::empty(),
        !resolve(app, a, st, m).1.present(b),
{
    let (s1, m1) = override_arrival(app, a, st, m);
    assert(a.overrides_with.to_set().contains(b));
}

/// Override supersedence, second half: the argument for which the resolver
/// runs keeps its own entry in the ledger.
pub proof fn lemma_overrider_keeps_entry(app: AppSpec, idx: int, st: ResolverSpec, m: MatchesSpec)
    requires
        app.wf(),
        0 <= idx < app.args.len(),
    ensures
        resolve(app, app.args[idx], st, m).1.occurrences(app.args[idx].name) == m.occurrences(
            app.args[idx].name,
        ),
        resolve(app, app.args[idx], st, m).1.values(app.args[idx].name) == m.values(
            app.args[idx].name,
        ),
{
    let a = app.args[idx];
    let (s1, m1) = override_arrival(app, a, st, m);
    assert(m1.occurrences(a.name) == m.occurrences(a.name) && m1.values(a.name) == m.values(
        a.name,
    )) by {
        if st.overrides.contains(a.name) && overrider_index(app, m, a.name) is Some {
            let i = overrider_index(app, m, a.name)->0;
            assert(first_overrider(app.args, m, a.name, i));
            if app.args[i].name == a.name {
                assert(i == idx);
            }
        }
    }
    assert(!a.overrides_with.to_set().contains(a.name));
}

/// Superseding an argument that requires `c` takes `c` off the pending
/// names, unless something in the ledger still asks for it.
proof fn lemma_strip_named_releases(
    app: AppSpec,
    m: MatchesSpec,
    st: ResolverSpec,
    names: Seq<Name>,
    b: Name,
    c: Name,
)
    requires
        names.contains(b),
        app.arg_index(b) is Some,
        app.args[app.arg_index(b)->0].requires.contains(c),
        !still_required(app, m, c),
    ensures
        !strip_named(app, m, st, names).required.contains(c),
    decreases names.len(),
{
    let init = names.drop_last();
    let last = names.last();
    let before = strip_named(app, m, st, init);
    if last == b {
        let j = app.arg_index(b)->0;
        lemma_strip_subset(app, m, before, app.args[j], c);
    } else {
        let k = choose|k: int| 0 <= k < names.len() && names[k] == b;
        assert(init[k] == b);
        lemma_strip_named_releases(app, m, st, init, b, c);
        match app.arg_index(last) {
            Some(i) => {
                lemma_strip_subset(app, m, before, app.args[i], c);
            },
            None => {},
        }
    }
}

/// Override supersedence, what follows from it: when `a` has been matched
/// and overrides `b`, a name that `b` requires does not stay pending unless
/// something that the ledger still holds asks for it.
pub proof fn lemma_override_releases_requirement(
    app: AppSpec,
    idx: int,
    st: ResolverSpec,
    m: MatchesSpec,
    b: Name,
    c: Name,
)
    requires
        app.wf(),
        0 <= idx < app.args.len(),
        m.present(app.args[idx].name),
        app.args[idx].overrides_with.contains(b),
        app.arg_index(b) is Some,
        app.args[app.arg_index(b)->0].requires.contains(c),
        !still_required(app, resolve(app, app.args[idx], st, m).1, c),
    ensures
        !resolve(app, app.args[idx], st, m).0.required.contains(c),
{
    let a = app.args[idx];
    let (s1, m1) = override_arrival(app, a, st, m);
    let m2 = m1.remove_all(a.overrides_with);
    lemma_overrider_keeps_entry(app, idx, st, m);
    assert(m2.present(a.name));
    let t = strip_named(app, m2, s1, a.overrides_with);
    lemma_strip_named_releases(app, m2, s1, a.overrides_with, b, c);
    let (s2, _) = declare_overrides(app, a, s1, m1);
    lemma_without_contains(t.required, a.overrides_with, c);
    let s3 = conflict_bookkeeping(a, s2);
    let s4 = propagate_requires(a, s3, m2);
    assert(!s4.required.contains(c)) by {
        lemma_extend_unique_contains(s3.required, absent_names(m2, a.requires), c);
        lemma_filter_contains(a.requires, not_present(m2), c);
        if a.requires.contains(c) {
            assert(m2.present(app.args[idx].name) && app.args[idx].requires.contains(c));
        }
    }
    if discharge_groups(app.groups, a.name, m2, s4.required).contains(c) {
        lemma_discharge_origin(app.groups, a.name, m2, s4.required, c);
        let g = choose|g: int|
            0 <= g < app.groups.len() && (#[trigger] app.groups[g]).args.contains(a.name)
                && app.groups[g].requires.contains(c);
        let k = choose|k: int| 0 <= k < app.groups[g].args.len() && app.groups[g].args[k] == a.name;
        assert(m2.present(app.groups[g].args[k]));
        assert(group_matched(m2, app.groups[g]));
    }
}

/// What the fifth step leaves pending was pending before, or a group that
/// has `a` as a member requires it.
pub proof fn lemma_discharge_origin(
    groups: Seq<GroupSpec>,
    a: Name,
    m: MatchesSpec,
    required: Seq<Name>,
    n: Name,
)
    requires
        discharge_groups(groups, a, m, required).contains(n),
    ensures
        required.contains(n) || exists|g: int|
            0 <= g < groups.len() && (#[trigger] groups[g]).args.contains(a)
                && groups[g].requires.contains(n),
    decreases groups.len(),
{
    if groups.len() > 0 {
        let init = groups.drop_last();
        let g = groups.last();
        let before = discharge_groups(init, a, m, required);
        if g.args.contains(a) {
            let asked = absent_names(m, g.requires);
            lemma_without_contains(extend_unique(before, asked), g.args, n);
            lemma_extend_unique_contains(before, asked, n);
            if asked.contains(n) {
                lemma_filter_contains(g.requires, not_present(m), n);
                assert(groups[groups.len() - 1] == g);
            } else {
                lemma_discharge_origin(init, a, m, required, n);
                if !required.contains(n) {
                    let k = choose|k: int|
                        0 <= k < init.len() && (#[trigger] init[k]).args.contains(a)
                            && init[k].requires.contains(n);
                    assert(groups[k] == init[k]);
                }
            }
        } else {
            lemma_discharge_origin(init, a, m, required, n);
            if !required.contains(n) {
                let k = choose|k: int|
                    0 <= k < init.len() && (#[trigger] init[k]).args.contains(a)
                        && init[k].requires.contains(n);
                assert(groups[k] == init[k]);
            }
        }
    }
}

/// Group discharge, on the fifth step: a member of a group that has `a` as a
/// member is pending afterwards only if a group declared later, which has
/// `a` as a member too, requires it.
pub proof fn lemma_discharge_groups_members(
    groups: Seq<GroupSpec>,
    a: Name,
    m: MatchesSpec,
    required: Seq<Name>,
    g: int,
    n: Name,
)
    requires
        0 <= g < groups.len(),
        groups[g].args.contains(a),
        groups[g].args.contains(n),
        discharge_groups(groups, a, m, required).contains(n),
    ensures
        exists|later: int|
            g < later < groups.len() && (#[trigger] groups[later]).args.contains(a)
                && groups[later].requires.contains(n),
    decreases groups.len(),
{
    let init = groups.drop_last();
    let last = groups.last();
    let before = discharge_groups(init, a, m, required);
    if g == groups.len() - 1 {
        let asked = absent_names(m, last.requires);
        lemma_without_contains(extend_unique(before, asked), last.args, n);
    } else {
        assert(init[g] == groups[g]);
        if last.args.contains(a) {
            let asked = absent_names(m, last.requires);
            lemma_without_contains(extend_unique(before, asked), last.args, n);
            lemma_extend_unique_contains(before, asked, n);
            if asked.contains(n) {
                lemma_filter_contains(last.requires, not_present(m), n);
                assert(groups[groups.len() - 1] == last);
            } else {
                lemma_discharge_groups_members(init, a, m, required, g, n);
                let later = choose|later: int|
                    g < later < init.len() && (#[trigger] init[later]).args.contains(a)
                        && init[later].requires.contains(n);
                assert(groups[later] == init[later]);
            }
        } else {
            lemma_discharge_groups_members(init, a, m, required, g, n);
            let later = choose|later: int|
                g < later < init.len() && (#[trigger] init[later]).args.contains(a)
                    && init[later].requires.contains(n);
            assert(groups[later] == init[later]);
        }
    }
}

/// Group discharge: once the resolver has run for a member of a group, no
/// other member of that group is pending because it is a member. One is
/// pending only if a group declared later, of which the matched argument is a
/// member too, requires it.
pub proof fn lemma_group_discharge(
    app: AppSpec,
    a: ArgSpec,
    st: ResolverSpec,
    m: MatchesSpec,
    g: int,
    n: Name,
)
    requires
        0 <= g < app.groups.len(),
        app.groups[g].args.contains(a.name),
        app.groups[g].args.contains(n),
        resolve(app, a, st, m).0.required.contains(n),
    ensures
        exists|later: int|
            g < later < app.groups.len() && (#[trigger] app.groups[later]).args.contains(a.name)
                && app.groups[later].requires.contains(n),
{
    let (s1, m1) = override_arrival(app, a, st, m);
    let (s2, m2) = declare_overrides(app, a, s1, m1);
    let s4 = propagate_requires(a, conflict_bookkeeping(a, s2), m2);
    lemma_discharge_groups_members(app.groups, a.name, m2, s4.required, g, n);
}

/// Trailing values: once they are active, or due, a token is bound to the
/// last positional argument whatever it looks like; it is appended to that
/// argument's values as it stands, and trailing values stay active.
pub proof fn lemma_trailing_values_capture(app: AppSpec, st: ParseSpec, t: Seq<char>)
    requires
        app.wf(),
        st.matches.subcommand is None,
        st.resolver.trailing_values || enters_trailing(app, st.shape()),
        step(app, st, t) is Ok,
    ensures
        ({
            let after = step(app, st, t)->Ok_0;
            let last = app.args[app.trailing_index()->0].name;
            &&& app.trailing_index() is Some
            &&& bind(app, st.shape(), t) == Ok::<Binding, ErrorSpec>(
                Binding::Positional(app.trailing_index()->0),
            )
            &&& after.resolver.trailing_values
            &&& after.cursor == st.cursor
            &&& after.matches.values(last) == st.matches.values(last).push(t)
            &&& after.matches.occurrences(last) == st.matches.occurrences(last) + 1
        }),
{
    lemma_bind_in_range(app, st.shape(), t);
    let i = app.trailing_index()->0;
    let a = app.args[i];
    let m1 = st.matches.record(app.groups, a.name, Some(t));
    lemma_overrider_keeps_entry(app, i, st.resolver, m1);
    lemma_resolve_frame(app, a, st.resolver, m1);
}

/// The fifth step keeps a pending name that is a member of no group of
/// which `a` is a member.
pub proof fn lemma_discharge_keeps(
    groups: Seq<GroupSpec>,
    a: Name,
    m: MatchesSpec,
    required: Seq<Name>,
    n: Name,
)
    requires
        required.contains(n),
        forall|g: int|
            0 <= g < groups.len() && (#[trigger] groups[g]).args.contains(a)
                ==> !groups[g].args.contains(n),
    ensures
        discharge_groups(groups, a, m, required).contains(n),
    decreases groups.len(),
{
    if groups.len() > 0 {
        let init = groups.drop_last();
        let last = groups.last();
        assert forall|g: int| 0 <= g < init.len() && (#[trigger] init[g]).args.contains(
            a,
        ) implies !init[g].args.contains(n) by {
            assert(groups[g] == init[g]);
        }
        lemma_discharge_keeps(init, a, m, required, n);
        let before = discharge_groups(init, a, m, required);
        if last.args.contains(a) {
            assert(groups[groups.len() - 1] == last);
            let asked = absent_names(m, last.requires);
            lemma_extend_unique_contains(before, asked, n);
            lemma_without_contains(extend_unique(before, asked), last.args, n);
        }
    }
}

/// Requirement propagation: once the resolver has run for an argument, a
/// name that the argument requires and that has not occurred is pending,
/// unless it is a member of a group of which the argument is a member too.
pub proof fn lemma_requirement_becomes_pending(
    app: AppSpec,
    a: ArgSpec,
    st: ResolverSpec,
    m: MatchesSpec,
    r: Name,
)
    requires
        a.requires.contains(r),
        !resolve(app, a, st, m).1.present(r),
        forall|g: int|
            0 <= g < app.groups.len() && (#[trigger] app.groups[g]).args.contains(a.name)
                ==> !app.groups[g].args.contains(r),
    ensures
        resolve(app, a, st, m).0.required.contains(r),
{
    let (s1, m1) = override_arrival(app, a, st, m);
    let (s2, m2) = declare_overrides(app, a, s1, m1);
    let s3 = conflict_bookkeeping(a, s2);
    let s4 = propagate_requires(a, s3, m2);
    lemma_filter_contains(a.requires, not_present(m2), r);
    lemma_extend_unique_contains(s3.required, absent_names(m2, a.requires), r);
    lemma_discharge_keeps(app.groups, a.name, m2, s4.required, r);
}

/// Requirement validation: at the end of the tokens, the names that are
/// pending and have not occurred are reported, all of them and in the order
/// in which they became pending; and a parse that leaves such a name does
/// not succeed.
pub proof fn lemma_missing_is_reported(st: ParseSpec, n: Name)
    requires
        st.resolver.required.contains(n),
        !st.matches.present(n),
    ensures
        finish(st) is Err,
        crate::parser::starved(st.pending) is None ==> finish(st) == Err::<MatchesSpec, ErrorSpec>(
            ErrorSpec::MissingRequiredArgument(absent_names(st.matches, st.resolver.required)),
        ) && absent_names(st.matches, st.resolver.required).contains(n),
{
    lemma_filter_contains(st.resolver.required, not_present(st.matches), n);
    let missing = absent_names(st.matches, st.resolver.required);
    assert(missing.contains(n));
    let j = choose|j: int| 0 <= j < missing.len() && missing[j] == n;
}

/// Whether nothing that is declared must not occur together with the
/// argument at `idx`.
pub open spec fn free_of_conflicts(app: AppSpec, idx: int) -> bool {
    forall|j: int|
        0 <= j < app.args.len() ==> !crate::parser::in_conflict(
            app,
            app.args[idx],
            #[trigger] app.args[j],
        )
}

/// Trailing values, over any number of tokens: once they are active, or
/// due, every token that follows, whatever it looks like, becomes a value
/// and an occurrence of the last positional argument, in order, provided
/// that nothing conflicts with that argument.
pub proof fn lemma_trailing_values_run(app: AppSpec, st: ParseSpec, tokens: Seq<Seq<char>>)
    requires
        app.wf(),
        st.matches.subcommand is None,
        app.trailing_index() is Some,
        st.resolver.trailing_values || enters_trailing(app, st.shape()),
        free_of_conflicts(app, app.trailing_index()->0),
    ensures
        ({
            let last = app.args[app.trailing_index()->0].name;
            let end = run(app, st, tokens)->Ok_0;
            &&& run(app, st, tokens) is Ok
            &&& end.matches.subcommand is None
            &&& tokens.len() > 0 ==> end.resolver.trailing_values
            &&& end.cursor == st.cursor
            &&& end.matches.values(last) == st.matches.values(last) + tokens
            &&& end.matches.occurrences(last) == st.matches.occurrences(last) + tokens.len()
        }),
    decreases tokens.len(),
{
    let i = app.trailing_index()->0;
    let last = app.args[i].name;
    if tokens.len() == 0 {
        assert(st.matches.values(last) + tokens =~= st.matches.values(last));
    } else {
        let init = tokens.drop_last();
        let t = tokens.last();
        lemma_trailing_values_run(app, st, init);
        let mid = run(app, st, init)->Ok_0;
        assert(mid.resolver.trailing_values || enters_trailing(app, mid.shape())) by {
            if init.len() == 0 {
                assert(mid == st);
            }
        }
        lemma_bind_in_range(app, mid.shape(), t);
        assert(crate::parser::conflict_index(app, mid.matches, app.args[i]) is None) by {
            if crate::parser::conflict_index(app, mid.matches, app.args[i]) is Some {
                let c = crate::parser::conflict_index(app, mid.matches, app.args[i])->0;
                assert(crate::parser::first_conflicting(app, mid.matches, app.args[i], c));
                assert(!crate::parser::in_conflict(app, app.args[i], app.args[c]));
            }
        }
        assert(step(app, mid, t) is Ok);
        lemma_trailing_values_capture(app, mid, t);
        let m1 = mid.matches.record(app.groups, last, Some(t));
        lemma_resolve_frame(app, app.args[i], mid.resolver, m1);
        assert(st.matches.values(last) + init + seq![t] =~= st.matches.values(last) + tokens) by {
            assert(init + seq![t] =~= tokens);
        }
        assert(st.matches.values(last) + init + seq![t] =~= (st.matches.values(last)
            + init).push(t));
    }
}

} // verus!
