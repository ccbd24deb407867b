//! The constraint resolver: what a fresh match does to the side tables.
//!
//! After an argument has been matched and recorded, the resolver brings two
//! lists up to date: the names that are still required, in the order in which
//! they were first asked for, and the names that are currently overridden. It
//! never fails. Violations are found by whoever reads the lists afterwards.

use vstd::prelude::*;
use crate::names::{Name, names_of, opt_name, str_eq, contains_name, push_unique, push_all_unique,
    remove_names, insert_unique, extend_unique, without, lemma_names_push, lemma_filter_step,
    lemma_filter_ends};
use crate::args::{App, AppSpec, ArgSpec, GroupSpec, found_at};
use crate::matcher::{ArgMatcher, MatchesSpec};

verus! {

/// The mathematical value of a [`ResolverState`].
#[verifier::ext_equal]
pub struct ResolverSpec {
    /// The names still pending, in the order of first insertion.
    pub required: Seq<Name>,
    /// The names that a matched argument has overridden.
    pub overrides: Seq<Name>,
    /// The argument that was processed last.
    pub last: Option<Name>,
    /// Whether every further token is a value of the last positional argument.
    pub trailing_values: bool,
    /// Whether any argument has been matched.
    pub valid_arg_found: bool,
}

/// The side tables of one parse.
#[derive(Clone, Debug)]
pub struct ResolverState {
    pub required: Vec<String>,
    pub overrides: Vec<String>,
    pub cache: Option<String>,
    pub trailing_values: bool,
    pub valid_arg_found: bool,
}

impl View for ResolverState {
    type V = ResolverSpec;

    open spec fn view(&self) -> ResolverSpec {
        ResolverSpec {
            required: names_of(self.required@),
            overrides: names_of(self.overrides@),
            last: opt_name(self.cache),
            trailing_values: self.trailing_values,
            valid_arg_found: self.valid_arg_found,
        }
    }
}

/// The names of the arguments that are required outright, in the order of
/// declaration.
pub open spec fn initially_required(args: Seq<ArgSpec>) -> Seq<Name>
    decreases args.len(),
{
    if args.len() == 0 {
        Seq::empty()
    } else if args.last().required {
        insert_unique(initially_required(args.drop_last()), args.last().name)
    } else {
        initially_required(args.drop_last())
    }
}

/// Whether a member of `g` occurred.
pub open spec fn group_matched(m: MatchesSpec, g: GroupSpec) -> bool {
    exists|k: int| 0 <= k < g.args.len() && m.present(#[trigger] g.args[k])
}

/// Whether `n` is still asked for by what the ledger holds: by an argument
/// that occurred and requires it, by a group that requires it and has a
/// member that occurred, or by its own declaration.
pub open spec fn still_required(app: AppSpec, m: MatchesSpec, n: Name) -> bool {
    ||| exists|i: int|
        0 <= i < app.args.len() && m.present((#[trigger] app.args[i]).name)
            && app.args[i].requires.contains(n)
    ||| exists|g: int|
        0 <= g < app.groups.len() && group_matched(m, #[trigger] app.groups[g])
            && app.groups[g].requires.contains(n)
    ||| exists|i: int|
        0 <= i < app.args.len() && (#[trigger] app.args[i]).name == n && app.args[i].required
}

/// Whether `n` is still overridden by an argument that occurred.
pub open spec fn still_overridden(app: AppSpec, m: MatchesSpec, n: Name) -> bool {
    exists|i: int|
        0 <= i < app.args.len() && m.present((#[trigger] app.args[i]).name)
            && app.args[i].overrides_with.contains(n)
}

/// The pending names that stay when `x` is superseded: those that `x` did not
/// ask for, and those that something else still asks for.
pub open spec fn keeps_required(app: AppSpec, m: MatchesSpec, x: ArgSpec) -> spec_fn(Name) -> bool {
    |n: Name| !x.requires.contains(n) || still_required(app, m, n)
}

/// The overridden names that stay when `x` is superseded: those that `x` did
/// not override, and those that something else still overrides.
pub open spec fn keeps_override(app: AppSpec, m: MatchesSpec, x: ArgSpec) -> spec_fn(Name) -> bool {
    |n: Name| !x.overrides_with.contains(n) || still_overridden(app, m, n)
}

/// The side tables once `x` has been superseded: every entry that was there
/// only because of the lists of `x` is gone. `m` is the ledger after `x` has
/// left it.
pub open spec fn strip(app: AppSpec, m: MatchesSpec, st: ResolverSpec, x: ArgSpec) -> ResolverSpec {
    ResolverSpec {
        required: st.required.filter(keeps_required(app, m, x)),
        overrides: st.overrides.filter(keeps_override(app, m, x)),
        ..st
    }
}

/// `i` is the first place in `args` of an argument that occurred and
/// overrides `n`.
pub open spec fn first_overrider(args: Seq<ArgSpec>, m: MatchesSpec, n: Name, i: int) -> bool {
    &&& 0 <= i < args.len()
    &&& m.present(args[i].name) && args[i].overrides_with.contains(n)
    &&& forall|j: int|
        0 <= j < i ==> !(m.present((#[trigger] args[j]).name) && args[j].overrides_with.contains(n))
}

/// Where the argument is declared that conferred the overridden status on
/// `n`: the first one, in the order of declaration, that occurred and
/// overrides `n`.
pub open spec fn overrider_index(app: AppSpec, m: MatchesSpec, n: Name) -> Option<int> {
    if exists|i: int| first_overrider(app.args, m, n, i) {
        Some(choose|i: int| first_overrider(app.args, m, n, i))
    } else {
        None
    }
}

/// First step. If `a` is overridden, the argument that overrode it leaves the
/// ledger, and the entries that were there only because of it leave the side
/// tables.
pub open spec fn override_arrival(app: AppSpec, a: ArgSpec, st: ResolverSpec, m: MatchesSpec) -> (
    ResolverSpec,
    MatchesSpec,
) {
    if st.overrides.contains(a.name) {
        match overrider_index(app, m, a.name) {
            Some(i) => {
                let m1 = m.remove(app.args[i].name);
                (strip(app, m1, st, app.args[i]), m1)
            },
            None => (st, m),
        }
    } else {
        (st, m)
    }
}

/// The side tables once each declared argument among `names` has been
/// superseded, in the order of `names`.
pub open spec fn strip_named(app: AppSpec, m: MatchesSpec, st: ResolverSpec, names: Seq<Name>)
    -> ResolverSpec
    decreases names.len(),
{
    if names.len() == 0 {
        st
    } else {
        let before = strip_named(app, m, st, names.drop_last());
        match app.arg_index(names.last()) {
            Some(i) => strip(app, m, before, app.args[i]),
            None => before,
        }
    }
}

/// Second step. Every argument that `a` overrides leaves the ledger, the
/// entries that were there only because of it leave the side tables, it
/// becomes overridden, and it is no longer pending.
pub open spec fn declare_overrides(app: AppSpec, a: ArgSpec, st: ResolverSpec, m: MatchesSpec) -> (
    ResolverSpec,
    MatchesSpec,
) {
    let m1 = m.remove_all(a.overrides_with);
    let s1 = strip_named(app, m1, st, a.overrides_with);
    (
        ResolverSpec {
            overrides: extend_unique(s1.overrides, a.overrides_with),
            required: without(s1.required, a.overrides_with),
            ..s1
        },
        m1,
    )
}

/// Third step. An argument that conflicts with `a` does not stay overridden.
pub open spec fn conflict_bookkeeping(a: ArgSpec, st: ResolverSpec) -> ResolverSpec {
    ResolverSpec { overrides: without(st.overrides, a.conflicts_with), ..st }
}

/// The predicate "did not occur".
pub open spec fn not_present(m: MatchesSpec) -> spec_fn(Name) -> bool {
    |n: Name| !m.present(n)
}

/// Those of `names` that did not occur, in order.
pub open spec fn absent_names(m: MatchesSpec, names: Seq<Name>) -> Seq<Name> {
    names.filter(not_present(m))
}

/// Fourth step. What `a` requires and has not occurred becomes pending.
pub open spec fn propagate_requires(a: ArgSpec, st: ResolverSpec, m: MatchesSpec) -> ResolverSpec {
    ResolverSpec { required: extend_unique(st.required, absent_names(m, a.requires)), ..st }
}

/// Fifth step, on the pending names alone. For every group that has `a` as a
/// member, in the order of declaration: what the group requires and has not
/// occurred becomes pending, then the group's members stop being pending.
pub open spec fn discharge_groups(
    groups: Seq<GroupSpec>,
    a: Name,
    m: MatchesSpec,
    required: Seq<Name>,
) -> Seq<Name>
    decreases groups.len(),
{
    if groups.len() == 0 {
        required
    } else {
        let before = discharge_groups(groups.drop_last(), a, m, required);
        let g = groups.last();
        if g.args.contains(a) {
            without(extend_unique(before, absent_names(m, g.requires)), g.args)
        } else {
            before
        }
    }
}

/// What a fresh match of `a` does to the side tables and to the ledger: the
/// five steps, in order.
pub open spec fn resolve(app: AppSpec, a: ArgSpec, st: ResolverSpec, m: MatchesSpec) -> (
    ResolverSpec,
    MatchesSpec,
) {
    let (s1, m1) = override_arrival(app, a, st, m);
    let (s2, m2) = declare_overrides(app, a, s1, m1);
    let s3 = conflict_bookkeeping(a, s2);
    let s4 = propagate_requires(a, s3, m2);
    (ResolverSpec { required: discharge_groups(app.groups, a.name, m2, s4.required), ..s4 }, m2)
}

/// Superseding arguments touches the two lists only.
pub proof fn lemma_strip_named_frame(app: AppSpec, m: MatchesSpec, st: ResolverSpec, names: Seq<Name>)
    ensures
        strip_named(app, m, st, names).last == st.last,
        strip_named(app, m, st, names).trailing_values == st.trailing_values,
        strip_named(app, m, st, names).valid_arg_found == st.valid_arg_found,
    decreases names.len(),
{
    if names.len() > 0 {
        lemma_strip_named_frame(app, m, st, names.drop_last());
    }
}

/// The resolver touches the two lists only.
pub proof fn lemma_resolve_frame(app: AppSpec, a: ArgSpec, st: ResolverSpec, m: MatchesSpec)
    ensures
        resolve(app, a, st, m).0.last == st.last,
        resolve(app, a, st, m).0.trailing_values == st.trailing_values,
        resolve(app, a, st, m).0.valid_arg_found == st.valid_arg_found,
        resolve(app, a, st, m).1.groups == m.groups,
        resolve(app, a, st, m).1.subcommand == m.subcommand,
        resolve(app, a, st, m).1.subcommand_args == m.subcommand_args,
{
    let (s1, m1) = override_arrival(app, a, st, m);
    lemma_strip_named_frame(app, m1.remove_all(a.overrides_with), s1, a.overrides_with);
}

impl ResolverSpec {
    /// The side tables before the first token.
    pub open spec fn initial(app: AppSpec) -> ResolverSpec {
        ResolverSpec {
            required: initially_required(app.args),
            overrides: Seq::empty(),
            last: None,
            trailing_values: false,
            valid_arg_found: false,
        }
    }
}

/// Tells whether a member of the group at `g` occurred.
pub fn group_matched_in(app: &App, matcher: &ArgMatcher, g: usize) -> (b: bool)
    requires
        matcher.wf(),
        g < app.groups.len(),
    ensures
        b == group_matched(matcher@, app@.groups[g as int]),
{
    let members = &app.groups[g].args;
    let mut k: usize = 0;
    while k < members.len()
        invariant
            k <= members.len(),
            matcher.wf(),
            g < app.groups.len(),
            members == &app.groups[g as int].args,
            forall|j: int| 0 <= j < k ==> !matcher@.present(#[trigger] names_of(members@)[j]),
        decreases members.len() - k,
    {
        if matcher.is_present(members[k].as_str()) {
            assert(app@.groups[g as int] == app.groups@[g as int]@);
            assert(app@.groups[g as int].args == names_of(members@));
            assert(matcher@.present(app@.groups[g as int].args[k as int]));
            return true;
        }
        k += 1;
    }
    assert(app@.groups[g as int] == app.groups@[g as int]@);
    assert(app@.groups[g as int].args == names_of(members@));
    false
}

/// Tells whether `name` is still asked for by what the ledger holds.
pub fn is_still_required(app: &App, matcher: &ArgMatcher, name: &str) -> (b: bool)
    requires
        matcher.wf(),
    ensures
        b == still_required(app@, matcher@, name@),
{
    let mut i: usize = 0;
    while i < app.args.len()
        invariant
            i <= app.args.len(),
            matcher.wf(),
            forall|j: int|
                0 <= j < i ==> !(matcher@.present((#[trigger] app@.args[j]).name)
                    && app@.args[j].requires.contains(name@)),
            forall|j: int|
                0 <= j < i ==> !((#[trigger] app@.args[j]).name == name@ && app@.args[j].required),
        decreases app.args.len() - i,
    {
        let a = &app.args[i];
        assert(app@.args[i as int] == a@);
        if matcher.is_present(a.name.as_str()) && contains_name(&a.requires, name) {
            return true;
        }
        if a.required && str_eq(a.name.as_str(), name) {
            return true;
        }
        i += 1;
    }
    let mut g: usize = 0;
    while g < app.groups.len()
        invariant
            g <= app.groups.len(),
            matcher.wf(),
            forall|j: int|
                0 <= j < g ==> !(group_matched(matcher@, #[trigger] app@.groups[j])
                    && app@.groups[j].requires.contains(name@)),
        decreases app.groups.len() - g,
    {
        assert(app@.groups[g as int] == app.groups@[g as int]@);
        if contains_name(&app.groups[g].requires, name) && group_matched_in(app, matcher, g) {
            return true;
        }
        g += 1;
    }
    false
}

/// Tells whether `name` is still overridden by an argument that occurred.
pub fn is_still_overridden(app: &App, matcher: &ArgMatcher, name: &str) -> (b: bool)
    requires
        matcher.wf(),
    ensures
        b == still_overridden(app@, matcher@, name@),
{
    let mut i: usize = 0;
    while i < app.args.len()
        invariant
            i <= app.args.len(),
            matcher.wf(),
            forall|j: int|
                0 <= j < i ==> !(matcher@.present((#[trigger] app@.args[j]).name)
                    && app@.args[j].overrides_with.contains(name@)),
        decreases app.args.len() - i,
    {
        let a = &app.args[i];
        assert(app@.args[i as int] == a@);
        if matcher.is_present(a.name.as_str()) && contains_name(&a.overrides_with, name) {
            return true;
        }
        i += 1;
    }
    false
}

/// Looks up the argument that conferred the overridden status on `name`.
pub fn find_override(app: &App, matcher: &ArgMatcher, name: &str) -> (r: Option<usize>)
    requires
        matcher.wf(),
    ensures
        found_at(r) == overrider_index(app@, matcher@, name@),
        r matches Some(i) ==> i < app.args.len(),
{
    let mut i: usize = 0;
    while i < app.args.len()
        invariant
            i <= app.args.len(),
            matcher.wf(),
            forall|j: int|
                0 <= j < i ==> !(matcher@.present((#[trigger] app@.args[j]).name)
                    && app@.args[j].overrides_with.contains(name@)),
        decreases app.args.len() - i,
    {
        let a = &app.args[i];
        assert(app@.args[i as int] == a@);
        if matcher.is_present(a.name.as_str()) && contains_name(&a.overrides_with, name) {
            proof {
                assert(first_overrider(app@.args, matcher@, name@, i as int));
                let k = choose|k: int| first_overrider(app@.args, matcher@, name@, k);
                assert(k == i) by {
                    if k < i {
                        assert(!(matcher@.present(app@.args[k].name)
                            && app@.args[k].overrides_with.contains(name@)));
                    } else if i < k {
                        assert(!(matcher@.present(app@.args[i as int].name)
                            && app@.args[i as int].overrides_with.contains(name@)));
                    }
                }
            }
            return Some(i);
        }
        i += 1;
    }
    proof {
        assert forall|k: int| !first_overrider(app@.args, matcher@, name@, k) by {
            if 0 <= k < app.args.len() {
                assert(!(matcher@.present(app@.args[k].name)
                    && app@.args[k].overrides_with.contains(name@)));
            }
        }
    }
    None
}

impl ResolverState {
    /// The side tables before the first token: pending are the arguments that
    /// are required outright.
    pub fn new(app: &App) -> (st: ResolverState)
        ensures
            st@ == ResolverSpec::initial(app@),
    {
        let mut required: Vec<String> = Vec::new();
        let mut i: usize = 0;
        proof {
            assert(app@.args.take(0) =~= Seq::<ArgSpec>::empty());
            assert(names_of(required@) =~= Seq::<Name>::empty());
        }
        while i < app.args.len()
            invariant
                i <= app.args.len(),
                names_of(required@) == initially_required(app@.args.take(i as int)),
            decreases app.args.len() - i,
        {
            proof {
                let next = app@.args.take(i + 1);
                assert(next.drop_last() =~= app@.args.take(i as int));
                assert(next.last() == app.args@[i as int]@);
            }
            if app.args[i].required {
                push_unique(&mut required, app.args[i].name.as_str());
            }
            i += 1;
        }
        proof {
            assert(app@.args.take(app.args.len() as int) =~= app@.args);
        }
        let overrides: Vec<String> = Vec::new();
        proof {
            assert(names_of(overrides@) =~= Seq::<Name>::empty());
        }
        ResolverState {
            required,
            overrides,
            cache: None,
            trailing_values: false,
            valid_arg_found: false,
        }
    }

    /// Drops from the side tables what was there only because of the
    /// argument at `idx`, which has just been superseded and has left the
    /// ledger.
    pub fn remove_overriden(&mut self, app: &App, matcher: &ArgMatcher, idx: usize)
        requires
            matcher.wf(),
            idx < app.args.len(),
        ensures
            final(self)@ == strip(app@, matcher@, old(self)@, app@.args[idx as int]),
    {
        let gone = &app.args[idx];
        let ghost x = app@.args[idx as int];
        assert(x == gone@);
        let ghost pr = keeps_required(app@, matcher@, x);
        let ghost po = keeps_override(app@, matcher@, x);
        let ghost req0 = names_of(self.required@);
        let ghost ovr0 = names_of(self.overrides@);

        let mut required: Vec<String> = Vec::new();
        let mut i: usize = 0;
        proof {
            lemma_filter_ends(req0, pr);
            assert(names_of(required@) =~= Seq::<Name>::empty());
        }
        while i < self.required.len()
            invariant
                i <= self.required.len(),
                matcher.wf(),
                idx < app.args.len(),
                gone == &app.args[idx as int],
                x == gone@,
                pr == keeps_required(app@, matcher@, x),
                req0 == names_of(self.required@),
                names_of(required@) == req0.take(i as int).filter(pr),
            decreases self.required.len() - i,
        {
            let n = &self.required[i];
            proof {
                lemma_filter_step(req0, pr, i as int);
                assert(req0[i as int] == n@);
            }
            if !contains_name(&gone.requires, n.as_str()) || is_still_required(
                app,
                matcher,
                n.as_str(),
            ) {
                let owned = n.clone();
                proof {
                    lemma_names_push(required@, owned);
                }
                required.push(owned);
            }
            i += 1;
        }
        proof {
            lemma_filter_ends(req0, pr);
        }

        let mut overrides: Vec<String> = Vec::new();
        let mut k: usize = 0;
        proof {
            lemma_filter_ends(ovr0, po);
            assert(names_of(overrides@) =~= Seq::<Name>::empty());
        }
        while k < self.overrides.len()
            invariant
                k <= self.overrides.len(),
                matcher.wf(),
                idx < app.args.len(),
                gone == &app.args[idx as int],
                x == gone@,
                po == keeps_override(app@, matcher@, x),
                ovr0 == names_of(self.overrides@),
                names_of(overrides@) == ovr0.take(k as int).filter(po),
            decreases self.overrides.len() - k,
        {
            let n = &self.overrides[k];
            proof {
                lemma_filter_step(ovr0, po, k as int);
                assert(ovr0[k as int] == n@);
            }
            if !contains_name(&gone.overrides_with, n.as_str()) || is_still_overridden(
                app,
                matcher,
                n.as_str(),
            ) {
                let owned = n.clone();
                proof {
                    lemma_names_push(overrides@, owned);
                }
                overrides.push(owned);
            }
            k += 1;
        }
        proof {
            lemma_filter_ends(ovr0, po);
        }
        self.required = required;
        self.overrides = overrides;
    }

    /// First step: the arrival of an argument that is itself overridden.
    pub fn handle_override_arrival(&mut self, app: &App, matcher: &mut ArgMatcher, idx: usize)
        requires
            old(matcher).wf(),
            idx < app.args.len(),
        ensures
            final(matcher).wf(),
            (final(self)@, final(matcher)@) == override_arrival(
                app@,
                app@.args[idx as int],
                old(self)@,
                old(matcher)@,
            ),
    {
        let a = &app.args[idx];
        assert(app@.args[idx as int] == a@);
        if contains_name(&self.overrides, a.name.as_str()) {
            match find_override(app, matcher, a.name.as_str()) {
                Some(i) => {
                    assert(app@.args[i as int] == app.args@[i as int]@);
                    matcher.remove(app.args[i].name.as_str());
                    self.remove_overriden(app, matcher, i);
                },
                None => {},
            }
        }
    }

    /// Second step: what the argument at `idx` overrides.
    pub fn add_overrides(&mut self, app: &App, matcher: &mut ArgMatcher, idx: usize)
        requires
            old(matcher).wf(),
            idx < app.args.len(),
        ensures
            final(matcher).wf(),
            (final(self)@, final(matcher)@) == declare_overrides(
                app@,
                app@.args[idx as int],
                old(self)@,
                old(matcher)@,
            ),
    {
        let a = &app.args[idx];
        assert(app@.args[idx as int] == a@);
        let ghost ov = names_of(a.overrides_with@);
        matcher.remove_all(&a.overrides_with);
        let mut k: usize = 0;
        proof {
            assert(ov.take(0) =~= Seq::<Name>::empty());
        }
        while k < a.overrides_with.len()
            invariant
                k <= a.overrides_with.len(),
                matcher.wf(),
                idx < app.args.len(),
                a == &app.args[idx as int],
                ov == names_of(a.overrides_with@),
                self@ == strip_named(app@, matcher@, old(self)@, ov.take(k as int)),
            decreases a.overrides_with.len() - k,
        {
            proof {
                let next = ov.take(k + 1);
                assert(next.drop_last() =~= ov.take(k as int));
                assert(next.last() == a.overrides_with@[k as int]@);
            }
            match app.find_arg(a.overrides_with[k].as_str()) {
                Some(i) => {
                    self.remove_overriden(app, matcher, i);
                },
                None => {},
            }
            k += 1;
        }
        proof {
            assert(ov.take(a.overrides_with.len() as int) =~= ov);
        }
        push_all_unique(&mut self.overrides, &a.overrides_with);
        remove_names(&mut self.required, &a.overrides_with);
    }

    /// Third step: what the argument at `idx` conflicts with.
    pub fn handle_conflicts(&mut self, app: &App, idx: usize)
        requires
            idx < app.args.len(),
        ensures
            final(self)@ == conflict_bookkeeping(app@.args[idx as int], old(self)@),
    {
        let a = &app.args[idx];
        assert(app@.args[idx as int] == a@);
        remove_names(&mut self.overrides, &a.conflicts_with);
    }

    /// Appends to the pending names those of `names` that did not occur and
    /// are not pending yet.
    fn require_absent(&mut self, matcher: &ArgMatcher, names: &Vec<String>)
        requires
            matcher.wf(),
        ensures
            final(self)@ == (ResolverSpec {
                required: extend_unique(
                    old(self)@.required,
                    absent_names(matcher@, names_of(names@)),
                ),
                ..old(self)@
            }),
    {
        let ghost all = names_of(names@);
        let ghost p = not_present(matcher@);
        let mut absent: Vec<String> = Vec::new();
        let mut i: usize = 0;
        proof {
            lemma_filter_ends(all, p);
            assert(names_of(absent@) =~= Seq::<Name>::empty());
        }
        while i < names.len()
            invariant
                i <= names.len(),
                matcher.wf(),
                all == names_of(names@),
                p == not_present(matcher@),
                names_of(absent@) == all.take(i as int).filter(p),
            decreases names.len() - i,
        {
            proof {
                lemma_filter_step(all, p, i as int);
                assert(all[i as int] == names@[i as int]@);
            }
            if !matcher.is_present(names[i].as_str()) {
                let owned = names[i].clone();
                proof {
                    lemma_names_push(absent@, owned);
                }
                absent.push(owned);
            }
            i += 1;
        }
        proof {
            lemma_filter_ends(all, p);
        }
        push_all_unique(&mut self.required, &absent);
    }

    /// Fourth step: what the argument at `idx` requires.
    pub fn add_requirements(&mut self, app: &App, matcher: &ArgMatcher, idx: usize)
        requires
            matcher.wf(),
            idx < app.args.len(),
        ensures
            final(self)@ == propagate_requires(app@.args[idx as int], old(self)@, matcher@),
    {
        let a = &app.args[idx];
        assert(app@.args[idx as int] == a@);
        self.require_absent(matcher, &a.requires);
    }

    /// Fifth step: the groups that have `name` as a member.
    pub fn handle_group_reqs(&mut self, app: &App, matcher: &ArgMatcher, name: &str)
        requires
            matcher.wf(),
        ensures
            final(self)@ == (ResolverSpec {
                required: discharge_groups(app@.groups, name@, matcher@, old(self)@.required),
                ..old(self)@
            }),
    {
        let mut g: usize = 0;
        proof {
            assert(app@.groups.take(0) =~= Seq::<GroupSpec>::empty());
        }
        while g < app.groups.len()
            invariant
                g <= app.groups.len(),
                matcher.wf(),
                self@ == (ResolverSpec {
                    required: discharge_groups(
                        app@.groups.take(g as int),
                        name@,
                        matcher@,
                        old(self)@.required,
                    ),
                    ..old(self)@
                }),
            decreases app.groups.len() - g,
        {
            let grp = &app.groups[g];
            proof {
                let next = app@.groups.take(g + 1);
                assert(next.drop_last() =~= app@.groups.take(g as int));
                assert(next.last() == grp@);
            }
            if contains_name(&grp.args, name) {
                self.require_absent(matcher, &grp.requires);
                remove_names(&mut self.required, &grp.args);
            }
            g += 1;
        }
        proof {
            assert(app@.groups.take(app.groups.len() as int) =~= app@.groups);
        }
    }

    /// Brings the side tables and the ledger up to date after the argument at
    /// `idx` has been matched and recorded.
    pub fn arg_post_processing(&mut self, app: &App, matcher: &mut ArgMatcher, idx: usize)
        requires
            old(matcher).wf(),
            idx < app.args.len(),
        ensures
            final(matcher).wf(),
            (final(self)@, final(matcher)@) == resolve(
                app@,
                app@.args[idx as int],
                old(self)@,
                old(matcher)@,
            ),
    {
        assert(app@.args[idx as int] == app.args@[idx as int]@);
        self.handle_override_arrival(app, matcher, idx);
        self.add_overrides(app, matcher, idx);
        self.handle_conflicts(app, idx);
        self.add_requirements(app, matcher, idx);
        self.handle_group_reqs(app, matcher, app.args[idx].name.as_str());
    }
}

} // verus!
