//! The match accumulator: a ledger of what a parse has seen so far.
//!
//! For every argument name it keeps how often the argument occurred and the
//! values captured for it, in order; for every group whether one of its
//! members occurred. It checks nothing: the rules live in the resolver and in
//! the parser.

use vstd::prelude::*;
use crate::names::{Name, names_of, opt_name, str_eq, contains_name, push_unique, insert_unique,
    clone_names, lemma_names_push};
use crate::args::{App, GroupSpec};

verus! {

/// The mathematical value of a captured value: its characters.
pub type Value = Seq<char>;

/// What the ledger holds for one argument name.
#[verifier::ext_equal]
pub struct MatchedSpec {
    pub occurs: nat,
    pub vals: Seq<Value>,
}

/// The mathematical value of an [`ArgMatcher`].
#[verifier::ext_equal]
pub struct MatchesSpec {
    /// The entry of each name that has one.
    pub args: Map<Name, MatchedSpec>,
    /// The names of the groups of which a member occurred.
    pub groups: Set<Name>,
    /// The subcommand that ended the parse, if one did.
    pub subcommand: Option<Name>,
    /// The tokens that followed the subcommand.
    pub subcommand_args: Seq<Value>,
}

/// The names of the groups among `groups` that count `n` as a member.
pub open spec fn groups_with(groups: Seq<GroupSpec>, n: Name) -> Set<Name> {
    Set::new(
        |g: Name|
            exists|k: int|
                0 <= k < groups.len() && (#[trigger] groups[k]).name == g && groups[k].args.contains(
                    n,
                ),
    )
}

impl MatchesSpec {
    /// The ledger before anything was recorded.
    pub open spec fn empty() -> MatchesSpec {
        MatchesSpec {
            args: Map::empty(),
            groups: Set::empty(),
            subcommand: None,
            subcommand_args: Seq::empty(),
        }
    }

    /// How often `n` occurred.
    pub open spec fn occurrences(self, n: Name) -> nat {
        if self.args.dom().contains(n) {
            self.args[n].occurs
        } else {
            0
        }
    }

    /// The values captured for `n`, in the order of capture.
    pub open spec fn values(self, n: Name) -> Seq<Value> {
        if self.args.dom().contains(n) {
            self.args[n].vals
        } else {
            Seq::empty()
        }
    }

    /// Whether `n` occurred at least once.
    pub open spec fn present(self, n: Name) -> bool {
        self.occurrences(n) >= 1
    }

    /// One more occurrence of `n`, with `v` appended to its values if there is
    /// one, and every group that has `n` as a member marked as touched.
    pub open spec fn record(self, groups: Seq<GroupSpec>, n: Name, v: Option<Value>) -> MatchesSpec {
        MatchesSpec {
            args: self.args.insert(
                n,
                MatchedSpec {
                    occurs: self.occurrences(n) + 1,
                    vals: match v {
                        Some(x) => self.values(n).push(x),
                        None => self.values(n),
                    },
                },
            ),
            groups: self.groups.union(groups_with(groups, n)),
            ..self
        }
    }

    /// One more value of `n`, without a new occurrence.
    pub open spec fn add_value(self, n: Name, v: Value) -> MatchesSpec {
        MatchesSpec {
            args: self.args.insert(
                n,
                MatchedSpec { occurs: self.occurrences(n), vals: self.values(n).push(v) },
            ),
            ..self
        }
    }

    /// Whether no name occurred more than `bound` times.
    pub open spec fn below(self, bound: nat) -> bool {
        forall|n: Name| self.occurrences(n) <= bound
    }

    /// The ledger without the entry of `n`.
    pub open spec fn remove(self, n: Name) -> MatchesSpec {
        MatchesSpec { args: self.args.remove(n), ..self }
    }

    /// The ledger without the entries of `names`.
    pub open spec fn remove_all(self, names: Seq<Name>) -> MatchesSpec {
        MatchesSpec { args: self.args.remove_keys(names.to_set()), ..self }
    }

    /// The ledger with `name` noted as the subcommand that ended the parse.
    pub open spec fn with_subcommand(self, name: Name) -> MatchesSpec {
        MatchesSpec { subcommand: Some(name), ..self }
    }

    /// The ledger with one more token handed on to the subcommand.
    pub open spec fn with_subcommand_arg(self, token: Value) -> MatchesSpec {
        MatchesSpec { subcommand_args: self.subcommand_args.push(token), ..self }
    }
}

/// The entry of one argument.
#[derive(Clone, Debug)]
pub struct MatchedArg {
    name: String,
    occurs: u64,
    vals: Vec<String>,
}

impl View for MatchedArg {
    type V = MatchedSpec;

    closed spec fn view(&self) -> MatchedSpec {
        MatchedSpec { occurs: self.occurs as nat, vals: names_of(self.vals@) }
    }
}

/// The ledger of one parse.
#[derive(Clone, Debug)]
pub struct ArgMatcher {
    entries: Vec<MatchedArg>,
    groups: Vec<String>,
    subcommand: Option<String>,
    subcommand_args: Vec<String>,
}

/// Whether some entry is filed under `n`.
spec fn has_entry(entries: Seq<MatchedArg>, n: Name) -> bool {
    exists|i: int| 0 <= i < entries.len() && (#[trigger] entries[i]).name@ == n
}

/// A place at which an entry is filed under `n`.
spec fn entry_index(entries: Seq<MatchedArg>, n: Name) -> int {
    choose|i: int| 0 <= i < entries.len() && (#[trigger] entries[i]).name@ == n
}

/// No two entries are filed under one name.
spec fn distinct_entries(entries: Seq<MatchedArg>) -> bool {
    forall|i: int, j: int|
        0 <= i < entries.len() && 0 <= j < entries.len() && i != j ==> (#[trigger] entries[i]).name@
            != (#[trigger] entries[j]).name@
}

/// The entries as a map from names.
spec fn entries_map(entries: Seq<MatchedArg>) -> Map<Name, MatchedSpec> {
    Map::new(|n: Name| has_entry(entries, n), |n: Name| entries[entry_index(entries, n)]@)
}

/// With distinct names, the entry at `i` is the one the map holds for its
/// name.
proof fn lemma_entry_at(entries: Seq<MatchedArg>, i: int)
    requires
        distinct_entries(entries),
        0 <= i < entries.len(),
    ensures
        has_entry(entries, entries[i].name@),
        entry_index(entries, entries[i].name@) == i,
        entries_map(entries).dom().contains(entries[i].name@),
        entries_map(entries)[entries[i].name@] == entries[i]@,
{
    let n = entries[i].name@;
    assert(has_entry(entries, n));
    let k = entry_index(entries, n);
    assert(0 <= k < entries.len() && entries[k].name@ == n);
}

/// A name under which nothing is filed is not in the map.
proof fn lemma_no_entry(entries: Seq<MatchedArg>, n: Name)
    requires
        forall|i: int| 0 <= i < entries.len() ==> (#[trigger] entries[i]).name@ != n,
    ensures
        !entries_map(entries).dom().contains(n),
{
}

impl View for ArgMatcher {
    type V = MatchesSpec;

    closed spec fn view(&self) -> MatchesSpec {
        MatchesSpec {
            args: entries_map(self.entries@),
            groups: names_of(self.groups@).to_set(),
            subcommand: opt_name(self.subcommand),
            subcommand_args: names_of(self.subcommand_args@),
        }
    }
}

impl ArgMatcher {
    /// The ledger is in order: no name has two entries.
    pub closed spec fn wf(&self) -> bool {
        distinct_entries(self.entries@)
    }

    /// An empty ledger.
    pub fn new() -> (m: ArgMatcher)
        ensures
            m.wf(),
            m@ == MatchesSpec::empty(),
    {
        let m = ArgMatcher {
            entries: Vec::new(),
            groups: Vec::new(),
            subcommand: None,
            subcommand_args: Vec::new(),
        };
        proof {
            assert(entries_map(m.entries@) =~= Map::<Name, MatchedSpec>::empty());
            assert(names_of(m.groups@).to_set() =~= Set::<Name>::empty());
            assert(names_of(m.subcommand_args@) =~= Seq::<Value>::empty());
        }
        m
    }

    /// The place of the entry filed under `name`.
    fn find(&self, name: &str) -> (r: Option<usize>)
        ensures
            match r {
                Some(i) => i < self.entries.len() && self.entries[i as int].name@ == name@,
                None => forall|i: int|
                    0 <= i < self.entries.len() ==> (#[trigger] self.entries[i]).name@ != name@,
            },
    {
        let mut i: usize = 0;
        while i < self.entries.len()
            invariant
                i <= self.entries.len(),
                forall|j: int| 0 <= j < i ==> (#[trigger] self.entries[j]).name@ != name@,
            decreases self.entries.len() - i,
        {
            if str_eq(self.entries[i].name.as_str(), name) {
                return Some(i);
            }
            i += 1;
        }
        None
    }

    /// How often `name` occurred.
    pub fn occurrences_of(&self, name: &str) -> (n: u64)
        requires
            self.wf(),
        ensures
            n == self@.occurrences(name@),
    {
        match self.find(name) {
            Some(i) => {
                proof {
                    lemma_entry_at(self.entries@, i as int);
                }
                self.entries[i].occurs
            },
            None => {
                proof {
                    lemma_no_entry(self.entries@, name@);
                }
                0
            },
        }
    }

    /// Whether `name` occurred at least once.
    pub fn is_present(&self, name: &str) -> (b: bool)
        requires
            self.wf(),
        ensures
            b == self@.present(name@),
    {
        self.occurrences_of(name) >= 1
    }

    /// The values captured for `name`, in the order of capture.
    pub fn values_of(&self, name: &str) -> (vals: Vec<String>)
        requires
            self.wf(),
        ensures
            names_of(vals@) == self@.values(name@),
    {
        match self.find(name) {
            Some(i) => {
                proof {
                    lemma_entry_at(self.entries@, i as int);
                }
                clone_names(&self.entries[i].vals)
            },
            None => {
                proof {
                    lemma_no_entry(self.entries@, name@);
                }
                let vals: Vec<String> = Vec::new();
                assert(names_of(vals@) =~= Seq::<Value>::empty());
                vals
            },
        }
    }

    /// The first value captured for `name`, if there is one.
    pub fn value_of(&self, name: &str) -> (val: Option<String>)
        requires
            self.wf(),
        ensures
            opt_name(val) == if self@.values(name@).len() > 0 {
                Some(self@.values(name@)[0])
            } else {
                None
            },
    {
        match self.find(name) {
            Some(i) => {
                proof {
                    lemma_entry_at(self.entries@, i as int);
                }
                if self.entries[i].vals.len() > 0 {
                    Some(self.entries[i].vals[0].clone())
                } else {
                    None
                }
            },
            None => {
                proof {
                    lemma_no_entry(self.entries@, name@);
                }
                None
            },
        }
    }

    /// Whether a member of the group called `group` occurred.
    pub fn group_touched(&self, group: &str) -> (b: bool)
        ensures
            b == self@.groups.contains(group@),
    {
        contains_name(&self.groups, group)
    }

    /// Whether a subcommand has ended the parse.
    pub fn has_subcommand(&self) -> (b: bool)
        ensures
            b == (self@.subcommand is Some),
    {
        self.subcommand.is_some()
    }

    /// The subcommand that ended the parse, if one did.
    pub fn subcommand_name(&self) -> (name: Option<String>)
        ensures
            opt_name(name) == self@.subcommand,
    {
        match &self.subcommand {
            Some(s) => Some(s.clone()),
            None => None,
        }
    }

    /// The tokens that followed the subcommand.
    pub fn subcommand_args(&self) -> (args: Vec<String>)
        ensures
            names_of(args@) == self@.subcommand_args,
    {
        clone_names(&self.subcommand_args)
    }

    /// Marks as touched every group of `app` that has `name` as a member.
    fn touch_groups(&mut self, app: &App, name: &str)
        ensures
            final(self).entries == old(self).entries,
            final(self).subcommand == old(self).subcommand,
            final(self).subcommand_args == old(self).subcommand_args,
            names_of(final(self).groups@).to_set() == names_of(old(self).groups@).to_set().union(
                groups_with(app@.groups, name@),
            ),
    {
        let mut g: usize = 0;
        proof {
            assert(names_of(self.groups@).to_set() =~= names_of(old(self).groups@).to_set().union(
                groups_with(app@.groups.take(0), name@),
            ));
        }
        while g < app.groups.len()
            invariant
                g <= app.groups.len(),
                self.entries == old(self).entries,
                self.subcommand == old(self).subcommand,
                self.subcommand_args == old(self).subcommand_args,
                names_of(self.groups@).to_set() == names_of(old(self).groups@).to_set().union(
                    groups_with(app@.groups.take(g as int), name@),
                ),
            decreases app.groups.len() - g,
        {
            let ghost before = names_of(self.groups@);
            let ghost upto = app@.groups.take(g as int);
            let ghost next = app@.groups.take(g + 1);
            let ghost grp = app@.groups[g as int];
            proof {
                assert(next =~= upto.push(grp));
                assert(grp == app.groups@[g as int]@);
            }
            if contains_name(&app.groups[g].args, name) {
                push_unique(&mut self.groups, app.groups[g].name.as_str());
                proof {
                    let after = names_of(self.groups@);
                    assert(after == insert_unique(before, grp.name));
                    assert(after.to_set() =~= before.to_set().insert(grp.name)) by {
                        assert forall|x: Name| after.contains(x) <==> (before.contains(x) || x
                            == grp.name) by {
                            if before.contains(grp.name) {
                            } else {
                                assert(after[before.len() as int] == grp.name);
                                if after.contains(x) {
                                    let j = choose|j: int| 0 <= j < after.len() && after[j] == x;
                                    if j < before.len() {
                                        assert(before[j] == x);
                                    }
                                }
                                if before.contains(x) {
                                    let j = choose|j: int| 0 <= j < before.len() && before[j] == x;
                                    assert(after[j] == x);
                                }
                            }
                        }
                    }
                    assert(groups_with(next, name@) =~= groups_with(upto, name@).insert(grp.name)) by {
                        assert forall|x: Name|
                            groups_with(next, name@).contains(x) <==> (groups_with(
                                upto,
                                name@,
                            ).contains(x) || x == grp.name) by {
                            if groups_with(next, name@).contains(x) {
                                let k = choose|k: int|
                                    0 <= k < next.len() && (#[trigger] next[k]).name == x
                                        && next[k].args.contains(name@);
                                if k < upto.len() {
                                    assert(upto[k].name == x && upto[k].args.contains(name@));
                                }
                            }
                            if groups_with(upto, name@).contains(x) {
                                let k = choose|k: int|
                                    0 <= k < upto.len() && (#[trigger] upto[k]).name == x
                                        && upto[k].args.contains(name@);
                                assert(next[k].name == x && next[k].args.contains(name@));
                            }
                            if x == grp.name {
                                assert(next[g as int].name == x && next[g as int].args.contains(
                                    name@,
                                ));
                            }
                        }
                    }
                }
            } else {
                proof {
                    assert(groups_with(next, name@) =~= groups_with(upto, name@)) by {
                        assert forall|x: Name|
                            groups_with(next, name@).contains(x) <==> groups_with(
                                upto,
                                name@,
                            ).contains(x) by {
                            if groups_with(next, name@).contains(x) {
                                let k = choose|k: int|
                                    0 <= k < next.len() && (#[trigger] next[k]).name == x
                                        && next[k].args.contains(name@);
                                if k < upto.len() {
                                    assert(upto[k].name == x && upto[k].args.contains(name@));
                                }
                            }
                            if groups_with(upto, name@).contains(x) {
                                let k = choose|k: int|
                                    0 <= k < upto.len() && (#[trigger] upto[k]).name == x
                                        && upto[k].args.contains(name@);
                                assert(next[k].name == x && next[k].args.contains(name@));
                            }
                        }
                    }
                }
            }
            g += 1;
        }
        proof {
            assert(app@.groups.take(app.groups.len() as int) =~= app@.groups);
        }
    }

    /// Records one occurrence of `name`: the count goes up by one, `value` is
    /// appended if there is one, and the groups of `app` that have `name` as a
    /// member are marked as touched.
    pub fn record(&mut self, app: &App, name: &str, value: Option<String>)
        requires
            old(self).wf(),
            old(self)@.occurrences(name@) < u64::MAX,
        ensures
            final(self).wf(),
            final(self)@ == old(self)@.record(app@.groups, name@, opt_name(value)),
    {
        let ghost before = self.entries@;
        match self.find(name) {
            Some(i) => {
                proof {
                    lemma_entry_at(before, i as int);
                }
                let mut vals = clone_names(&self.entries[i].vals);
                let occurs = self.entries[i].occurs + 1;
                match value {
                    Some(v) => {
                        proof {
                            lemma_names_push(vals@, v);
                        }
                        vals.push(v);
                    },
                    None => {},
                }
                let entry = MatchedArg { name: name.to_owned(), occurs, vals };
                self.entries.set(i, entry);
                proof {
                    let after = self.entries@;
                    assert(distinct_entries(after));
                    assert(entries_map(after) =~= entries_map(before).insert(name@, entry@)) by {
                        assert forall|n: Name| has_entry(after, n) <==> (has_entry(before, n) || n
                            == name@) by {
                            if has_entry(after, n) {
                                let k = entry_index(after, n);
                                assert(before[k].name@ == n);
                            }
                            if has_entry(before, n) {
                                let k = entry_index(before, n);
                                assert(after[k].name@ == n);
                            }
                            assert(after[i as int].name@ == name@);
                        }
                        assert forall|n: Name| has_entry(after, n) implies entries_map(after)[n] == (
                        if n == name@ {
                            entry@
                        } else {
                            entries_map(before)[n]
                        }) by {
                            let k = entry_index(after, n);
                            lemma_entry_at(after, k);
                            lemma_entry_at(before, k);
                        }
                    }
                }
            },
            None => {
                proof {
                    lemma_no_entry(before, name@);
                }
                let mut vals: Vec<String> = Vec::new();
                proof {
                    assert(names_of(vals@) =~= Seq::<Value>::empty());
                }
                match value {
                    Some(v) => {
                        proof {
                            lemma_names_push(vals@, v);
                        }
                        vals.push(v);
                    },
                    None => {},
                }
                let entry = MatchedArg { name: name.to_owned(), occurs: 1, vals };
                self.entries.push(entry);
                proof {
                    let after = self.entries@;
                    assert(distinct_entries(after));
                    assert(entries_map(after) =~= entries_map(before).insert(name@, entry@)) by {
                        assert forall|n: Name| has_entry(after, n) <==> (has_entry(before, n) || n
                            == name@) by {
                            if has_entry(after, n) {
                                let k = entry_index(after, n);
                                if k < before.len() {
                                    assert(before[k].name@ == n);
                                }
                            }
                            if has_entry(before, n) {
                                let k = entry_index(before, n);
                                assert(after[k].name@ == n);
                            }
                            assert(after[before.len() as int].name@ == name@);
                        }
                        assert forall|n: Name| has_entry(after, n) implies entries_map(after)[n] == (
                        if n == name@ {
                            entry@
                        } else {
                            entries_map(before)[n]
                        }) by {
                            let k = entry_index(after, n);
                            lemma_entry_at(after, k);
                            if k < before.len() {
                                lemma_entry_at(before, k);
                            }
                        }
                    }
                }
            },
        }
        self.touch_groups(app, name);
    }

    /// Appends `value` to the values of `name` without counting a new
    /// occurrence.
    pub fn add_val_to(&mut self, name: &str, value: String)
        requires
            old(self).wf(),
        ensures
            final(self).wf(),
            final(self)@ == old(self)@.add_value(name@, value@),
    {
        let ghost before = self.entries@;
        match self.find(name) {
            Some(i) => {
                proof {
                    lemma_entry_at(before, i as int);
                }
                let mut vals = clone_names(&self.entries[i].vals);
                let occurs = self.entries[i].occurs;
                proof {
                    lemma_names_push(vals@, value);
                }
                vals.push(value);
                let entry = MatchedArg { name: name.to_owned(), occurs, vals };
                self.entries.set(i, entry);
                proof {
                    let after = self.entries@;
                    assert(distinct_entries(after));
                    assert(entries_map(after) =~= entries_map(before).insert(name@, entry@)) by {
                        assert forall|n: Name| has_entry(after, n) <==> (has_entry(before, n) || n
                            == name@) by {
                            if has_entry(after, n) {
                                let k = entry_index(after, n);
                                assert(before[k].name@ == n);
                            }
                            if has_entry(before, n) {
                                let k = entry_index(before, n);
                                assert(after[k].name@ == n);
                            }
                            assert(after[i as int].name@ == name@);
                        }
                        assert forall|n: Name| has_entry(after, n) implies entries_map(after)[n] == (
                        if n == name@ {
                            entry@
                        } else {
                            entries_map(before)[n]
                        }) by {
                            let k = entry_index(after, n);
                            lemma_entry_at(after, k);
                            lemma_entry_at(before, k);
                        }
                    }
                }
            },
            None => {
                proof {
                    lemma_no_entry(before, name@);
                }
                let mut vals: Vec<String> = Vec::new();
                proof {
                    assert(names_of(vals@) =~= Seq::<Value>::empty());
                    lemma_names_push(vals@, value);
                }
                vals.push(value);
                let entry = MatchedArg { name: name.to_owned(), occurs: 0, vals };
                self.entries.push(entry);
                proof {
                    let after = self.entries@;
                    assert(distinct_entries(after));
                    assert(entries_map(after) =~= entries_map(before).insert(name@, entry@)) by {
                        assert forall|n: Name| has_entry(after, n) <==> (has_entry(before, n) || n
                            == name@) by {
                            if has_entry(after, n) {
                                let k = entry_index(after, n);
                                if k < before.len() {
                                    assert(before[k].name@ == n);
                                }
                            }
                            if has_entry(before, n) {
                                let k = entry_index(before, n);
                                assert(after[k].name@ == n);
                            }
                            assert(after[before.len() as int].name@ == name@);
                        }
                        assert forall|n: Name| has_entry(after, n) implies entries_map(after)[n] == (
                        if n == name@ {
                            entry@
                        } else {
                            entries_map(before)[n]
                        }) by {
                            let k = entry_index(after, n);
                            lemma_entry_at(after, k);
                            if k < before.len() {
                                lemma_entry_at(before, k);
                            }
                        }
                    }
                }
            },
        }
    }

    /// Clears the count and the values of `name`.
    pub fn remove(&mut self, name: &str)
        requires
            old(self).wf(),
        ensures
            final(self).wf(),
            final(self)@ == old(self)@.remove(name@),
    {
        let ghost before = self.entries@;
        match self.find(name) {
            Some(i) => {
                proof {
                    lemma_entry_at(before, i as int);
                }
                self.entries.remove(i);
                proof {
                    let after = self.entries@;
                    assert(after =~= before.remove(i as int));
                    assert forall|a: int, b: int|
                        0 <= a < after.len() && 0 <= b < after.len() && a != b implies (
                    #[trigger] after[a]).name@ != (#[trigger] after[b]).name@ by {
                        let a0 = if a < i { a } else { a + 1 };
                        let b0 = if b < i { b } else { b + 1 };
                        assert(after[a] == before[a0]);
                        assert(after[b] == before[b0]);
                    }
                    assert(entries_map(after) =~= entries_map(before).remove(name@)) by {
                        assert forall|n: Name| has_entry(after, n) <==> (has_entry(before, n) && n
                            != name@) by {
                            if has_entry(after, n) {
                                let k = entry_index(after, n);
                                let k0 = if k < i { k } else { k + 1 };
                                assert(after[k] == before[k0]);
                                assert(before[k0].name@ == n);
                            }
                            if has_entry(before, n) && n != name@ {
                                let k0 = entry_index(before, n);
                                let k = if k0 < i { k0 } else { k0 - 1 };
                                assert(after[k] == before[k0]);
                                assert(after[k].name@ == n);
                            }
                        }
                        assert forall|n: Name| has_entry(after, n) implies entries_map(after)[n]
                            == entries_map(before)[n] by {
                            let k = entry_index(after, n);
                            let k0 = if k < i { k } else { k + 1 };
                            assert(after[k] == before[k0]);
                            lemma_entry_at(after, k);
                            lemma_entry_at(before, k0);
                        }
                    }
                }
            },
            None => {
                proof {
                    lemma_no_entry(before, name@);
                    assert(entries_map(before) =~= entries_map(before).remove(name@));
                }
            },
        }
    }

    /// Clears the counts and the values of all of `names`.
    pub fn remove_all(&mut self, names: &Vec<String>)
        requires
            old(self).wf(),
        ensures
            final(self).wf(),
            final(self)@ == old(self)@.remove_all(names_of(names@)),
    {
        let mut i: usize = 0;
        proof {
            assert(names_of(names@).take(0).to_set() =~= Set::<Name>::empty());
            assert(self@.args =~= old(self)@.args.remove_keys(names_of(names@).take(0).to_set()));
        }
        while i < names.len()
            invariant
                i <= names.len(),
                self.wf(),
                self@ == old(self)@.remove_all(names_of(names@).take(i as int)),
            decreases names.len() - i,
        {
            let ghost upto = names_of(names@).take(i as int);
            let ghost next = names_of(names@).take(i + 1);
            let ghost mid = self@;
            self.remove(names[i].as_str());
            proof {
                let n = names@[i as int]@;
                assert(next =~= upto.push(n));
                assert(next.to_set() =~= upto.to_set().insert(n)) by {
                    assert forall|x: Name| next.contains(x) <==> (upto.contains(x) || x == n) by {
                        assert(next[upto.len() as int] == n);
                        if next.contains(x) {
                            let j = choose|j: int| 0 <= j < next.len() && next[j] == x;
                            if j < upto.len() {
                                assert(upto[j] == x);
                            }
                        }
                        if upto.contains(x) {
                            let j = choose|j: int| 0 <= j < upto.len() && upto[j] == x;
                            assert(next[j] == x);
                        }
                    }
                }
                assert(self@.args =~= old(self)@.args.remove_keys(next.to_set()));
            }
            i += 1;
        }
        proof {
            assert(names_of(names@).take(names.len() as int) =~= names_of(names@));
        }
    }

    /// Notes `name` as the subcommand that ended the parse.
    pub fn set_subcommand(&mut self, name: &str)
        requires
            old(self).wf(),
        ensures
            final(self).wf(),
            final(self)@ == old(self)@.with_subcommand(name@),
    {
        self.subcommand = Some(name.to_owned());
    }

    /// Hands one more token on to the subcommand.
    pub fn push_subcommand_arg(&mut self, token: &str)
        requires
            old(self).wf(),
        ensures
            final(self).wf(),
            final(self)@ == old(self)@.with_subcommand_arg(token@),
    {
        let owned = token.to_owned();
        proof {
            lemma_names_push(self.subcommand_args@, owned);
        }
        self.subcommand_args.push(owned);
    }
}

} // verus!
