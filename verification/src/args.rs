//! The specification model: what an author declares before any parse.
//!
//! An [`App`] holds arguments, groups and subcommand names. It is built once
//! and only read afterwards. Every type has a mathematical view in which names
//! are sequences of characters; the rules of matching are stated over those
//! views.

use vstd::prelude::*;
use crate::names::{Name, names_of, opt_name, str_eq, contains_name};

verus! {

/// What kind of token an argument is matched against.
#[derive(Clone, Copy, PartialEq, Eq, Debug, Structural)]
pub enum ArgKind {
    /// Present or absent; takes no value.
    Flag,
    /// Named, and followed by one or more values.
    Opt,
    /// Found by position; the number is its place, counted from one.
    Positional(usize),
}

/// The declaration of one argument.
#[derive(Clone, Debug)]
pub struct Arg {
    pub name: String,
    pub kind: ArgKind,
    pub short: Option<char>,
    pub long: Option<String>,
    pub help: Option<String>,
    pub long_help: Option<String>,
    pub required: bool,
    pub multiple: bool,
    pub multiple_values: bool,
    pub trailing_var_arg: bool,
    pub hidden: bool,
    pub next_line_help: bool,
    pub hide_default_value: bool,
    pub hide_possible_values: bool,
    pub requires: Vec<String>,
    pub conflicts_with: Vec<String>,
    pub overrides_with: Vec<String>,
    pub default_value: Option<String>,
    pub possible_values: Vec<String>,
    pub visible_aliases: Vec<String>,
    pub display_order: usize,
}

/// The mathematical value of an [`Arg`].
pub struct ArgSpec {
    pub name: Name,
    pub kind: ArgKind,
    pub short: Option<char>,
    pub long: Option<Name>,
    pub help: Option<Seq<char>>,
    pub long_help: Option<Seq<char>>,
    pub required: bool,
    pub multiple: bool,
    pub multiple_values: bool,
    pub trailing_var_arg: bool,
    pub hidden: bool,
    pub next_line_help: bool,
    pub hide_default_value: bool,
    pub hide_possible_values: bool,
    pub requires: Seq<Name>,
    pub conflicts_with: Seq<Name>,
    pub overrides_with: Seq<Name>,
    pub default_value: Option<Seq<char>>,
    pub possible_values: Seq<Seq<char>>,
    pub visible_aliases: Seq<Seq<char>>,
    pub display_order: usize,
}

impl View for Arg {
    type V = ArgSpec;

    open spec fn view(&self) -> ArgSpec {
        ArgSpec {
            name: self.name@,
            kind: self.kind,
            short: self.short,
            long: opt_name(self.long),
            help: opt_name(self.help),
            long_help: opt_name(self.long_help),
            required: self.required,
            multiple: self.multiple,
            multiple_values: self.multiple_values,
            trailing_var_arg: self.trailing_var_arg,
            hidden: self.hidden,
            next_line_help: self.next_line_help,
            hide_default_value: self.hide_default_value,
            hide_possible_values: self.hide_possible_values,
            requires: names_of(self.requires@),
            conflicts_with: names_of(self.conflicts_with@),
            overrides_with: names_of(self.overrides_with@),
            default_value: opt_name(self.default_value),
            possible_values: names_of(self.possible_values@),
            visible_aliases: names_of(self.visible_aliases@),
            display_order: self.display_order,
        }
    }
}

impl ArgSpec {
    /// Whether the argument is found by position.
    pub open spec fn is_positional(self) -> bool {
        self.kind is Positional
    }

    /// Whether the argument is written with `-` or `--` in front.
    pub open spec fn has_switch(self) -> bool {
        self.short is Some || self.long is Some
    }
}

/// A set of arguments of which one stands for the others.
#[derive(Clone, Debug)]
pub struct ArgGroup {
    pub name: String,
    pub args: Vec<String>,
    pub requires: Vec<String>,
    pub multiple: bool,
}

/// The mathematical value of an [`ArgGroup`].
pub struct GroupSpec {
    pub name: Name,
    pub args: Seq<Name>,
    pub requires: Seq<Name>,
    pub multiple: bool,
}

impl View for ArgGroup {
    type V = GroupSpec;

    open spec fn view(&self) -> GroupSpec {
        GroupSpec {
            name: self.name@,
            args: names_of(self.args@),
            requires: names_of(self.requires@),
            multiple: self.multiple,
        }
    }
}

/// What the help text shows of a subcommand.
#[derive(Clone, Debug)]
pub struct SubCommand {
    pub name: String,
    pub about: Option<String>,
    pub long_about: Option<String>,
    pub visible_aliases: Vec<String>,
    pub display_order: usize,
    pub hidden: bool,
    pub next_line_help: bool,
}

/// The mathematical value of a [`SubCommand`].
pub struct SubCommandSpec {
    pub name: Name,
    pub about: Option<Seq<char>>,
    pub long_about: Option<Seq<char>>,
    pub visible_aliases: Seq<Seq<char>>,
    pub display_order: usize,
    pub hidden: bool,
    pub next_line_help: bool,
}

impl View for SubCommand {
    type V = SubCommandSpec;

    open spec fn view(&self) -> SubCommandSpec {
        SubCommandSpec {
            name: self.name@,
            about: opt_name(self.about),
            long_about: opt_name(self.long_about),
            visible_aliases: names_of(self.visible_aliases@),
            display_order: self.display_order,
            hidden: self.hidden,
            next_line_help: self.next_line_help,
        }
    }
}

/// Everything an author declares: arguments, groups and subcommands, each in
/// the order of declaration, and the texts shown in help.
#[derive(Clone, Debug)]
pub struct App {
    pub name: String,
    pub bin_name: Option<String>,
    pub version: Option<String>,
    pub long_version: Option<String>,
    pub author: Option<String>,
    pub about: Option<String>,
    pub long_about: Option<String>,
    pub before_help: Option<String>,
    pub after_help: Option<String>,
    pub override_help: Option<String>,
    pub help_template: Option<String>,
    pub usage: Option<String>,
    pub term_width: Option<usize>,
    pub max_term_width: Option<usize>,
    pub next_line_help: bool,
    pub hide_possible_values: bool,
    pub derive_display_order: bool,
    pub unified_help: bool,
    pub args: Vec<Arg>,
    pub groups: Vec<ArgGroup>,
    pub subcommands: Vec<SubCommand>,
}

/// The mathematical value of an [`App`].
pub struct AppSpec {
    pub name: Seq<char>,
    pub bin_name: Option<Seq<char>>,
    pub version: Option<Seq<char>>,
    pub long_version: Option<Seq<char>>,
    pub author: Option<Seq<char>>,
    pub about: Option<Seq<char>>,
    pub long_about: Option<Seq<char>>,
    pub before_help: Option<Seq<char>>,
    pub after_help: Option<Seq<char>>,
    pub override_help: Option<Seq<char>>,
    pub help_template: Option<Seq<char>>,
    pub usage: Option<Seq<char>>,
    pub term_width: Option<usize>,
    pub max_term_width: Option<usize>,
    pub next_line_help: bool,
    pub hide_possible_values: bool,
    pub derive_display_order: bool,
    pub unified_help: bool,
    pub args: Seq<ArgSpec>,
    pub groups: Seq<GroupSpec>,
    pub subcommands: Seq<SubCommandSpec>,
}

/// The values of a list of arguments, in order.
pub open spec fn args_of(v: Seq<Arg>) -> Seq<ArgSpec> {
    v.map_values(|a: Arg| a@)
}

/// The values of a list of groups, in order.
pub open spec fn groups_of(v: Seq<ArgGroup>) -> Seq<GroupSpec> {
    v.map_values(|g: ArgGroup| g@)
}

/// The values of a list of subcommands, in order.
pub open spec fn subcommands_of(v: Seq<SubCommand>) -> Seq<SubCommandSpec> {
    v.map_values(|s: SubCommand| s@)
}

impl View for App {
    type V = AppSpec;

    open spec fn view(&self) -> AppSpec {
        AppSpec {
            name: self.name@,
            bin_name: opt_name(self.bin_name),
            version: opt_name(self.version),
            long_version: opt_name(self.long_version),
            author: opt_name(self.author),
            about: opt_name(self.about),
            long_about: opt_name(self.long_about),
            before_help: opt_name(self.before_help),
            after_help: opt_name(self.after_help),
            override_help: opt_name(self.override_help),
            help_template: opt_name(self.help_template),
            usage: opt_name(self.usage),
            term_width: self.term_width,
            max_term_width: self.max_term_width,
            next_line_help: self.next_line_help,
            hide_possible_values: self.hide_possible_values,
            derive_display_order: self.derive_display_order,
            unified_help: self.unified_help,
            args: args_of(self.args@),
            groups: groups_of(self.groups@),
            subcommands: subcommands_of(self.subcommands@),
        }
    }
}

/// `i` is the first place in `args` whose argument is called `name`.
pub open spec fn first_named(args: Seq<ArgSpec>, name: Name, i: int) -> bool {
    &&& 0 <= i < args.len()
    &&& args[i].name == name
    &&& forall|j: int| 0 <= j < i ==> args[j].name != name
}

/// `i` is the first place in `args` of a flag or option whose long form is
/// `long`.
pub open spec fn first_long(args: Seq<ArgSpec>, long: Name, i: int) -> bool {
    &&& 0 <= i < args.len()
    &&& !args[i].is_positional() && args[i].long == Some(long)
    &&& forall|j: int|
        0 <= j < i ==> !(!(#[trigger] args[j]).is_positional() && args[j].long == Some(long))
}

/// `i` is the first place in `args` of a flag or option whose short form is
/// `short`.
pub open spec fn first_short(args: Seq<ArgSpec>, short: char, i: int) -> bool {
    &&& 0 <= i < args.len()
    &&& !args[i].is_positional() && args[i].short == Some(short)
    &&& forall|j: int|
        0 <= j < i ==> !(!(#[trigger] args[j]).is_positional() && args[j].short == Some(short))
}

/// `i` is the first place in `args` of the positional argument with the
/// one-based place `place`.
pub open spec fn first_at_place(args: Seq<ArgSpec>, place: int, i: int) -> bool {
    &&& 0 <= i < args.len()
    &&& args[i].kind matches ArgKind::Positional(p) && p == place
    &&& forall|j: int|
        0 <= j < i ==> !((#[trigger] args[j]).kind matches ArgKind::Positional(p) && p == place)
}

/// The number of positional arguments among `args`.
pub open spec fn count_positionals(args: Seq<ArgSpec>) -> nat
    decreases args.len(),
{
    if args.len() == 0 {
        0
    } else {
        count_positionals(args.drop_last()) + if args.last().is_positional() {
            1nat
        } else {
            0nat
        }
    }
}

impl AppSpec {
    /// Where the argument called `name` is declared, if it is.
    pub open spec fn arg_index(self, name: Name) -> Option<int> {
        if exists|i: int| first_named(self.args, name, i) {
            Some(choose|i: int| first_named(self.args, name, i))
        } else {
            None
        }
    }

    /// Whether an argument called `name` is declared.
    pub open spec fn declares(self, name: Name) -> bool {
        exists|i: int| 0 <= i < self.args.len() && (#[trigger] self.args[i]).name == name
    }

    /// Where the flag or option written `--long` is declared, if it is.
    pub open spec fn long_index(self, long: Name) -> Option<int> {
        if exists|i: int| first_long(self.args, long, i) {
            Some(choose|i: int| first_long(self.args, long, i))
        } else {
            None
        }
    }

    /// Where the flag or option written `-short` is declared, if it is.
    pub open spec fn short_index(self, short: char) -> Option<int> {
        if exists|i: int| first_short(self.args, short, i) {
            Some(choose|i: int| first_short(self.args, short, i))
        } else {
            None
        }
    }

    /// How many positional arguments are declared.
    pub open spec fn positional_count(self) -> nat {
        count_positionals(self.args)
    }

    /// Where the positional argument of slot `slot` (counted from zero) is
    /// declared, if it is.
    pub open spec fn positional_index(self, slot: int) -> Option<int> {
        self.place_index(slot + 1)
    }

    /// Where the positional argument with the one-based place `place` is
    /// declared, if it is.
    pub open spec fn place_index(self, place: int) -> Option<int> {
        if exists|i: int| first_at_place(self.args, place, i) {
            Some(choose|i: int| first_at_place(self.args, place, i))
        } else {
            None
        }
    }

    /// Where the last positional argument is declared, if it carries the
    /// trailing var-arg marker. Only then does the model declare trailing
    /// values.
    pub open spec fn trailing_index(self) -> Option<int> {
        if self.positional_count() == 0 {
            None
        } else {
            match self.positional_index(self.positional_count() - 1) {
                Some(i) => if self.args[i].trailing_var_arg {
                    Some(i)
                } else {
                    None
                },
                None => None,
            }
        }
    }

    /// Whether a subcommand called `name` is declared.
    pub open spec fn has_subcommand(self, name: Name) -> bool {
        exists|i: int|
            0 <= i < self.subcommands.len() && (#[trigger] self.subcommands[i]).name == name
    }

    /// Whether no two arguments share a name.
    pub open spec fn distinct_names(self) -> bool {
        forall|i: int, j: int|
            0 <= i < self.args.len() && 0 <= j < self.args.len() && i != j ==> (
            #[trigger] self.args[i]).name != (#[trigger] self.args[j]).name
    }

    /// Whether every name that an argument or a group lists is the name of a
    /// declared argument.
    pub open spec fn relations_declared(self) -> bool {
        &&& forall|i: int, n: Name|
            0 <= i < self.args.len() && (#[trigger] self.args[i].requires.contains(n))
                ==> self.declares(n)
        &&& forall|i: int, n: Name|
            0 <= i < self.args.len() && (#[trigger] self.args[i].conflicts_with.contains(n))
                ==> self.declares(n)
        &&& forall|i: int, n: Name|
            0 <= i < self.args.len() && (#[trigger] self.args[i].overrides_with.contains(n))
                ==> self.declares(n)
        &&& forall|g: int, n: Name|
            0 <= g < self.groups.len() && (#[trigger] self.groups[g].args.contains(n))
                ==> self.declares(n)
        &&& forall|g: int, n: Name|
            0 <= g < self.groups.len() && (#[trigger] self.groups[g].requires.contains(n))
                ==> self.declares(n)
    }

    /// Whether no argument overrides itself.
    pub open spec fn no_self_override(self) -> bool {
        forall|i: int|
            0 <= i < self.args.len() ==> !(#[trigger] self.args[i]).overrides_with.contains(
                self.args[i].name,
            )
    }

    /// The model is well formed: names are unique, the lists of arguments
    /// and groups name declared arguments only, and no argument overrides
    /// itself.
    pub open spec fn wf(self) -> bool {
        &&& self.distinct_names()
        &&& self.relations_declared()
        &&& self.no_self_override()
    }

}

/// The place found, as a mathematical integer.
pub open spec fn found_at(r: Option<usize>) -> Option<int> {
    match r {
        Some(i) => Some(i as int),
        None => None,
    }
}

/// There is at most one first place.
pub proof fn lemma_first_named_unique(args: Seq<ArgSpec>, name: Name, i: int, k: int)
    requires
        first_named(args, name, i),
        first_named(args, name, k),
    ensures
        i == k,
{
}

/// A name that is declared has a first place, and the other way round.
pub proof fn lemma_declares_iff_index(app: AppSpec, name: Name)
    ensures
        app.declares(name) <==> app.arg_index(name) is Some,
        app.arg_index(name) matches Some(i) ==> first_named(app.args, name, i),
{
    if app.declares(name) {
        let k = choose|k: int| 0 <= k < app.args.len() && (#[trigger] app.args[k]).name == name;
        lemma_least_named(app.args, name, k);
    }
    if app.arg_index(name) is Some {
        let i = choose|i: int| first_named(app.args, name, i);
        assert(app.args[i].name == name);
    }
}

/// Below any place that holds `name` there is a first one.
pub proof fn lemma_least_named(args: Seq<ArgSpec>, name: Name, k: int)
    requires
        0 <= k < args.len(),
        args[k].name == name,
    ensures
        exists|i: int| first_named(args, name, i),
    decreases k,
{
    if forall|j: int| 0 <= j < k ==> args[j].name != name {
        assert(first_named(args, name, k));
    } else {
        let j = choose|j: int| 0 <= j < k && args[j].name == name;
        lemma_least_named(args, name, j);
    }
}

impl App {
    /// Looks up the argument called `name`.
    pub fn find_arg(&self, name: &str) -> (r: Option<usize>)
        ensures
            found_at(r) == self@.arg_index(name@),
            r matches Some(i) ==> i < self.args.len() && self.args[i as int].name@ == name@,
    {
        let mut i: usize = 0;
        while i < self.args.len()
            invariant
                i <= self.args.len(),
                forall|j: int| 0 <= j < i ==> args_of(self.args@)[j].name != name@,
            decreases self.args.len() - i,
        {
            if str_eq(self.args[i].name.as_str(), name) {
                proof {
                    assert(first_named(self@.args, name@, i as int));
                    let k = choose|k: int| first_named(self@.args, name@, k);
                    lemma_first_named_unique(self@.args, name@, i as int, k);
                }
                return Some(i);
            }
            i += 1;
        }
        proof {
            assert forall|k: int| !first_named(self@.args, name@, k) by {
                if 0 <= k < self.args.len() {
                    assert(args_of(self.args@)[k].name != name@);
                }
            }
        }
        None
    }

    /// Looks up the flag or option that is written `--long`.
    pub fn find_long(&self, long: &str) -> (r: Option<usize>)
        ensures
            found_at(r) == self@.long_index(long@),
            r matches Some(i) ==> i < self.args.len(),
    {
        let mut i: usize = 0;
        while i < self.args.len()
            invariant
                i <= self.args.len(),
                forall|j: int|
                    0 <= j < i ==> !(!(#[trigger] args_of(self.args@)[j]).is_positional()
                        && args_of(self.args@)[j].long == Some(long@)),
            decreases self.args.len() - i,
        {
            let a = &self.args[i];
            let positional = match a.kind {
                ArgKind::Positional(_) => true,
                _ => false,
            };
            let same = match &a.long {
                Some(l) => str_eq(l.as_str(), long),
                None => false,
            };
            if !positional && same {
                proof {
                    assert(first_long(self@.args, long@, i as int));
                    let k = choose|k: int| first_long(self@.args, long@, k);
                    assert(k == i) by {
                        if k < i {
                            assert(!(!args_of(self.args@)[k].is_positional() && args_of(
                                self.args@,
                            )[k].long == Some(long@)));
                        } else if i < k {
                            assert(!(!self@.args[i as int].is_positional() && self@.args[i as int].long
                                == Some(long@)));
                        }
                    }
                }
                return Some(i);
            }
            assert(!(!args_of(self.args@)[i as int].is_positional() && args_of(
                self.args@,
            )[i as int].long == Some(long@)));
            i += 1;
        }
        proof {
            assert forall|k: int| !first_long(self@.args, long@, k) by {
                if 0 <= k < self.args.len() {
                    assert(!(!args_of(self.args@)[k].is_positional() && args_of(self.args@)[k].long
                        == Some(long@)));
                }
            }
        }
        None
    }

    /// Looks up the flag or option that is written `-short`.
    pub fn find_short(&self, short: char) -> (r: Option<usize>)
        ensures
            found_at(r) == self@.short_index(short),
            r matches Some(i) ==> i < self.args.len(),
    {
        let mut i: usize = 0;
        while i < self.args.len()
            invariant
                i <= self.args.len(),
                forall|j: int|
                    0 <= j < i ==> !(!(#[trigger] args_of(self.args@)[j]).is_positional()
                        && args_of(self.args@)[j].short == Some(short)),
            decreases self.args.len() - i,
        {
            let a = &self.args[i];
            let positional = match a.kind {
                ArgKind::Positional(_) => true,
                _ => false,
            };
            let same = match a.short {
                Some(c) => c == short,
                None => false,
            };
            if !positional && same {
                proof {
                    assert(first_short(self@.args, short, i as int));
                    let k = choose|k: int| first_short(self@.args, short, k);
                    assert(k == i) by {
                        if k < i {
                            assert(!(!args_of(self.args@)[k].is_positional() && args_of(
                                self.args@,
                            )[k].short == Some(short)));
                        } else if i < k {
                            assert(!(!self@.args[i as int].is_positional()
                                && self@.args[i as int].short == Some(short)));
                        }
                    }
                }
                return Some(i);
            }
            assert(!(!args_of(self.args@)[i as int].is_positional() && args_of(
                self.args@,
            )[i as int].short == Some(short)));
            i += 1;
        }
        proof {
            assert forall|k: int| !first_short(self@.args, short, k) by {
                if 0 <= k < self.args.len() {
                    assert(!(!args_of(self.args@)[k].is_positional() && args_of(
                        self.args@,
                    )[k].short == Some(short)));
                }
            }
        }
        None
    }

    /// Counts the positional arguments.
    pub fn positional_count(&self) -> (n: usize)
        ensures
            n == self@.positional_count(),
    {
        let mut n: usize = 0;
        let mut i: usize = 0;
        proof {
            assert(args_of(self.args@).take(0) =~= Seq::<ArgSpec>::empty());
        }
        while i < self.args.len()
            invariant
                i <= self.args.len(),
                n <= i,
                n == count_positionals(args_of(self.args@).take(i as int)),
            decreases self.args.len() - i,
        {
            proof {
                let next = args_of(self.args@).take(i + 1);
                assert(next.drop_last() =~= args_of(self.args@).take(i as int));
                assert(next.last() == self.args@[i as int]@);
            }
            match self.args[i].kind {
                ArgKind::Positional(_) => {
                    n += 1;
                },
                _ => {},
            }
            i += 1;
        }
        proof {
            assert(args_of(self.args@).take(self.args.len() as int) =~= args_of(self.args@));
        }
        n
    }

    /// Looks up the positional argument of slot `slot`, counted from zero.
    pub fn positional_at(&self, slot: usize) -> (r: Option<usize>)
        ensures
            found_at(r) == self@.positional_index(slot as int),
            r matches Some(i) ==> i < self.args.len(),
    {
        let mut i: usize = 0;
        while i < self.args.len()
            invariant
                i <= self.args.len(),
                forall|j: int|
                    0 <= j < i ==> !((#[trigger] args_of(self.args@)[j]).kind matches ArgKind::Positional(
                        p,
                    ) && p == slot + 1),
            decreases self.args.len() - i,
        {
            let hit = match self.args[i].kind {
                ArgKind::Positional(p) => p > 0 && p - 1 == slot,
                _ => false,
            };
            if hit {
                proof {
                    let place = slot + 1;
                    assert(first_at_place(self@.args, place, i as int));
                    let k = choose|k: int| first_at_place(self@.args, place, k);
                    assert(k == i) by {
                        if k < i {
                            assert(!(args_of(self.args@)[k].kind matches ArgKind::Positional(p) && p
                                == slot + 1));
                        } else if i < k {
                            assert(!(self@.args[i as int].kind matches ArgKind::Positional(p) && p
                                == slot + 1));
                        }
                    }
                }
                return Some(i);
            }
            assert(!(args_of(self.args@)[i as int].kind matches ArgKind::Positional(p) && p == slot
                + 1));
            i += 1;
        }
        proof {
            let place = slot + 1;
            assert forall|k: int| !first_at_place(self@.args, place, k) by {
                if 0 <= k < self.args.len() {
                    assert(!(args_of(self.args@)[k].kind matches ArgKind::Positional(p) && p == slot
                        + 1));
                }
            }
        }
        None
    }

    /// Looks up the last positional argument if it takes trailing values.
    pub fn trailing_arg(&self) -> (r: Option<usize>)
        ensures
            found_at(r) == self@.trailing_index(),
            r matches Some(i) ==> i < self.args.len(),
    {
        let n = self.positional_count();
        if n == 0 {
            return None;
        }
        match self.positional_at(n - 1) {
            Some(i) => if self.args[i].trailing_var_arg {
                Some(i)
            } else {
                None
            },
            None => None,
        }
    }

    /// Tells whether a subcommand called `name` is declared.
    pub fn has_subcommand(&self, name: &str) -> (found: bool)
        ensures
            found == self@.has_subcommand(name@),
    {
        let mut i: usize = 0;
        while i < self.subcommands.len()
            invariant
                i <= self.subcommands.len(),
                forall|j: int|
                    0 <= j < i ==> (#[trigger] subcommands_of(self.subcommands@)[j]).name != name@,
            decreases self.subcommands.len() - i,
        {
            if str_eq(self.subcommands[i].name.as_str(), name) {
                assert(subcommands_of(self.subcommands@)[i as int].name == name@);
                return true;
            }
            i += 1;
        }
        false
    }
}

/// Whether every name in `list` is the name of a declared argument.
pub open spec fn lists_declared(app: AppSpec, list: Seq<Name>) -> bool {
    forall|n: Name| #[trigger] list.contains(n) ==> app.declares(n)
}

impl App {
    /// Tells whether every name in `list` is the name of a declared argument.
    fn declares_all(&self, list: &Vec<String>) -> (b: bool)
        ensures
            b == lists_declared(self@, names_of(list@)),
    {
        let mut k: usize = 0;
        while k < list.len()
            invariant
                k <= list.len(),
                forall|j: int| 0 <= j < k ==> self@.declares(#[trigger] names_of(list@)[j]),
            decreases list.len() - k,
        {
            proof {
                lemma_declares_iff_index(self@, list@[k as int]@);
            }
            if self.find_arg(list[k].as_str()).is_none() {
                assert(names_of(list@).contains(names_of(list@)[k as int]));
                return false;
            }
            k += 1;
        }
        proof {
            assert forall|n: Name| #[trigger] names_of(list@).contains(n) implies self@.declares(
                n,
            ) by {
                let j = choose|j: int| 0 <= j < names_of(list@).len() && names_of(list@)[j] == n;
                assert(self@.declares(names_of(list@)[j]));
            }
        }
        true
    }

    /// Tells whether the model is well formed: names are unique, the lists
    /// of arguments and groups name declared arguments only, and no argument
    /// overrides itself.
    pub fn is_well_formed(&self) -> (b: bool)
        ensures
            b == self@.wf(),
    {
        let mut i: usize = 0;
        while i < self.args.len()
            invariant
                i <= self.args.len(),
                forall|x: int, y: int|
                    0 <= x < i && 0 <= y < x ==> (#[trigger] self@.args[x]).name != (
                    #[trigger] self@.args[y]).name,
                forall|x: int|
                    0 <= x < i ==> !(#[trigger] self@.args[x]).overrides_with.contains(
                        self@.args[x].name,
                    ),
                forall|x: int|
                    0 <= x < i ==> lists_declared(self@, (#[trigger] self@.args[x]).requires)
                        && lists_declared(self@, self@.args[x].conflicts_with) && lists_declared(
                        self@,
                        self@.args[x].overrides_with,
                    ),
            decreases self.args.len() - i,
        {
            let a = &self.args[i];
            assert(self@.args[i as int] == a@);
            let mut j: usize = 0;
            while j < i
                invariant
                    j <= i < self.args.len(),
                    a == &self.args[i as int],
                    forall|y: int|
                        0 <= y < j ==> self@.args[i as int].name != (#[trigger] self@.args[y]).name,
                decreases i - j,
            {
                assert(self@.args[j as int] == self.args@[j as int]@);
                assert(self@.args[i as int] == self.args@[i as int]@);
                if str_eq(a.name.as_str(), self.args[j].name.as_str()) {
                    assert(!self@.distinct_names()) by {
                        assert(self@.args[i as int].name == self@.args[j as int].name);
                    }
                    return false;
                }
                j += 1;
            }
            if contains_name(&a.overrides_with, a.name.as_str()) {
                assert(!self@.no_self_override()) by {
                    assert(self@.args[i as int].overrides_with.contains(self@.args[i as int].name));
                }
                return false;
            }
            if !self.declares_all(&a.requires) || !self.declares_all(&a.conflicts_with)
                || !self.declares_all(&a.overrides_with) {
                assert(!self@.relations_declared()) by {
                    if !lists_declared(self@, a@.requires) {
                        let n = choose|n: Name| a@.requires.contains(n) && !self@.declares(n);
                        assert(self@.args[i as int].requires.contains(n));
                    } else if !lists_declared(self@, a@.conflicts_with) {
                        let n = choose|n: Name| a@.conflicts_with.contains(n) && !self@.declares(n);
                        assert(self@.args[i as int].conflicts_with.contains(n));
                    } else {
                        let n = choose|n: Name| a@.overrides_with.contains(n) && !self@.declares(n);
                        assert(self@.args[i as int].overrides_with.contains(n));
                    }
                }
                return false;
            }
            i += 1;
        }
        let mut g: usize = 0;
        while g < self.groups.len()
            invariant
                g <= self.groups.len(),
                forall|x: int|
                    0 <= x < g ==> lists_declared(self@, (#[trigger] self@.groups[x]).args)
                        && lists_declared(self@, self@.groups[x].requires),
            decreases self.groups.len() - g,
        {
            let grp = &self.groups[g];
            assert(self@.groups[g as int] == grp@);
            if !self.declares_all(&grp.args) || !self.declares_all(&grp.requires) {
                assert(!self@.relations_declared()) by {
                    if !lists_declared(self@, grp@.args) {
                        let n = choose|n: Name| grp@.args.contains(n) && !self@.declares(n);
                        assert(self@.groups[g as int].args.contains(n));
                    } else {
                        let n = choose|n: Name| grp@.requires.contains(n) && !self@.declares(n);
                        assert(self@.groups[g as int].requires.contains(n));
                    }
                }
                return false;
            }
            g += 1;
        }
        proof {
            assert(self@.distinct_names()) by {
                assert forall|x: int, y: int|
                    0 <= x < self@.args.len() && 0 <= y < self@.args.len() && x != y implies (
                #[trigger] self@.args[x]).name != (#[trigger] self@.args[y]).name by {
                    if y < x {
                    } else {
                        assert(self@.args[y].name != self@.args[x].name);
                    }
                }
            }
            assert(self@.relations_declared()) by {
                assert forall|x: int, n: Name|
                    0 <= x < self@.args.len() && (#[trigger] self@.args[x].requires.contains(
                        n,
                    )) implies self@.declares(n) by {
                    assert(lists_declared(self@, self@.args[x].requires));
                }
                assert forall|x: int, n: Name|
                    0 <= x < self@.args.len() && (#[trigger] self@.args[x].conflicts_with.contains(
                        n,
                    )) implies self@.declares(n) by {
                    assert(lists_declared(self@, self@.args[x].conflicts_with));
                }
                assert forall|x: int, n: Name|
                    0 <= x < self@.args.len() && (#[trigger] self@.args[x].overrides_with.contains(
                        n,
                    )) implies self@.declares(n) by {
                    assert(lists_declared(self@, self@.args[x].overrides_with));
                }
                assert forall|x: int, n: Name|
                    0 <= x < self@.groups.len() && (#[trigger] self@.groups[x].args.contains(
                        n,
                    )) implies self@.declares(n) by {
                    assert(lists_declared(self@, self@.groups[x].args));
                }
                assert forall|x: int, n: Name|
                    0 <= x < self@.groups.len() && (#[trigger] self@.groups[x].requires.contains(
                        n,
                    )) implies self@.declares(n) by {
                    assert(lists_declared(self@, self@.groups[x].requires));
                }
            }
        }
        true
    }
}

} // verus!
