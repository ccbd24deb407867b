//! The parse: tokens in, a ledger or the first violation out.
//!
//! Tokens are consumed strictly from left to right. A token that looks like an
//! option is resolved against the declared flags and options; a bare token is
//! a value of the option that still takes one, a subcommand, or the next
//! positional argument. Once trailing values are active, every token goes to
//! the last positional argument as it stands.

use vstd::prelude::*;
use vstd::string::StrSliceExecFns;
use crate::names::{Name, names_of, opt_name, str_eq, contains_name, lemma_names_push,
    lemma_filter_step, lemma_filter_ends};
use crate::args::{App, AppSpec, ArgKind, ArgSpec, found_at};
use crate::matcher::{ArgMatcher, MatchesSpec, Value};
use crate::resolver::{ResolverSpec, ResolverState, resolve, absent_names, not_present,
    lemma_resolve_frame};

verus! {

/// Why a parse failed.
#[derive(Clone, Debug, PartialEq, Eq)]
pub enum Error {
    /// At the end of the tokens these names were still pending.
    MissingRequiredArgument(Vec<String>),
    /// The first argument was matched while the second, which must not occur
    /// together with it, was in the ledger.
    ConflictingArguments(String, String),
    /// An argument that may occur once was matched again.
    UnexpectedRepeatedOccurrence(String),
    /// An option got fewer values than it takes: its name, the number it
    /// takes at least, and the number it got.
    ValueCountMismatch(String, u64, u64),
    /// A token that looks like an option, or a bare token for which no
    /// positional slot is left, matches nothing that is declared.
    UnknownArgument(String),
    /// A bare token for which no positional slot is left names none of the
    /// declared subcommands.
    InvalidSubcommand(String),
}

/// The mathematical value of an [`Error`].
#[verifier::ext_equal]
pub enum ErrorSpec {
    MissingRequiredArgument(Seq<Name>),
    ConflictingArguments(Name, Name),
    UnexpectedRepeatedOccurrence(Name),
    ValueCountMismatch(Name, nat, nat),
    UnknownArgument(Seq<char>),
    InvalidSubcommand(Seq<char>),
}

impl View for Error {
    type V = ErrorSpec;

    open spec fn view(&self) -> ErrorSpec {
        match self {
            Error::MissingRequiredArgument(names) => ErrorSpec::MissingRequiredArgument(
                names_of(names@),
            ),
            Error::ConflictingArguments(a, b) => ErrorSpec::ConflictingArguments(a@, b@),
            Error::UnexpectedRepeatedOccurrence(a) => ErrorSpec::UnexpectedRepeatedOccurrence(a@),
            Error::ValueCountMismatch(a, expected, got) => ErrorSpec::ValueCountMismatch(
                a@,
                *expected as nat,
                *got as nat,
            ),
            Error::UnknownArgument(t) => ErrorSpec::UnknownArgument(t@),
            Error::InvalidSubcommand(t) => ErrorSpec::InvalidSubcommand(t@),
        }
    }
}

/// How a token reads when option syntax applies.
pub enum TokenKind {
    /// Two hyphens and a name.
    Long(Name),
    /// One hyphen and one character.
    Short(char),
    /// One hyphen and more than one character.
    Cluster,
    /// Anything else.
    Bare,
}

/// Reads a token by its first characters.
pub open spec fn classify(t: Seq<char>) -> TokenKind {
    if t.len() >= 2 && t[0] == '-' {
        if t[1] == '-' {
            TokenKind::Long(t.subrange(2, t.len() as int))
        } else if t.len() == 2 {
            TokenKind::Short(t[1])
        } else {
            TokenKind::Cluster
        }
    } else {
        TokenKind::Bare
    }
}

/// An option that still takes values.
#[verifier::ext_equal]
pub struct PendingSpec {
    pub name: Name,
    /// Whether it takes more than one value.
    pub multiple_values: bool,
    /// Whether it has got a value already.
    pub got: bool,
}

/// The mathematical value of a [`Parser`]: everything a parse carries from
/// one token to the next.
#[verifier::ext_equal]
pub struct ParseSpec {
    pub matches: MatchesSpec,
    pub resolver: ResolverSpec,
    /// The slot of the positional argument that takes the next bare token,
    /// counted from zero.
    pub cursor: nat,
    pub pending: Option<PendingSpec>,
}

/// The part of a parse that decides how the next token is read. It does not
/// depend on what the ledger or the side tables hold.
#[verifier::ext_equal]
pub struct Shape {
    pub cursor: nat,
    pub pending: Option<PendingSpec>,
    pub trailing_values: bool,
    pub in_subcommand: bool,
}

/// What a token is bound to.
pub enum Binding {
    /// An occurrence of the flag or option declared at this place.
    Switch(int),
    /// An occurrence, with the token as its value, of the positional argument
    /// declared at this place.
    Positional(int),
    /// One more value of the option of this name.
    Value(Name),
    /// The name of the subcommand that ends the parse.
    Subcommand,
    /// A token after the subcommand, handed on as it stands.
    Passed,
}

impl ParseSpec {
    /// A parse before the first token.
    pub open spec fn initial(app: AppSpec) -> ParseSpec {
        ParseSpec {
            matches: MatchesSpec::empty(),
            resolver: ResolverSpec::initial(app),
            cursor: 0,
            pending: None,
        }
    }

    /// The part that decides how the next token is read.
    pub open spec fn shape(self) -> Shape {
        Shape {
            cursor: self.cursor,
            pending: self.pending,
            trailing_values: self.resolver.trailing_values,
            in_subcommand: self.matches.subcommand is Some,
        }
    }
}

/// The option that still waits for its first value, if there is one.
pub open spec fn starved(pending: Option<PendingSpec>) -> Option<Name> {
    match pending {
        Some(p) => if p.got {
            None
        } else {
            Some(p.name)
        },
        None => None,
    }
}

/// The transition into trailing values, evaluated before each token: it is
/// made when the last positional argument carries the marker and every slot
/// before it has been assigned.
pub open spec fn enters_trailing(app: AppSpec, sh: Shape) -> bool {
    !sh.trailing_values && app.trailing_index() is Some && sh.cursor == app.positional_count() - 1
}

/// A token that looks like an option; `found` is where the flag or option it
/// names is declared.
pub open spec fn bind_switch(sh: Shape, found: Option<int>, t: Seq<char>) -> Result<
    Binding,
    ErrorSpec,
> {
    if starved(sh.pending) is Some {
        Err(ErrorSpec::ValueCountMismatch(starved(sh.pending)->0, 1, 0))
    } else {
        match found {
            Some(idx) => Ok(Binding::Switch(idx)),
            None => Err(ErrorSpec::UnknownArgument(t)),
        }
    }
}

/// A bare token: a value of the option that still takes one, else a
/// subcommand, else a value of the positional argument at the cursor.
pub open spec fn bind_bare(app: AppSpec, sh: Shape, t: Seq<char>) -> Result<Binding, ErrorSpec> {
    match sh.pending {
        Some(p) => Ok(Binding::Value(p.name)),
        None => if app.has_subcommand(t) {
            Ok(Binding::Subcommand)
        } else {
            match app.positional_index(sh.cursor as int) {
                Some(idx) => Ok(Binding::Positional(idx)),
                None => if app.subcommands.len() > 0 {
                    Err(ErrorSpec::InvalidSubcommand(t))
                } else {
                    Err(ErrorSpec::UnknownArgument(t))
                },
            }
        },
    }
}

/// What the token `t` is bound to. After a subcommand every token is handed
/// on. Under trailing values every token is a value of the last positional
/// argument, whatever it looks like. Otherwise option syntax applies.
pub open spec fn bind(app: AppSpec, sh: Shape, t: Seq<char>) -> Result<Binding, ErrorSpec> {
    if sh.in_subcommand {
        Ok(Binding::Passed)
    } else if sh.trailing_values || enters_trailing(app, sh) {
        match app.trailing_index() {
            Some(idx) => Ok(Binding::Positional(idx)),
            None => Err(ErrorSpec::UnknownArgument(t)),
        }
    } else {
        match classify(t) {
            TokenKind::Long(l) => bind_switch(sh, app.long_index(l), t),
            TokenKind::Short(c) => bind_switch(sh, app.short_index(c), t),
            TokenKind::Cluster => bind_switch(sh, None, t),
            TokenKind::Bare => bind_bare(app, sh, t),
        }
    }
}

/// How the shape moves on when a token has been bound.
pub open spec fn advance(app: AppSpec, sh: Shape, b: Binding) -> Shape {
    match b {
        Binding::Switch(idx) => Shape {
            pending: if app.args[idx].kind is Opt {
                Some(
                    PendingSpec {
                        name: app.args[idx].name,
                        multiple_values: app.args[idx].multiple_values,
                        got: false,
                    },
                )
            } else {
                None
            },
            ..sh
        },
        Binding::Positional(idx) => {
            let trailing = sh.trailing_values || enters_trailing(app, sh);
            Shape {
                cursor: if app.args[idx].multiple || trailing {
                    sh.cursor
                } else {
                    sh.cursor + 1
                },
                trailing_values: trailing,
                ..sh
            }
        },
        Binding::Value(_) => Shape {
            pending: match sh.pending {
                Some(p) => if p.multiple_values {
                    Some(PendingSpec { got: true, ..p })
                } else {
                    None
                },
                None => None,
            },
            ..sh
        },
        Binding::Subcommand => Shape { in_subcommand: true, ..sh },
        Binding::Passed => sh,
    }
}

/// Whether `a` and `b` are members of one group that admits one member
/// only.
pub open spec fn share_exclusive_group(app: AppSpec, a: Name, b: Name) -> bool {
    exists|g: int|
        0 <= g < app.groups.len() && !(#[trigger] app.groups[g]).multiple
            && app.groups[g].args.contains(a) && app.groups[g].args.contains(b)
}

/// Whether `a` and `b` must not occur together: one names the other as a
/// conflict, or they are members of a group that admits one member only.
pub open spec fn in_conflict(app: AppSpec, a: ArgSpec, b: ArgSpec) -> bool {
    a.name != b.name && (a.conflicts_with.contains(b.name) || b.conflicts_with.contains(a.name)
        || share_exclusive_group(app, a.name, b.name))
}

/// `i` is the first place in the declarations of an argument that occurred
/// and must not occur together with `a`.
pub open spec fn first_conflicting(app: AppSpec, m: MatchesSpec, a: ArgSpec, i: int) -> bool {
    &&& 0 <= i < app.args.len()
    &&& m.present(app.args[i].name) && in_conflict(app, a, app.args[i])
    &&& forall|j: int|
        0 <= j < i ==> !(m.present((#[trigger] app.args[j]).name) && in_conflict(
            app,
            a,
            app.args[j],
        ))
}

/// Where the first argument is declared that occurred and must not occur
/// together with `a`.
pub open spec fn conflict_index(app: AppSpec, m: MatchesSpec, a: ArgSpec) -> Option<int> {
    if exists|i: int| first_conflicting(app, m, a, i) {
        Some(choose|i: int| first_conflicting(app, m, a, i))
    } else {
        None
    }
}

/// The conflict that a match of `a` runs into, if there is one.
pub open spec fn conflict(app: AppSpec, m: MatchesSpec, a: ArgSpec) -> Option<ErrorSpec> {
    match conflict_index(app, m, a) {
        Some(c) => Some(ErrorSpec::ConflictingArguments(a.name, app.args[c].name)),
        None => None,
    }
}

/// The constraint that a binding violates, given what the ledger holds: a
/// flag or option that may occur once and has occurred, then a conflict.
pub open spec fn violation(app: AppSpec, m: MatchesSpec, b: Binding) -> Option<ErrorSpec> {
    match b {
        Binding::Switch(idx) => if m.present(app.args[idx].name) && !app.args[idx].multiple {
            Some(ErrorSpec::UnexpectedRepeatedOccurrence(app.args[idx].name))
        } else {
            conflict(app, m, app.args[idx])
        },
        Binding::Positional(idx) => conflict(app, m, app.args[idx]),
        _ => None,
    }
}

/// What a match of the argument at `idx` does to the ledger and to the side
/// tables: it is recorded, with `value` if there is one, and the resolver
/// runs unless the same argument was processed last.
pub open spec fn apply_match(
    app: AppSpec,
    m: MatchesSpec,
    r: ResolverSpec,
    idx: int,
    value: Option<Value>,
) -> (MatchesSpec, ResolverSpec) {
    let a = app.args[idx];
    let m1 = m.record(app.groups, a.name, value);
    let (r1, m2) = if r.last == Some(a.name) {
        (r, m1)
    } else {
        resolve(app, a, r, m1)
    };
    (m2, ResolverSpec { last: Some(a.name), valid_arg_found: true, ..r1 })
}

/// What a binding does to the ledger and to the side tables.
pub open spec fn book(app: AppSpec, m: MatchesSpec, r: ResolverSpec, t: Seq<char>, b: Binding) -> (
    MatchesSpec,
    ResolverSpec,
) {
    match b {
        Binding::Switch(idx) => apply_match(app, m, r, idx, None),
        Binding::Positional(idx) => apply_match(app, m, r, idx, Some(t)),
        Binding::Value(n) => (m.add_value(n, t), r),
        Binding::Subcommand => (m.with_subcommand(t), r),
        Binding::Passed => (m.with_subcommand_arg(t), r),
    }
}

/// The parse after the token `t` has been bound to `b`, checked and booked.
pub open spec fn settle(app: AppSpec, st: ParseSpec, t: Seq<char>, b: Binding) -> Result<
    ParseSpec,
    ErrorSpec,
> {
    match violation(app, st.matches, b) {
        Some(e) => Err(e),
        None => {
            let sh = advance(app, st.shape(), b);
            let (m, r) = book(app, st.matches, st.resolver, t, b);
            Ok(
                ParseSpec {
                    matches: m,
                    resolver: ResolverSpec { trailing_values: sh.trailing_values, ..r },
                    cursor: sh.cursor,
                    pending: sh.pending,
                },
            )
        },
    }
}

/// What one token does to a parse: it is bound, the binding is checked
/// against the ledger, and it is booked.
pub open spec fn step(app: AppSpec, st: ParseSpec, t: Seq<char>) -> Result<ParseSpec, ErrorSpec> {
    match bind(app, st.shape(), t) {
        Ok(b) => settle(app, st, t, b),
        Err(e) => Err(e),
    }
}

/// What a sequence of tokens does to a parse, from left to right, up to the
/// first violation.
pub open spec fn run(app: AppSpec, st: ParseSpec, tokens: Seq<Seq<char>>) -> Result<
    ParseSpec,
    ErrorSpec,
>
    decreases tokens.len(),
{
    if tokens.len() == 0 {
        Ok(st)
    } else {
        match run(app, st, tokens.drop_last()) {
            Ok(s) => step(app, s, tokens.last()),
            Err(e) => Err(e),
        }
    }
}

/// The validation at the end of the tokens: an option that got no value, then
/// the names that are pending and did not occur.
pub open spec fn finish(st: ParseSpec) -> Result<MatchesSpec, ErrorSpec> {
    if starved(st.pending) is Some {
        Err(ErrorSpec::ValueCountMismatch(starved(st.pending)->0, 1, 0))
    } else {
        let missing = absent_names(st.matches, st.resolver.required);
        if missing.len() > 0 {
            Err(ErrorSpec::MissingRequiredArgument(missing))
        } else {
            Ok(st.matches)
        }
    }
}

/// The result of parsing `tokens` against `app`.
pub open spec fn parse_spec(app: AppSpec, tokens: Seq<Seq<char>>) -> Result<MatchesSpec, ErrorSpec> {
    match run(app, ParseSpec::initial(app), tokens) {
        Ok(s) => finish(s),
        Err(e) => Err(e),
    }
}

/// An option that still takes values.
#[derive(Clone, Debug)]
pub struct Pending {
    name: String,
    multiple_values: bool,
    got: bool,
}

impl View for Pending {
    type V = PendingSpec;

    closed spec fn view(&self) -> PendingSpec {
        PendingSpec { name: self.name@, multiple_values: self.multiple_values, got: self.got }
    }
}

/// One parse in progress. It owns its ledger and its side tables; nothing of
/// it outlives the parse or is shared with another.
#[derive(Clone, Debug)]
pub struct Parser {
    matcher: ArgMatcher,
    state: ResolverState,
    pos_counter: usize,
    pending: Option<Pending>,
}

impl View for Parser {
    type V = ParseSpec;

    closed spec fn view(&self) -> ParseSpec {
        ParseSpec {
            matches: self.matcher@,
            resolver: self.state@,
            cursor: self.pos_counter as nat,
            pending: match self.pending {
                Some(p) => Some(p@),
                None => None,
            },
        }
    }
}

/// Tells whether the arguments at `a` and `b` share a group that admits one
/// member only.
fn shares_exclusive_group(app: &App, a: usize, b: usize) -> (r: bool)
    requires
        a < app.args.len(),
        b < app.args.len(),
    ensures
        r == share_exclusive_group(app@, app@.args[a as int].name, app@.args[b as int].name),
{
    let an = &app.args[a].name;
    let bn = &app.args[b].name;
    assert(app@.args[a as int] == app.args@[a as int]@);
    assert(app@.args[b as int] == app.args@[b as int]@);
    let mut g: usize = 0;
    while g < app.groups.len()
        invariant
            g <= app.groups.len(),
            an@ == app@.args[a as int].name,
            bn@ == app@.args[b as int].name,
            forall|j: int|
                0 <= j < g ==> !(!(#[trigger] app@.groups[j]).multiple && app@.groups[j].args.contains(
                    an@,
                ) && app@.groups[j].args.contains(bn@)),
        decreases app.groups.len() - g,
    {
        let grp = &app.groups[g];
        assert(app@.groups[g as int] == grp@);
        if !grp.multiple && contains_name(&grp.args, an.as_str()) && contains_name(
            &grp.args,
            bn.as_str(),
        ) {
            return true;
        }
        g += 1;
    }
    false
}

/// Tells whether the arguments at `a` and `b` must not occur together.
fn conflicts(app: &App, a: usize, b: usize) -> (r: bool)
    requires
        a < app.args.len(),
        b < app.args.len(),
    ensures
        r == in_conflict(app@, app@.args[a as int], app@.args[b as int]),
{
    let x = &app.args[a];
    let y = &app.args[b];
    assert(app@.args[a as int] == x@);
    assert(app@.args[b as int] == y@);
    if str_eq(x.name.as_str(), y.name.as_str()) {
        return false;
    }
    contains_name(&x.conflicts_with, y.name.as_str()) || contains_name(
        &y.conflicts_with,
        x.name.as_str(),
    ) || shares_exclusive_group(app, a, b)
}

/// Looks up the first declared argument that occurred and must not occur
/// together with the one at `idx`.
pub fn find_conflict(app: &App, matcher: &ArgMatcher, idx: usize) -> (r: Option<usize>)
    requires
        matcher.wf(),
        idx < app.args.len(),
    ensures
        found_at(r) == conflict_index(app@, matcher@, app@.args[idx as int]),
        r matches Some(i) ==> i < app.args.len(),
{
    let ghost a = app@.args[idx as int];
    let mut i: usize = 0;
    while i < app.args.len()
        invariant
            i <= app.args.len(),
            matcher.wf(),
            idx < app.args.len(),
            a == app@.args[idx as int],
            forall|j: int|
                0 <= j < i ==> !(matcher@.present((#[trigger] app@.args[j]).name) && in_conflict(
                    app@,
                    a,
                    app@.args[j],
                )),
        decreases app.args.len() - i,
    {
        assert(app@.args[i as int] == app.args@[i as int]@);
        if matcher.is_present(app.args[i].name.as_str()) && conflicts(app, idx, i) {
            proof {
                assert(first_conflicting(app@, matcher@, a, i as int));
                let k = choose|k: int| first_conflicting(app@, matcher@, a, k);
                assert(k == i) by {
                    if k < i {
                        assert(!(matcher@.present(app@.args[k].name) && in_conflict(
                            app@,
                            a,
                            app@.args[k],
                        )));
                    } else if i < k {
                        assert(!(matcher@.present(app@.args[i as int].name) && in_conflict(
                            app@,
                            a,
                            app@.args[i as int],
                        )));
                    }
                }
            }
            return Some(i);
        }
        i += 1;
    }
    proof {
        assert forall|k: int| !first_conflicting(app@, matcher@, a, k) by {
            if 0 <= k < app.args.len() {
                assert(!(matcher@.present(app@.args[k].name) && in_conflict(app@, a, app@.args[k])));
            }
        }
    }
    None
}

/// What a token is bound to, as the parser holds it.
enum Bound {
    Switch(usize),
    Positional(usize),
    Value,
    Subcommand,
    Passed,
}

impl Parser {
    /// The parse is in order.
    pub closed spec fn wf(&self) -> bool {
        self.matcher.wf()
    }

    /// A parse before the first token.
    pub fn new(app: &App) -> (p: Parser)
        ensures
            p.wf(),
            p@ == ParseSpec::initial(app@),
    {
        Parser {
            matcher: ArgMatcher::new(),
            state: ResolverState::new(app),
            pos_counter: 0,
            pending: None,
        }
    }

    /// The ledger as it stands.
    pub fn matches(&self) -> (m: &ArgMatcher)
        requires
            self.wf(),
        ensures
            m.wf(),
            m@ == self@.matches,
    {
        &self.matcher
    }

    /// The side tables as they stand.
    pub fn state(&self) -> (st: &ResolverState)
        ensures
            st@ == self@.resolver,
    {
        &self.state
    }

    /// The slot of the positional argument that takes the next bare token.
    pub fn position(&self) -> (slot: usize)
        ensures
            slot == self@.cursor,
    {
        self.pos_counter
    }

    /// The binding as a mathematical value.
    spec fn binding(&self, b: Bound) -> Binding {
        match b {
            Bound::Switch(i) => Binding::Switch(i as int),
            Bound::Positional(i) => Binding::Positional(i as int),
            Bound::Value => Binding::Value(self@.pending->0.name),
            Bound::Subcommand => Binding::Subcommand,
            Bound::Passed => Binding::Passed,
        }
    }

    /// Tells whether this token makes the transition into trailing values.
    fn enters_trailing(&self, app: &App) -> (b: bool)
        ensures
            b == enters_trailing(app@, self@.shape()),
    {
        if self.state.trailing_values {
            return false;
        }
        match app.trailing_arg() {
            Some(_) => {
                let n = app.positional_count();
                n >= 1 && self.pos_counter == n - 1
            },
            None => false,
        }
    }

    /// Binds a token that looks like an option.
    fn bind_switch(&self, found: Option<usize>, token: &str) -> (r: Result<Bound, Error>)
        ensures
            match r {
                Ok(b) => bind_switch(self@.shape(), found_at(found), token@) == Ok::<
                    Binding,
                    ErrorSpec,
                >(self.binding(b)) && b is Switch,
                Err(e) => bind_switch(self@.shape(), found_at(found), token@) == Err::<
                    Binding,
                    ErrorSpec,
                >(e@),
            },
    {
        match &self.pending {
            Some(p) => {
                if !p.got {
                    return Err(Error::ValueCountMismatch(p.name.clone(), 1, 0));
                }
            },
            None => {},
        }
        match found {
            Some(idx) => Ok(Bound::Switch(idx)),
            None => Err(Error::UnknownArgument(token.to_owned())),
        }
    }

    /// Decides what `token` is bound to.
    fn bind(&self, app: &App, token: &str) -> (r: Result<Bound, Error>)
        requires
            self.wf(),
        ensures
            match r {
                Ok(b) => {
                    &&& bind(app@, self@.shape(), token@) == Ok::<Binding, ErrorSpec>(
                        self.binding(b),
                    )
                    &&& b matches Bound::Switch(i) ==> i < app.args.len()
                    &&& b matches Bound::Positional(i) ==> i < app.args.len() && (self@.cursor
                        < usize::MAX || self@.resolver.trailing_values || enters_trailing(
                        app@,
                        self@.shape(),
                    ))
                    &&& b is Value ==> self@.pending is Some
                },
                Err(e) => bind(app@, self@.shape(), token@) == Err::<Binding, ErrorSpec>(e@),
            },
    {
        if self.matcher.has_subcommand() {
            return Ok(Bound::Passed);
        }
        if self.state.trailing_values || self.enters_trailing(app) {
            return match app.trailing_arg() {
                Some(idx) => Ok(Bound::Positional(idx)),
                None => Err(Error::UnknownArgument(token.to_owned())),
            };
        }
        let len = token.unicode_len();
        if len >= 2 && token.get_char(0) == '-' {
            if token.get_char(1) == '-' {
                let found = app.find_long(token.substring_char(2, len));
                self.bind_switch(found, token)
            } else if len == 2 {
                let found = app.find_short(token.get_char(1));
                self.bind_switch(found, token)
            } else {
                self.bind_switch(None, token)
            }
        } else {
            match &self.pending {
                Some(_) => Ok(Bound::Value),
                None => {
                    if app.has_subcommand(token) {
                        return Ok(Bound::Subcommand);
                    }
                    match app.positional_at(self.pos_counter) {
                        Some(idx) => {
                            proof {
                                let place = self.pos_counter as int + 1;
                                let k = choose|k: int|
                                    crate::args::first_at_place(app@.args, place, k);
                                assert(k == idx);
                            }
                            Ok(Bound::Positional(idx))
                        },
                        None => {
                            if app.subcommands.len() > 0 {
                                Err(Error::InvalidSubcommand(token.to_owned()))
                            } else {
                                Err(Error::UnknownArgument(token.to_owned()))
                            }
                        },
                    }
                },
            }
        }
    }

    /// Records a match of the argument at `idx` and runs the resolver unless
    /// the same argument was processed last.
    fn matched(&mut self, app: &App, idx: usize, value: Option<String>)
        requires
            old(self).wf(),
            idx < app.args.len(),
            old(self)@.matches.occurrences(app@.args[idx as int].name) < u64::MAX,
        ensures
            final(self).wf(),
            (final(self)@.matches, final(self)@.resolver) == apply_match(
                app@,
                old(self)@.matches,
                old(self)@.resolver,
                idx as int,
                opt_name(value),
            ),
            final(self)@.cursor == old(self)@.cursor,
            final(self)@.pending == old(self)@.pending,
            final(self)@.resolver.trailing_values == old(self)@.resolver.trailing_values,
            final(self)@.matches.subcommand == old(self)@.matches.subcommand,
    {
        let a = &app.args[idx];
        assert(app@.args[idx as int] == a@);
        self.matcher.record(app, a.name.as_str(), value);
        let fresh = match &self.state.cache {
            Some(c) => !str_eq(c.as_str(), a.name.as_str()),
            None => true,
        };
        if fresh {
            proof {
                lemma_resolve_frame(app@, a@, self.state@, self.matcher@);
            }
            self.state.arg_post_processing(app, &mut self.matcher, idx);
        }
        self.state.cache = Some(a.name.clone());
        self.state.valid_arg_found = true;
    }

    /// Reports the conflict that a match of the argument at `idx` runs into.
    fn check_conflict(&self, app: &App, idx: usize) -> (r: Option<Error>)
        requires
            self.wf(),
            idx < app.args.len(),
        ensures
            match r {
                Some(e) => conflict(app@, self@.matches, app@.args[idx as int]) == Some(e@),
                None => conflict(app@, self@.matches, app@.args[idx as int]) is None,
            },
    {
        assert(app@.args[idx as int] == app.args@[idx as int]@);
        match find_conflict(app, &self.matcher, idx) {
            Some(c) => {
                assert(app@.args[c as int] == app.args@[c as int]@);
                Some(
                    Error::ConflictingArguments(app.args[idx].name.clone(), app.args[c].name.clone()),
                )
            },
            None => None,
        }
    }

    /// Matches `token` against the positional argument at `idx`.
    ///
    /// Before the token is consumed, the transition into trailing values is
    /// made if it is due. Then the token is recorded, the resolver runs
    /// unless the same argument was processed last, and the cursor moves on,
    /// unless the argument may occur again or trailing values are active.
    pub fn parse_positional(&mut self, app: &App, idx: usize, token: &str) -> (r: Result<
        (),
        Error,
    >)
        requires
            old(self).wf(),
            idx < app.args.len(),
            old(self)@.matches.occurrences(app@.args[idx as int].name) < u64::MAX,
            old(self)@.cursor < usize::MAX || app@.args[idx as int].multiple
                || old(self)@.resolver.trailing_values || enters_trailing(
                app@,
                old(self)@.shape(),
            ),
        ensures
            final(self).wf(),
            match r {
                Ok(()) => settle(app@, old(self)@, token@, Binding::Positional(idx as int)) == Ok::<
                    ParseSpec,
                    ErrorSpec,
                >(final(self)@),
                Err(e) => settle(app@, old(self)@, token@, Binding::Positional(idx as int)) == Err::<
                    ParseSpec,
                    ErrorSpec,
                >(e@) && final(self)@ == old(self)@,
            },
    {
        let a = &app.args[idx];
        assert(app@.args[idx as int] == a@);
        match self.check_conflict(app, idx) {
            Some(e) => {
                return Err(e);
            },
            None => {},
        }
        let trailing = self.state.trailing_values || self.enters_trailing(app);
        self.matched(app, idx, Some(token.to_owned()));
        self.state.trailing_values = trailing;
        if !(a.multiple || trailing) {
            self.pos_counter += 1;
        }
        Ok(())
    }

    /// Checks the binding against the ledger and books it.
    fn settle(&mut self, app: &App, token: &str, bound: Bound) -> (r: Result<(), Error>)
        requires
            old(self).wf(),
            old(self)@.matches.below((u64::MAX - 1) as nat),
            bound matches Bound::Switch(i) ==> i < app.args.len(),
            bound matches Bound::Positional(i) ==> i < app.args.len() && (old(self)@.cursor
                < usize::MAX || old(self)@.resolver.trailing_values || enters_trailing(
                app@,
                old(self)@.shape(),
            )),
            bound is Value ==> old(self)@.pending is Some,
        ensures
            final(self).wf(),
            match r {
                Ok(()) => settle(app@, old(self)@, token@, old(self).binding(bound)) == Ok::<
                    ParseSpec,
                    ErrorSpec,
                >(final(self)@),
                Err(e) => settle(app@, old(self)@, token@, old(self).binding(bound)) == Err::<
                    ParseSpec,
                    ErrorSpec,
                >(e@) && final(self)@ == old(self)@,
            },
    {
        match bound {
            Bound::Switch(idx) => {
                let a = &app.args[idx];
                assert(app@.args[idx as int] == a@);
                if self.matcher.is_present(a.name.as_str()) && !a.multiple {
                    return Err(Error::UnexpectedRepeatedOccurrence(a.name.clone()));
                }
                match self.check_conflict(app, idx) {
                    Some(e) => {
                        return Err(e);
                    },
                    None => {},
                }
                assert(self@.matches.occurrences(a@.name) <= u64::MAX - 1);
                self.matched(app, idx, None);
                self.pending = match a.kind {
                    ArgKind::Opt => Some(
                        Pending {
                            name: a.name.clone(),
                            multiple_values: a.multiple_values,
                            got: false,
                        },
                    ),
                    _ => None,
                };
                Ok(())
            },
            Bound::Positional(idx) => {
                proof {
                    assert(app@.args[idx as int] == app.args@[idx as int]@);
                    assert(self@.matches.occurrences(app@.args[idx as int].name) <= u64::MAX - 1);
                }
                self.parse_positional(app, idx, token)
            },
            Bound::Value => {
                let pending = self.pending.take();
                match pending {
                    Some(p) => {
                        self.matcher.add_val_to(p.name.as_str(), token.to_owned());
                        if p.multiple_values {
                            self.pending = Some(
                                Pending { name: p.name, multiple_values: true, got: true },
                            );
                        }
                    },
                    None => {},
                }
                Ok(())
            },
            Bound::Subcommand => {
                self.matcher.set_subcommand(token);
                Ok(())
            },
            Bound::Passed => {
                self.matcher.push_subcommand_arg(token);
                Ok(())
            },
        }
    }

    /// Consumes one token. A token that violates a constraint is reported
    /// and leaves the parser as it was.
    pub fn feed(&mut self, app: &App, token: &str) -> (r: Result<(), Error>)
        requires
            old(self).wf(),
            old(self)@.matches.below((u64::MAX - 1) as nat),
        ensures
            final(self).wf(),
            match r {
                Ok(()) => step(app@, old(self)@, token@) == Ok::<ParseSpec, ErrorSpec>(
                    final(self)@,
                ),
                Err(e) => step(app@, old(self)@, token@) == Err::<ParseSpec, ErrorSpec>(e@)
                    && final(self)@ == old(self)@,
            },
    {
        match self.bind(app, token) {
            Ok(bound) => self.settle(app, token, bound),
            Err(e) => Err(e),
        }
    }

    /// Ends the parse: reports an option that got no value, then the names
    /// that are pending and did not occur, and hands out the ledger if there
    /// is neither.
    pub fn finish(self) -> (r: Result<ArgMatcher, Error>)
        requires
            self.wf(),
        ensures
            match r {
                Ok(m) => m.wf() && finish(self@) == Ok::<MatchesSpec, ErrorSpec>(m@),
                Err(e) => finish(self@) == Err::<MatchesSpec, ErrorSpec>(e@),
            },
    {
        match &self.pending {
            Some(p) => {
                if !p.got {
                    return Err(Error::ValueCountMismatch(p.name.clone(), 1, 0));
                }
            },
            None => {},
        }
        let ghost all = names_of(self.state.required@);
        let ghost pred = not_present(self.matcher@);
        let mut missing: Vec<String> = Vec::new();
        let mut i: usize = 0;
        proof {
            lemma_filter_ends(all, pred);
            assert(names_of(missing@) =~= Seq::<Name>::empty());
        }
        while i < self.state.required.len()
            invariant
                i <= self.state.required.len(),
                self.matcher.wf(),
                all == names_of(self.state.required@),
                pred == not_present(self.matcher@),
                names_of(missing@) == all.take(i as int).filter(pred),
            decreases self.state.required.len() - i,
        {
            proof {
                lemma_filter_step(all, pred, i as int);
                assert(all[i as int] == self.state.required@[i as int]@);
            }
            if !self.matcher.is_present(self.state.required[i].as_str()) {
                let owned = self.state.required[i].clone();
                proof {
                    lemma_names_push(missing@, owned);
                }
                missing.push(owned);
            }
            i += 1;
        }
        proof {
            lemma_filter_ends(all, pred);
        }
        if missing.len() > 0 {
            Err(Error::MissingRequiredArgument(missing))
        } else {
            Ok(self.matcher)
        }
    }
}

/// No name occurs more than once more often after a token than before it.
pub proof fn lemma_step_below(app: AppSpec, st: ParseSpec, t: Seq<char>, bound: nat)
    requires
        st.matches.below(bound),
        step(app, st, t) is Ok,
    ensures
        step(app, st, t)->Ok_0.matches.below(bound + 1),
{
    let s2 = step(app, st, t)->Ok_0;
    assert forall|n: Name| s2.matches.occurrences(n) <= bound + 1 by {
        assert(st.matches.occurrences(n) <= bound);
    }
}

/// Parses `tokens` against `app`.
///
/// Each call starts from a fresh ledger and fresh side tables and reads
/// nothing but its two arguments, so one parse cannot see another.
pub fn parse(app: &App, tokens: &Vec<String>) -> (r: Result<ArgMatcher, Error>)
    ensures
        match r {
            Ok(m) => m.wf() && parse_spec(app@, names_of(tokens@)) == Ok::<MatchesSpec, ErrorSpec>(
                m@,
            ),
            Err(e) => parse_spec(app@, names_of(tokens@)) == Err::<MatchesSpec, ErrorSpec>(e@),
        },
{
    let mut parser = Parser::new(app);
    let ghost start = ParseSpec::initial(app@);
    let ghost all = names_of(tokens@);
    let mut i: usize = 0;
    proof {
        assert(all.take(0) =~= Seq::<Seq<char>>::empty());
    }
    while i < tokens.len()
        invariant
            i <= tokens.len(),
            parser.wf(),
            all == names_of(tokens@),
            start == ParseSpec::initial(app@),
            run(app@, start, all.take(i as int)) == Ok::<ParseSpec, ErrorSpec>(parser@),
            parser@.matches.below(i as nat),
        decreases tokens.len() - i,
    {
        let ghost before = parser@;
        proof {
            let next = all.take(i + 1);
            assert(next.drop_last() =~= all.take(i as int));
            assert(next.last() == tokens@[i as int]@);
            assert forall|n: Name| before.matches.occurrences(n) <= (u64::MAX - 1) as nat by {
                assert(before.matches.occurrences(n) <= i);
            }
        }
        match parser.feed(app, tokens[i].as_str()) {
            Ok(()) => {
                proof {
                    lemma_step_below(app@, before, tokens@[i as int]@, i as nat);
                }
            },
            Err(e) => {
                proof {
                    lemma_run_error(app@, start, all, i + 1);
                }
                return Err(e);
            },
        }
        i += 1;
    }
    proof {
        assert(all.take(tokens.len() as int) =~= all);
    }
    parser.finish()
}

/// A violation found in a prefix of the tokens is the violation of the whole.
pub proof fn lemma_run_error(app: AppSpec, st: ParseSpec, tokens: Seq<Seq<char>>, k: int)
    requires
        0 <= k <= tokens.len(),
        run(app, st, tokens.take(k)) is Err,
    ensures
        run(app, st, tokens) == run(app, st, tokens.take(k)),
    decreases tokens.len(),
{
    if k == tokens.len() {
        assert(tokens.take(k) =~= tokens);
    } else {
        let init = tokens.drop_last();
        assert(init.take(k) =~= tokens.take(k));
        lemma_run_error(app, st, init, k);
    }
}

} // verus!
