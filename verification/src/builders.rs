//! Building a specification model, one declaration at a time.
//!
//! Every method takes the value built so far and hands back the same value
//! with one thing added or set; nothing else changes.

use vstd::prelude::*;
use crate::names::{names_of, lemma_names_push};
use crate::args::{App, AppSpec, Arg, ArgGroup, ArgKind, ArgSpec, GroupSpec, SubCommand,
    SubCommandSpec, args_of, groups_of, subcommands_of};

verus! {

impl Arg {
    /// A flag called `name` with nothing else set.
    pub fn with_name(name: &str) -> (a: Arg)
        ensures
            a@ == (ArgSpec {
                name: name@,
                kind: ArgKind::Flag,
                short: None,
                long: None,
                help: None,
                long_help: None,
                required: false,
                multiple: false,
                multiple_values: false,
                trailing_var_arg: false,
                hidden: false,
                next_line_help: false,
                hide_default_value: false,
                hide_possible_values: false,
                requires: Seq::empty(),
                conflicts_with: Seq::empty(),
                overrides_with: Seq::empty(),
                default_value: None,
                possible_values: Seq::empty(),
                visible_aliases: Seq::empty(),
                display_order: 999,
            }),
    {
        let a = Arg {
            name: name.to_owned(),
            kind: ArgKind::Flag,
            short: None,
            long: None,
            help: None,
            long_help: None,
            required: false,
            multiple: false,
            multiple_values: false,
            trailing_var_arg: false,
            hidden: false,
            next_line_help: false,
            hide_default_value: false,
            hide_possible_values: false,
            requires: Vec::new(),
            conflicts_with: Vec::new(),
            overrides_with: Vec::new(),
            default_value: None,
            possible_values: Vec::new(),
            visible_aliases: Vec::new(),
            display_order: 999,
        };
        proof {
            assert(names_of(a.requires@) =~= Seq::empty());
            assert(names_of(a.conflicts_with@) =~= Seq::empty());
            assert(names_of(a.overrides_with@) =~= Seq::empty());
            assert(names_of(a.possible_values@) =~= Seq::empty());
            assert(names_of(a.visible_aliases@) =~= Seq::empty());
        }
        a
    }

    /// Sets the one-character form, written with one hyphen.
    pub fn short(self, c: char) -> (a: Arg)
        ensures
            a@ == (ArgSpec { short: Some(c), ..self@ }),
    {
        let mut a = self;
        a.short = Some(c);
        a
    }

    /// Sets the long form, written with two hyphens.
    pub fn long(self, l: &str) -> (a: Arg)
        ensures
            a@ == (ArgSpec { long: Some(l@), ..self@ }),
    {
        let mut a = self;
        a.long = Some(l.to_owned());
        a
    }

    /// Sets the short help text.
    pub fn help(self, h: &str) -> (a: Arg)
        ensures
            a@ == (ArgSpec { help: Some(h@), ..self@ }),
    {
        let mut a = self;
        a.help = Some(h.to_owned());
        a
    }

    /// Sets the long help text.
    pub fn long_help(self, h: &str) -> (a: Arg)
        ensures
            a@ == (ArgSpec { long_help: Some(h@), ..self@ }),
    {
        let mut a = self;
        a.long_help = Some(h.to_owned());
        a
    }

    /// Makes the argument an option that takes values, or a flag again.
    /// A positional argument stays what it is.
    pub fn takes_value(self, yes: bool) -> (a: Arg)
        ensures
            a@ == (ArgSpec {
                kind: if self@.kind is Positional {
                    self@.kind
                } else if yes {
                    ArgKind::Opt
                } else {
                    ArgKind::Flag
                },
                ..self@
            }),
    {
        let mut a = self;
        a.kind = match a.kind {
            ArgKind::Positional(p) => ArgKind::Positional(p),
            _ => if yes {
                ArgKind::Opt
            } else {
                ArgKind::Flag
            },
        };
        a
    }

    /// Makes the argument positional, at the place `place` counted from one.
    pub fn index(self, place: usize) -> (a: Arg)
        ensures
            a@ == (ArgSpec { kind: ArgKind::Positional(place), ..self@ }),
    {
        let mut a = self;
        a.kind = ArgKind::Positional(place);
        a
    }

    /// Says whether the argument is required outright.
    pub fn required(self, yes: bool) -> (a: Arg)
        ensures
            a@ == (ArgSpec { required: yes, ..self@ }),
    {
        let mut a = self;
        a.required = yes;
        a
    }

    /// Says whether the argument may occur more than once.
    pub fn multiple(self, yes: bool) -> (a: Arg)
        ensures
            a@ == (ArgSpec { multiple: yes, ..self@ }),
    {
        let mut a = self;
        a.multiple = yes;
        a
    }

    /// Says whether one occurrence of the option takes more than one value.
    pub fn multiple_values(self, yes: bool) -> (a: Arg)
        ensures
            a@ == (ArgSpec { multiple_values: yes, ..self@ }),
    {
        let mut a = self;
        a.multiple_values = yes;
        a
    }

    /// Says whether the argument, if it is the last positional one, takes
    /// every token that is left once the slots before it are filled.
    pub fn trailing_var_arg(self, yes: bool) -> (a: Arg)
        ensures
            a@ == (ArgSpec { trailing_var_arg: yes, ..self@ }),
    {
        let mut a = self;
        a.trailing_var_arg = yes;
        a
    }

    /// Says whether help leaves the argument out.
    pub fn hidden(self, yes: bool) -> (a: Arg)
        ensures
            a@ == (ArgSpec { hidden: yes, ..self@ }),
    {
        let mut a = self;
        a.hidden = yes;
        a
    }

    /// Says whether help puts the argument's text on a line of its own.
    pub fn next_line_help(self, yes: bool) -> (a: Arg)
        ensures
            a@ == (ArgSpec { next_line_help: yes, ..self@ }),
    {
        let mut a = self;
        a.next_line_help = yes;
        a
    }

    /// Says whether help leaves out the default value.
    pub fn hide_default_value(self, yes: bool) -> (a: Arg)
        ensures
            a@ == (ArgSpec { hide_default_value: yes, ..self@ }),
    {
        let mut a = self;
        a.hide_default_value = yes;
        a
    }

    /// Says whether help leaves out the possible values.
    pub fn hide_possible_values(self, yes: bool) -> (a: Arg)
        ensures
            a@ == (ArgSpec { hide_possible_values: yes, ..self@ }),
    {
        let mut a = self;
        a.hide_possible_values = yes;
        a
    }

    /// Adds a name that becomes required once this argument is matched.
    pub fn requiring(self, name: &str) -> (a: Arg)
        ensures
            a@ == (ArgSpec { requires: self@.requires.push(name@), ..self@ }),
    {
        let mut a = self;
        let owned = name.to_owned();
        proof {
            lemma_names_push(a.requires@, owned);
        }
        a.requires.push(owned);
        a
    }

    /// Adds a name that must not occur together with this argument.
    pub fn conflicts_with(self, name: &str) -> (a: Arg)
        ensures
            a@ == (ArgSpec { conflicts_with: self@.conflicts_with.push(name@), ..self@ }),
    {
        let mut a = self;
        let owned = name.to_owned();
        proof {
            lemma_names_push(a.conflicts_with@, owned);
        }
        a.conflicts_with.push(owned);
        a
    }

    /// Adds a name whose earlier match this argument supersedes.
    pub fn overrides_with(self, name: &str) -> (a: Arg)
        ensures
            a@ == (ArgSpec { overrides_with: self@.overrides_with.push(name@), ..self@ }),
    {
        let mut a = self;
        let owned = name.to_owned();
        proof {
            lemma_names_push(a.overrides_with@, owned);
        }
        a.overrides_with.push(owned);
        a
    }

    /// Sets the value that help shows as the default.
    pub fn default_value(self, value: &str) -> (a: Arg)
        ensures
            a@ == (ArgSpec { default_value: Some(value@), ..self@ }),
    {
        let mut a = self;
        a.default_value = Some(value.to_owned());
        a
    }

    /// Adds a value to those that help shows as possible.
    pub fn possible_value(self, value: &str) -> (a: Arg)
        ensures
            a@ == (ArgSpec { possible_values: self@.possible_values.push(value@), ..self@ }),
    {
        let mut a = self;
        let owned = value.to_owned();
        proof {
            lemma_names_push(a.possible_values@, owned);
        }
        a.possible_values.push(owned);
        a
    }

    /// Adds an alias that help shows.
    pub fn visible_alias(self, alias: &str) -> (a: Arg)
        ensures
            a@ == (ArgSpec { visible_aliases: self@.visible_aliases.push(alias@), ..self@ }),
    {
        let mut a = self;
        let owned = alias.to_owned();
        proof {
            lemma_names_push(a.visible_aliases@, owned);
        }
        a.visible_aliases.push(owned);
        a
    }

    /// Sets the rank by which help orders the argument.
    pub fn display_order(self, order: usize) -> (a: Arg)
        ensures
            a@ == (ArgSpec { display_order: order, ..self@ }),
    {
        let mut a = self;
        a.display_order = order;
        a
    }
}

impl ArgGroup {
    /// A group called `name` without members, which admits one member only.
    pub fn with_name(name: &str) -> (g: ArgGroup)
        ensures
            g@ == (GroupSpec {
                name: name@,
                args: Seq::empty(),
                requires: Seq::empty(),
                multiple: false,
            }),
    {
        let g = ArgGroup {
            name: name.to_owned(),
            args: Vec::new(),
            requires: Vec::new(),
            multiple: false,
        };
        proof {
            assert(names_of(g.args@) =~= Seq::empty());
            assert(names_of(g.requires@) =~= Seq::empty());
        }
        g
    }

    /// Adds a member.
    pub fn arg(self, name: &str) -> (g: ArgGroup)
        ensures
            g@ == (GroupSpec { args: self@.args.push(name@), ..self@ }),
    {
        let mut g = self;
        let owned = name.to_owned();
        proof {
            lemma_names_push(g.args@, owned);
        }
        g.args.push(owned);
        g
    }

    /// Adds a name that becomes required once a member is matched.
    pub fn requiring(self, name: &str) -> (g: ArgGroup)
        ensures
            g@ == (GroupSpec { requires: self@.requires.push(name@), ..self@ }),
    {
        let mut g = self;
        let owned = name.to_owned();
        proof {
            lemma_names_push(g.requires@, owned);
        }
        g.requires.push(owned);
        g
    }

    /// Says whether more than one member may occur.
    pub fn multiple(self, yes: bool) -> (g: ArgGroup)
        ensures
            g@ == (GroupSpec { multiple: yes, ..self@ }),
    {
        let mut g = self;
        g.multiple = yes;
        g
    }
}

impl SubCommand {
    /// A subcommand called `name` with nothing else set.
    pub fn with_name(name: &str) -> (s: SubCommand)
        ensures
            s@ == (SubCommandSpec {
                name: name@,
                about: None,
                long_about: None,
                visible_aliases: Seq::empty(),
                display_order: 999,
                hidden: false,
                next_line_help: false,
            }),
    {
        let s = SubCommand {
            name: name.to_owned(),
            about: None,
            long_about: None,
            visible_aliases: Vec::new(),
            display_order: 999,
            hidden: false,
            next_line_help: false,
        };
        proof {
            assert(names_of(s.visible_aliases@) =~= Seq::empty());
        }
        s
    }

    /// Sets the short description.
    pub fn about(self, text: &str) -> (s: SubCommand)
        ensures
            s@ == (SubCommandSpec { about: Some(text@), ..self@ }),
    {
        let mut s = self;
        s.about = Some(text.to_owned());
        s
    }

    /// Sets the long description.
    pub fn long_about(self, text: &str) -> (s: SubCommand)
        ensures
            s@ == (SubCommandSpec { long_about: Some(text@), ..self@ }),
    {
        let mut s = self;
        s.long_about = Some(text.to_owned());
        s
    }

    /// Adds an alias that help shows.
    pub fn visible_alias(self, alias: &str) -> (s: SubCommand)
        ensures
            s@ == (SubCommandSpec {
                visible_aliases: self@.visible_aliases.push(alias@),
                ..self@
            }),
    {
        let mut s = self;
        let owned = alias.to_owned();
        proof {
            lemma_names_push(s.visible_aliases@, owned);
        }
        s.visible_aliases.push(owned);
        s
    }

    /// Sets the rank by which help orders the subcommand.
    pub fn display_order(self, order: usize) -> (s: SubCommand)
        ensures
            s@ == (SubCommandSpec { display_order: order, ..self@ }),
    {
        let mut s = self;
        s.display_order = order;
        s
    }

    /// Says whether help leaves the subcommand out.
    pub fn hidden(self, yes: bool) -> (s: SubCommand)
        ensures
            s@ == (SubCommandSpec { hidden: yes, ..self@ }),
    {
        let mut s = self;
        s.hidden = yes;
        s
    }
}

impl App {
    /// A model called `name` that declares nothing yet.
    pub fn new(name: &str) -> (app: App)
        ensures
            app@ == (AppSpec {
                name: name@,
                bin_name: None,
                version: None,
                long_version: None,
                author: None,
                about: None,
                long_about: None,
                before_help: None,
                after_help: None,
                override_help: None,
                help_template: None,
                usage: None,
                term_width: None,
                max_term_width: None,
                next_line_help: false,
                hide_possible_values: false,
                derive_display_order: false,
                unified_help: false,
                args: Seq::empty(),
                groups: Seq::empty(),
                subcommands: Seq::empty(),
            }),
    {
        let app = App {
            name: name.to_owned(),
            bin_name: None,
            version: None,
            long_version: None,
            author: None,
            about: None,
            long_about: None,
            before_help: None,
            after_help: None,
            override_help: None,
            help_template: None,
            usage: None,
            term_width: None,
            max_term_width: None,
            next_line_help: false,
            hide_possible_values: false,
            derive_display_order: false,
            unified_help: false,
            args: Vec::new(),
            groups: Vec::new(),
            subcommands: Vec::new(),
        };
        proof {
            assert(args_of(app.args@) =~= Seq::empty());
            assert(groups_of(app.groups@) =~= Seq::empty());
            assert(subcommands_of(app.subcommands@) =~= Seq::empty());
        }
        app
    }

    /// Declares an argument, after those declared so far.
    pub fn arg(self, a: Arg) -> (app: App)
        ensures
            app@ == (AppSpec { args: self@.args.push(a@), ..self@ }),
    {
        let mut app = self;
        proof {
            assert(args_of(app.args@.push(a)) =~= args_of(app.args@).push(a@));
        }
        app.args.push(a);
        app
    }

    /// Declares a group, after those declared so far.
    pub fn group(self, g: ArgGroup) -> (app: App)
        ensures
            app@ == (AppSpec { groups: self@.groups.push(g@), ..self@ }),
    {
        let mut app = self;
        proof {
            assert(groups_of(app.groups@.push(g)) =~= groups_of(app.groups@).push(g@));
        }
        app.groups.push(g);
        app
    }

    /// Declares a subcommand, after those declared so far.
    pub fn subcommand(self, s: SubCommand) -> (app: App)
        ensures
            app@ == (AppSpec { subcommands: self@.subcommands.push(s@), ..self@ }),
    {
        let mut app = self;
        proof {
            assert(subcommands_of(app.subcommands@.push(s)) =~= subcommands_of(
                app.subcommands@,
            ).push(s@));
        }
        app.subcommands.push(s);
        app
    }

    /// Sets the name under which the program was started.
    pub fn bin_name(self, text: &str) -> (app: App)
        ensures
            app@ == (AppSpec { bin_name: Some(text@), ..self@ }),
    {
        let mut app = self;
        app.bin_name = Some(text.to_owned());
        app
    }

    /// Sets the version.
    pub fn version(self, text: &str) -> (app: App)
        ensures
            app@ == (AppSpec { version: Some(text@), ..self@ }),
    {
        let mut app = self;
        app.version = Some(text.to_owned());
        app
    }

    /// Sets the long version.
    pub fn long_version(self, text: &str) -> (app: App)
        ensures
            app@ == (AppSpec { long_version: Some(text@), ..self@ }),
    {
        let mut app = self;
        app.long_version = Some(text.to_owned());
        app
    }

    /// Sets the author.
    pub fn author(self, text: &str) -> (app: App)
        ensures
            app@ == (AppSpec { author: Some(text@), ..self@ }),
    {
        let mut app = self;
        app.author = Some(text.to_owned());
        app
    }

    /// Sets the short description.
    pub fn about(self, text: &str) -> (app: App)
        ensures
            app@ == (AppSpec { about: Some(text@), ..self@ }),
    {
        let mut app = self;
        app.about = Some(text.to_owned());
        app
    }

    /// Sets the long description.
    pub fn long_about(self, text: &str) -> (app: App)
        ensures
            app@ == (AppSpec { long_about: Some(text@), ..self@ }),
    {
        let mut app = self;
        app.long_about = Some(text.to_owned());
        app
    }

    /// Sets the text that help shows before everything else.
    pub fn before_help(self, text: &str) -> (app: App)
        ensures
            app@ == (AppSpec { before_help: Some(text@), ..self@ }),
    {
        let mut app = self;
        app.before_help = Some(text.to_owned());
        app
    }

    /// Sets the text that help shows after everything else.
    pub fn after_help(self, text: &str) -> (app: App)
        ensures
            app@ == (AppSpec { after_help: Some(text@), ..self@ }),
    {
        let mut app = self;
        app.after_help = Some(text.to_owned());
        app
    }

    /// Sets a text that is shown in place of the generated help.
    pub fn override_help(self, text: &str) -> (app: App)
        ensures
            app@ == (AppSpec { override_help: Some(text@), ..self@ }),
    {
        let mut app = self;
        app.override_help = Some(text.to_owned());
        app
    }

    /// Sets the template after which help is laid out.
    pub fn help_template(self, text: &str) -> (app: App)
        ensures
            app@ == (AppSpec { help_template: Some(text@), ..self@ }),
    {
        let mut app = self;
        app.help_template = Some(text.to_owned());
        app
    }

    /// Sets the usage line that help shows.
    pub fn usage(self, text: &str) -> (app: App)
        ensures
            app@ == (AppSpec { usage: Some(text@), ..self@ }),
    {
        let mut app = self;
        app.usage = Some(text.to_owned());
        app
    }

    /// Sets the width of the terminal; zero stands for no limit.
    pub fn set_term_width(self, width: usize) -> (app: App)
        ensures
            app@ == (AppSpec { term_width: Some(width), ..self@ }),
    {
        let mut app = self;
        app.term_width = Some(width);
        app
    }

    /// Sets the width beyond which help never goes; zero stands for no limit.
    pub fn max_term_width(self, width: usize) -> (app: App)
        ensures
            app@ == (AppSpec { max_term_width: Some(width), ..self@ }),
    {
        let mut app = self;
        app.max_term_width = Some(width);
        app
    }
}

} // verus!
