use clap::{parse, App, Arg, ArgGroup, ArgMatcher, Error, Parser, SubCommand};

fn toks(v: &[&str]) -> Vec<String> {
    v.iter().map(|s| s.to_string()).collect()
}

fn names(v: &[&str]) -> Vec<String> {
    toks(v)
}

fn demo_app() -> App {
    App::new("MyApp")
        .about("Parses an input file to do awesome things")
        .version("1.0")
        .author("Kevin K. <kbknapp@gmail.com>")
        .arg(Arg::with_name("debug").help("turn on debugging information").short('d').long("debug"))
        .arg(
            Arg::with_name("config")
                .help("sets the config file to use")
                .short('c')
                .long("config")
                .takes_value(true),
        )
        .arg(Arg::with_name("input").help("the input file to use").index(1).required(true))
}

#[test]
fn using_matches_example() {
    let m = parse(&demo_app(), &toks(&["-d", "--config", "my.conf", "in.txt"])).unwrap();
    assert!(m.is_present("debug"));
    assert_eq!(m.value_of("config"), Some("my.conf".to_string()));
    assert_eq!(m.value_of("input"), Some("in.txt".to_string()));
    assert_eq!(m.occurrences_of("debug"), 1);
    assert_eq!(m.occurrences_of("config"), 1);
    assert_eq!(m.occurrences_of("input"), 1);
    assert_eq!(m.occurrences_of("other"), 0);
    assert!(!m.is_present("other"));
    assert_eq!(m.value_of("debug"), None);
}

#[test]
fn required_positional_missing() {
    let r = parse(&demo_app(), &toks(&["-d"]));
    assert_eq!(r.err(), Some(Error::MissingRequiredArgument(names(&["input"]))));
}

#[test]
fn empty_tokens_with_nothing_required_succeed() {
    let app = App::new("t").arg(Arg::with_name("v").short('v'));
    let m = parse(&app, &toks(&[])).unwrap();
    assert!(!m.is_present("v"));
    assert_eq!(m.subcommand_name(), None);
}

fn requires_app() -> App {
    App::new("t")
        .arg(Arg::with_name("A").long("a").requiring("B"))
        .arg(Arg::with_name("B").long("b"))
}

#[test]
fn requirement_met_when_both_supplied() {
    let m = parse(&requires_app(), &toks(&["--a", "--b"])).unwrap();
    assert!(m.is_present("A"));
    assert!(m.is_present("B"));
    let m = parse(&requires_app(), &toks(&["--b", "--a"])).unwrap();
    assert!(m.is_present("A") && m.is_present("B"));
}

#[test]
fn requirement_missing_when_only_a_supplied() {
    let r = parse(&requires_app(), &toks(&["--a"]));
    assert_eq!(r.err(), Some(Error::MissingRequiredArgument(names(&["B"]))));
}

#[test]
fn requirement_not_raised_when_only_b_supplied() {
    let m = parse(&requires_app(), &toks(&["--b"])).unwrap();
    assert!(m.is_present("B"));
    assert!(!m.is_present("A"));
}

#[test]
fn requirement_chain_is_transitive() {
    let app = App::new("t")
        .arg(Arg::with_name("A").long("a").requiring("B"))
        .arg(Arg::with_name("B").long("b").requiring("C"))
        .arg(Arg::with_name("C").long("c"));
    assert_eq!(
        parse(&app, &toks(&["--a", "--b"])).err(),
        Some(Error::MissingRequiredArgument(names(&["C"])))
    );
    assert!(parse(&app, &toks(&["--a", "--b", "--c"])).is_ok());
}

#[test]
fn missing_names_come_in_order_of_first_insertion() {
    let app = App::new("t")
        .arg(Arg::with_name("x").long("x").required(true))
        .arg(Arg::with_name("A").long("a").requiring("q").requiring("p"))
        .arg(Arg::with_name("p").long("p"))
        .arg(Arg::with_name("q").long("q"))
        .arg(Arg::with_name("y").long("y").required(true));
    assert_eq!(
        parse(&app, &toks(&["--a"])).err(),
        Some(Error::MissingRequiredArgument(names(&["x", "y", "q", "p"])))
    );
}

fn override_app() -> App {
    App::new("t")
        .arg(Arg::with_name("A").long("a").takes_value(true).overrides_with("B"))
        .arg(Arg::with_name("B").long("b").takes_value(true).requiring("C"))
        .arg(Arg::with_name("C").long("c"))
}

#[test]
fn override_discards_the_earlier_match() {
    let m = parse(&override_app(), &toks(&["--b", "1", "--a", "2"])).unwrap();
    assert_eq!(m.values_of("B"), Vec::<String>::new());
    assert_eq!(m.occurrences_of("B"), 0);
    assert!(!m.is_present("B"));
    assert_eq!(m.values_of("A"), names(&["2"]));
    assert_eq!(m.occurrences_of("A"), 1);
}

#[test]
fn override_strips_what_the_overridden_required() {
    // B requires C, C is never supplied: with B alone the parse fails,
    // once A has overridden B nothing is pending.
    assert_eq!(
        parse(&override_app(), &toks(&["--b", "1"])).err(),
        Some(Error::MissingRequiredArgument(names(&["C"])))
    );
    assert!(parse(&override_app(), &toks(&["--b", "1", "--a", "2"])).is_ok());
}

#[test]
fn override_keeps_what_another_argument_still_requires() {
    let app = App::new("t")
        .arg(Arg::with_name("A").long("a").overrides_with("B"))
        .arg(Arg::with_name("B").long("b").requiring("C"))
        .arg(Arg::with_name("C").long("c"))
        .arg(Arg::with_name("M").long("m").requiring("C"));
    assert_eq!(
        parse(&app, &toks(&["--m", "--b", "--a"])).err(),
        Some(Error::MissingRequiredArgument(names(&["C"])))
    );
}

#[test]
fn overridden_argument_arriving_later_supersedes_the_overrider() {
    let m = parse(&override_app(), &toks(&["--a", "2", "--b", "1", "--c"])).unwrap();
    assert!(!m.is_present("A"));
    assert_eq!(m.values_of("A"), Vec::<String>::new());
    assert_eq!(m.values_of("B"), names(&["1"]));
}

fn format_app(multiple: bool) -> App {
    App::new("t")
        .arg(Arg::with_name("json").long("json").required(true))
        .arg(Arg::with_name("yaml").long("yaml").required(true))
        .group(ArgGroup::with_name("format").arg("json").arg("yaml").multiple(multiple))
}

#[test]
fn group_member_discharges_the_other_members() {
    let m = parse(&format_app(true), &toks(&["--json"])).unwrap();
    assert!(m.is_present("json"));
    assert!(!m.is_present("yaml"));
    assert!(m.group_touched("format"));
    assert!(!m.group_touched("other"));
}

#[test]
fn group_without_member_leaves_requirements_pending() {
    assert_eq!(
        parse(&format_app(true), &toks(&[])).err(),
        Some(Error::MissingRequiredArgument(names(&["json", "yaml"])))
    );
}

#[test]
fn group_requirement_becomes_pending() {
    let app = App::new("t")
        .arg(Arg::with_name("json").long("json"))
        .arg(Arg::with_name("out").long("out"))
        .group(ArgGroup::with_name("format").arg("json").requiring("out").multiple(true));
    assert_eq!(
        parse(&app, &toks(&["--json"])).err(),
        Some(Error::MissingRequiredArgument(names(&["out"])))
    );
    assert!(parse(&app, &toks(&["--json", "--out"])).is_ok());
}

#[test]
fn last_group_wins_when_an_argument_is_in_two() {
    // g1 discharges b; g2, declared later, requires b again.
    let app = App::new("t")
        .arg(Arg::with_name("a").long("a"))
        .arg(Arg::with_name("b").long("b"))
        .group(ArgGroup::with_name("g1").arg("a").arg("b").multiple(true))
        .group(ArgGroup::with_name("g2").arg("a").requiring("b").multiple(true));
    assert_eq!(
        parse(&app, &toks(&["--a"])).err(),
        Some(Error::MissingRequiredArgument(names(&["b"])))
    );
    // The other way round the later group discharges what the earlier one asked for.
    let app = App::new("t")
        .arg(Arg::with_name("a").long("a"))
        .arg(Arg::with_name("b").long("b"))
        .group(ArgGroup::with_name("g2").arg("a").requiring("b").multiple(true))
        .group(ArgGroup::with_name("g1").arg("a").arg("b").multiple(true));
    assert!(parse(&app, &toks(&["--a"])).is_ok());
}

#[test]
fn exclusive_group_members_conflict() {
    let r = parse(&format_app(false), &toks(&["--json", "--yaml"]));
    assert_eq!(
        r.err(),
        Some(Error::ConflictingArguments("yaml".to_string(), "json".to_string()))
    );
    assert!(parse(&format_app(true), &toks(&["--json", "--yaml"])).is_ok());
}

fn trailing_app() -> App {
    App::new("t")
        .arg(Arg::with_name("flag").short('x').long("flag-looking-token"))
        .arg(Arg::with_name("cmd").index(1))
        .arg(Arg::with_name("args").index(2).multiple(true).trailing_var_arg(true))
}

#[test]
fn trailing_var_arg_captures_option_like_tokens() {
    let m = parse(&trailing_app(), &toks(&["run", "--flag-looking-token", "-x"])).unwrap();
    assert_eq!(m.values_of("cmd"), names(&["run"]));
    assert_eq!(m.values_of("args"), names(&["--flag-looking-token", "-x"]));
    assert_eq!(m.occurrences_of("args"), 2);
    assert!(!m.is_present("flag"));
}

#[test]
fn options_before_the_named_slots_are_filled_are_options() {
    let m = parse(&trailing_app(), &toks(&["-x", "run", "-x"])).unwrap();
    assert!(m.is_present("flag"));
    assert_eq!(m.values_of("cmd"), names(&["run"]));
    assert_eq!(m.values_of("args"), names(&["-x"]));
}

#[test]
fn without_the_marker_option_syntax_stays() {
    let app = App::new("t")
        .arg(Arg::with_name("cmd").index(1))
        .arg(Arg::with_name("args").index(2).multiple(true));
    assert_eq!(
        parse(&app, &toks(&["run", "a", "-x"])).err(),
        Some(Error::UnknownArgument("-x".to_string()))
    );
    let m = parse(&app, &toks(&["run", "a", "b"])).unwrap();
    assert_eq!(m.values_of("args"), names(&["a", "b"]));
    assert_eq!(m.occurrences_of("args"), 2);
}

#[test]
fn positional_slots_advance_in_order_of_their_places() {
    let app = App::new("t")
        .arg(Arg::with_name("second").index(2))
        .arg(Arg::with_name("first").index(1));
    let m = parse(&app, &toks(&["a", "b"])).unwrap();
    assert_eq!(m.value_of("first"), Some("a".to_string()));
    assert_eq!(m.value_of("second"), Some("b".to_string()));
    assert_eq!(
        parse(&app, &toks(&["a", "b", "c"])).err(),
        Some(Error::UnknownArgument("c".to_string()))
    );
}

#[test]
fn unknown_option_is_reported() {
    assert_eq!(
        parse(&demo_app(), &toks(&["--nope", "in.txt"])).err(),
        Some(Error::UnknownArgument("--nope".to_string()))
    );
    assert_eq!(
        parse(&demo_app(), &toks(&["-z"])).err(),
        Some(Error::UnknownArgument("-z".to_string()))
    );
    assert_eq!(
        parse(&demo_app(), &toks(&["-dc"])).err(),
        Some(Error::UnknownArgument("-dc".to_string()))
    );
    assert_eq!(
        parse(&demo_app(), &toks(&["--"])).err(),
        Some(Error::UnknownArgument("--".to_string()))
    );
}

#[test]
fn first_violation_wins_and_is_stable() {
    // An unknown token and a missing requirement in one invocation: the
    // unknown token is met first, and every run says so.
    let tokens = toks(&["--bogus"]);
    let first = parse(&demo_app(), &tokens);
    assert_eq!(first.clone().err(), Some(Error::UnknownArgument("--bogus".to_string())));
    for _ in 0..5 {
        assert_eq!(parse(&demo_app(), &tokens).err(), first.clone().err());
    }
}

#[test]
fn repeated_occurrence_is_refused_unless_allowed() {
    assert_eq!(
        parse(&demo_app(), &toks(&["-d", "-d", "in"])).err(),
        Some(Error::UnexpectedRepeatedOccurrence("debug".to_string()))
    );
    let app = App::new("t").arg(Arg::with_name("v").short('v').multiple(true));
    let m = parse(&app, &toks(&["-v", "-v", "-v"])).unwrap();
    assert_eq!(m.occurrences_of("v"), 3);
}

#[test]
fn conflicts_are_found_in_both_directions() {
    let app = App::new("t")
        .arg(Arg::with_name("a").long("a").conflicts_with("b"))
        .arg(Arg::with_name("b").long("b"));
    assert_eq!(
        parse(&app, &toks(&["--b", "--a"])).err(),
        Some(Error::ConflictingArguments("a".to_string(), "b".to_string()))
    );
    assert_eq!(
        parse(&app, &toks(&["--a", "--b"])).err(),
        Some(Error::ConflictingArguments("b".to_string(), "a".to_string()))
    );
    assert!(parse(&app, &toks(&["--a"])).is_ok());
}

#[test]
fn first_conflict_in_declaration_order_is_reported() {
    let app = App::new("t")
        .arg(Arg::with_name("x").long("x"))
        .arg(Arg::with_name("y").long("y"))
        .arg(Arg::with_name("a").long("a").conflicts_with("y").conflicts_with("x"));
    assert_eq!(
        parse(&app, &toks(&["--y", "--x", "--a"])).err(),
        Some(Error::ConflictingArguments("a".to_string(), "x".to_string()))
    );
}

#[test]
fn option_without_value_is_a_count_mismatch() {
    assert_eq!(
        parse(&demo_app(), &toks(&["in.txt", "--config"])).err(),
        Some(Error::ValueCountMismatch("config".to_string(), 1, 0))
    );
    assert_eq!(
        parse(&demo_app(), &toks(&["--config", "-d", "in.txt"])).err(),
        Some(Error::ValueCountMismatch("config".to_string(), 1, 0))
    );
}

#[test]
fn multiple_values_are_captured_in_order_as_one_occurrence() {
    let app = App::new("t")
        .arg(Arg::with_name("o").short('o').takes_value(true).multiple_values(true))
        .arg(Arg::with_name("v").short('v'));
    let m = parse(&app, &toks(&["-o", "1", "2", "3", "-v"])).unwrap();
    assert_eq!(m.values_of("o"), names(&["1", "2", "3"]));
    assert_eq!(m.value_of("o"), Some("1".to_string()));
    assert_eq!(m.occurrences_of("o"), 1);
    assert!(m.is_present("v"));
}

#[test]
fn subcommand_ends_the_parse() {
    let app = App::new("git")
        .arg(Arg::with_name("verbose").short('v'))
        .subcommand(SubCommand::with_name("add"))
        .subcommand(SubCommand::with_name("mv"));
    let m = parse(&app, &toks(&["-v", "add", "-A", "file"])).unwrap();
    assert!(m.is_present("verbose"));
    assert_eq!(m.subcommand_name(), Some("add".to_string()));
    assert_eq!(m.subcommand_args(), names(&["-A", "file"]));
}

#[test]
fn invalid_subcommand_is_reported() {
    let app = App::new("git").subcommand(SubCommand::with_name("add"));
    assert_eq!(
        parse(&app, &toks(&["ad"])).err(),
        Some(Error::InvalidSubcommand("ad".to_string()))
    );
    let app = App::new("plain");
    assert_eq!(
        parse(&app, &toks(&["ad"])).err(),
        Some(Error::UnknownArgument("ad".to_string()))
    );
}

#[test]
fn sequential_parses_do_not_see_each_other() {
    let app = demo_app();
    let first = parse(&app, &toks(&["-d", "one"])).unwrap();
    let second = parse(&app, &toks(&["--config", "c", "two"])).unwrap();
    assert!(first.is_present("debug"));
    assert!(!first.is_present("config"));
    assert_eq!(first.value_of("input"), Some("one".to_string()));
    assert!(!second.is_present("debug"));
    assert_eq!(second.value_of("input"), Some("two".to_string()));
    assert_eq!(second.occurrences_of("input"), 1);
    // A failed parse leaves nothing behind either.
    assert!(parse(&app, &toks(&["-d"])).is_err());
    let third = parse(&app, &toks(&["three"])).unwrap();
    assert!(!third.is_present("debug"));
    assert_eq!(third.values_of("input"), names(&["three"]));
}

#[test]
fn feeding_token_by_token_is_the_same_as_parsing() {
    let app = demo_app();
    let mut p = Parser::new(&app);
    assert_eq!(p.state().required, names(&["input"]));
    p.feed(&app, "-d").unwrap();
    assert!(p.state().valid_arg_found);
    assert_eq!(p.state().cache, Some("debug".to_string()));
    p.feed(&app, "file").unwrap();
    assert!(p.matches().is_present("input"));
    let m = p.finish().unwrap();
    assert_eq!(m.value_of("input"), Some("file".to_string()));
}

#[test]
fn ledger_keeps_counts_and_values() {
    let app = format_app(true);
    let mut m = ArgMatcher::new();
    m.record(&app, "json", Some("a".to_string()));
    m.record(&app, "json", None);
    m.add_val_to("json", "b".to_string());
    assert_eq!(m.occurrences_of("json"), 2);
    assert_eq!(m.values_of("json"), names(&["a", "b"]));
    assert!(m.group_touched("format"));
    m.record(&app, "free", None);
    m.remove("json");
    assert_eq!(m.occurrences_of("json"), 0);
    assert_eq!(m.values_of("json"), Vec::<String>::new());
    assert!(m.is_present("free"));
    m.record(&app, "yaml", None);
    m.remove_all(&names(&["free", "yaml", "absent"]));
    assert!(!m.is_present("free"));
    assert!(!m.is_present("yaml"));
}
