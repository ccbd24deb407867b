use clap::names::{
    clone_names, contains_name, push_all_unique, push_unique, remove_name, remove_names, str_eq,
};
use clap::output::help::HelpWriter;
use clap::output::order::{file_by_name, rank_order, str_less};
use clap::output::text::{chars_of, contains_tag, replace_tags, split_lines};
use clap::parser::find_conflict;
use clap::resolver::{find_override, is_still_overridden, is_still_required};
use clap::{App, Arg, ArgGroup, ArgKind, ArgMatcher, ResolverState, SubCommand};

fn names(v: &[&str]) -> Vec<String> {
    v.iter().map(|s| s.to_string()).collect()
}

#[test]
fn strings_compare_by_their_characters() {
    assert!(str_eq("", ""));
    assert!(str_eq("abc", "abc"));
    assert!(!str_eq("abc", "abd"));
    assert!(!str_eq("abc", "ab"));
    assert!(str_eq("héllo", "héllo"));
    assert!(!str_eq("héllo", "hello"));
}

#[test]
fn name_lists_keep_order_and_uniqueness() {
    let mut list = names(&["a", "b"]);
    push_unique(&mut list, "c");
    push_unique(&mut list, "a");
    assert_eq!(list, names(&["a", "b", "c"]));
    push_all_unique(&mut list, &names(&["d", "b", "e", "d"]));
    assert_eq!(list, names(&["a", "b", "c", "d", "e"]));
    assert!(contains_name(&list, "d"));
    assert!(!contains_name(&list, "x"));
    remove_names(&mut list, &names(&["b", "d", "zz"]));
    assert_eq!(list, names(&["a", "c", "e"]));
    remove_name(&mut list, "a");
    assert_eq!(list, names(&["c", "e"]));
    assert_eq!(clone_names(&list), list);
}

#[test]
fn lookups_find_the_first_declaration() {
    let app = App::new("t")
        .arg(Arg::with_name("pos").index(1).long("verbose"))
        .arg(Arg::with_name("v").short('v').long("verbose"))
        .arg(Arg::with_name("w").short('v'))
        .arg(Arg::with_name("second").index(2).trailing_var_arg(true))
        .subcommand(SubCommand::with_name("run"));
    assert_eq!(app.find_arg("v"), Some(1));
    assert_eq!(app.find_arg("nope"), None);
    assert_eq!(app.find_long("verbose"), Some(1));
    assert_eq!(app.find_long("v"), None);
    assert_eq!(app.find_short('v'), Some(1));
    assert_eq!(app.find_short('x'), None);
    assert_eq!(app.positional_count(), 2);
    assert_eq!(app.positional_at(0), Some(0));
    assert_eq!(app.positional_at(1), Some(3));
    assert_eq!(app.positional_at(2), None);
    assert_eq!(app.trailing_arg(), Some(3));
    assert!(app.has_subcommand("run"));
    assert!(!app.has_subcommand("walk"));
    assert_eq!(App::new("e").trailing_arg(), None);
    assert_eq!(App::new("e").positional_count(), 0);
}

#[test]
fn builders_set_one_thing_each() {
    let a = Arg::with_name("a");
    assert_eq!(a.kind, ArgKind::Flag);
    assert_eq!(a.display_order, 999);
    let a = a.takes_value(true);
    assert_eq!(a.kind, ArgKind::Opt);
    let a = a.index(3).takes_value(false);
    assert_eq!(a.kind, ArgKind::Positional(3));
    let a = a.requiring("x").requiring("y").conflicts_with("c").overrides_with("o");
    assert_eq!(a.requires, names(&["x", "y"]));
    assert_eq!(a.conflicts_with, names(&["c"]));
    assert_eq!(a.overrides_with, names(&["o"]));
    let g = ArgGroup::with_name("g").arg("a").arg("b").requiring("r").multiple(true);
    assert_eq!(g.args, names(&["a", "b"]));
    assert_eq!(g.requires, names(&["r"]));
    assert!(g.multiple);
    assert!(!ArgGroup::with_name("h").multiple);
}

#[test]
fn well_formed_models_are_recognised() {
    let good = App::new("t")
        .arg(Arg::with_name("a").long("a").requiring("b").conflicts_with("c"))
        .arg(Arg::with_name("b").long("b").overrides_with("a"))
        .arg(Arg::with_name("c").long("c"))
        .group(ArgGroup::with_name("g").arg("a").arg("b").requiring("c"));
    assert!(good.is_well_formed());
    assert!(App::new("empty").is_well_formed());
    let twice = App::new("t").arg(Arg::with_name("a")).arg(Arg::with_name("a"));
    assert!(!twice.is_well_formed());
    let dangling = App::new("t").arg(Arg::with_name("a").requiring("ghost"));
    assert!(!dangling.is_well_formed());
    let dangling = App::new("t").arg(Arg::with_name("a").conflicts_with("ghost"));
    assert!(!dangling.is_well_formed());
    let dangling = App::new("t").arg(Arg::with_name("a").overrides_with("ghost"));
    assert!(!dangling.is_well_formed());
    let own = App::new("t").arg(Arg::with_name("a").overrides_with("a"));
    assert!(!own.is_well_formed());
    let group = App::new("t").arg(Arg::with_name("a")).group(ArgGroup::with_name("g").arg("b"));
    assert!(!group.is_well_formed());
    let group = App::new("t")
        .arg(Arg::with_name("a"))
        .group(ArgGroup::with_name("g").arg("a").requiring("b"));
    assert!(!group.is_well_formed());
}

fn override_app() -> App {
    App::new("t")
        .arg(Arg::with_name("A").long("a").overrides_with("B").conflicts_with("X"))
        .arg(Arg::with_name("B").long("b").requiring("C").overrides_with("X"))
        .arg(Arg::with_name("C").long("c"))
        .arg(Arg::with_name("X").long("x"))
}

#[test]
fn resolver_runs_its_steps_in_order() {
    let app = override_app();
    let mut m = ArgMatcher::new();
    let mut st = ResolverState::new(&app);
    assert!(st.required.is_empty());
    assert!(st.overrides.is_empty());
    assert_eq!(st.cache, None);
    assert!(!st.trailing_values);
    assert!(!st.valid_arg_found);

    m.record(&app, "X", None);
    m.record(&app, "B", Some("1".to_string()));
    st.arg_post_processing(&app, &mut m, 1);
    // B overrides X and requires C.
    assert!(!m.is_present("X"));
    assert_eq!(st.overrides, names(&["X"]));
    assert_eq!(st.required, names(&["C"]));
    assert!(is_still_required(&app, &m, "C"));
    assert!(is_still_overridden(&app, &m, "X"));
    assert_eq!(find_override(&app, &m, "X"), Some(1));

    m.record(&app, "A", None);
    st.arg_post_processing(&app, &mut m, 0);
    // A overrides B: B leaves the ledger, C is no longer pending, and what
    // B had overridden is no longer overridden; A conflicts with X.
    assert!(!m.is_present("B"));
    assert_eq!(m.values_of("B"), Vec::<String>::new());
    assert!(m.is_present("A"));
    assert_eq!(st.required, Vec::<String>::new());
    assert_eq!(st.overrides, names(&["B"]));
    assert!(!is_still_required(&app, &m, "C"));
    assert!(!is_still_overridden(&app, &m, "X"));
    assert_eq!(find_override(&app, &m, "X"), None);
}

#[test]
fn resolver_steps_one_by_one() {
    let app = App::new("t")
        .arg(Arg::with_name("a").long("a").requiring("r").requiring("s").conflicts_with("o"))
        .arg(Arg::with_name("r").long("r").required(true))
        .arg(Arg::with_name("s").long("s"))
        .arg(Arg::with_name("o").long("o"))
        .group(ArgGroup::with_name("g").arg("a").arg("s").requiring("o"));
    let mut st = ResolverState::new(&app);
    assert_eq!(st.required, names(&["r"]));
    st.overrides = names(&["o", "s"]);
    let mut m = ArgMatcher::new();
    m.record(&app, "a", None);
    st.handle_conflicts(&app, 0);
    assert_eq!(st.overrides, names(&["s"]));
    st.add_requirements(&app, &m, 0);
    assert_eq!(st.required, names(&["r", "s"]));
    st.handle_group_reqs(&app, &m, "a");
    assert_eq!(st.required, names(&["r", "o"]));
    st.handle_group_reqs(&app, &m, "r");
    assert_eq!(st.required, names(&["r", "o"]));
    // "r" is required outright, so superseding "a" leaves it pending.
    m.remove("a");
    st.remove_overriden(&app, &m, 0);
    assert_eq!(st.required, names(&["r", "o"]));
}

#[test]
fn conflicts_are_looked_up_in_declaration_order() {
    let app = App::new("t")
        .arg(Arg::with_name("x").long("x").conflicts_with("a"))
        .arg(Arg::with_name("y").long("y"))
        .arg(Arg::with_name("a").long("a").conflicts_with("y"))
        .arg(Arg::with_name("z").long("z"))
        .group(ArgGroup::with_name("one").arg("a").arg("z"));
    let mut m = ArgMatcher::new();
    assert_eq!(find_conflict(&app, &m, 2), None);
    m.record(&app, "z", None);
    assert_eq!(find_conflict(&app, &m, 2), Some(3));
    m.record(&app, "y", None);
    assert_eq!(find_conflict(&app, &m, 2), Some(1));
    m.record(&app, "x", None);
    assert_eq!(find_conflict(&app, &m, 2), Some(0));
    m.record(&app, "a", None);
    assert_eq!(find_conflict(&app, &m, 2), Some(0));
    assert_eq!(find_conflict(&app, &m, 1), Some(2));
    assert_eq!(find_conflict(&app, &m, 3), Some(2));
}

#[test]
fn text_is_split_into_lines() {
    let lines = |s: &str| -> Vec<String> {
        split_lines(&chars_of(s)).into_iter().map(|l| l.into_iter().collect()).collect()
    };
    assert_eq!(lines(""), Vec::<String>::new());
    assert_eq!(lines("a"), vec!["a"]);
    assert_eq!(lines("a\n"), vec!["a"]);
    assert_eq!(lines("a\nb"), vec!["a", "b"]);
    assert_eq!(lines("a\n\nb\n"), vec!["a", "", "b"]);
    assert_eq!(lines("\n"), vec![""]);
    assert_eq!(lines("a\r\nb\r"), vec!["a", "b\r"]);
    assert_eq!(lines("a\r\r\nb"), vec!["a\r", "b"]);
}

#[test]
fn line_break_tags_are_replaced() {
    let flat = |s: &str| -> String { replace_tags(&chars_of(s)).into_iter().collect() };
    assert_eq!(flat("a{n}b"), "a\nb");
    assert_eq!(flat("{n}{n}"), "\n\n");
    assert_eq!(flat("{n"), "{n");
    assert_eq!(flat("{{n}}"), "{\n}");
    assert_eq!(flat(""), "");
    assert!(contains_tag(&chars_of("x{n}")));
    assert!(!contains_tag(&chars_of("x{n")));
    assert!(!contains_tag(&chars_of("")));
}

#[test]
fn names_are_ordered_by_their_bytes() {
    assert!(str_less("a", "b"));
    assert!(!str_less("b", "a"));
    assert!(!str_less("a", "a"));
    assert!(str_less("a", "ab"));
    assert!(!str_less("ab", "a"));
    assert!(str_less("", "a"));
    assert!(!str_less("", ""));
    assert!(str_less("Z", "a"));
    assert!(str_less("z", "é"));
}

#[test]
fn places_are_filed_by_name() {
    let all = names(&["delta", "alpha", "charlie", "bravo", "alpha"]);
    let list = file_by_name(&vec![], &all, 0);
    assert_eq!(list, vec![0]);
    let list = file_by_name(&list, &all, 1);
    assert_eq!(list, vec![1, 0]);
    let list = file_by_name(&list, &all, 2);
    assert_eq!(list, vec![1, 2, 0]);
    let list = file_by_name(&list, &all, 3);
    assert_eq!(list, vec![1, 3, 2, 0]);
    // The same name again takes the place of the earlier one.
    let list = file_by_name(&list, &all, 4);
    assert_eq!(list, vec![4, 3, 2, 0]);
}

#[test]
fn places_are_ordered_by_rank_then_name() {
    let all = names(&["delta", "alpha", "charlie", "bravo"]);
    let ranks = vec![2, 7, 2, 0];
    assert_eq!(rank_order(&ranks, &all, &vec![0, 1, 2, 3]), vec![3, 2, 0, 1]);
    assert_eq!(rank_order(&ranks, &all, &vec![1, 0]), vec![0, 1]);
    assert_eq!(rank_order(&ranks, &all, &vec![]), Vec::<usize>::new());
}

#[test]
fn columns_are_measured_not_counted() {
    // The second name has two characters that take two columns each.
    let app = App::new("t")
        .arg(Arg::with_name("a").long("abcd").help("x"))
        .arg(Arg::with_name("b").long("日本").help("y"));
    let mut hw = HelpWriter::new(&app, false);
    let mut w = Vec::new();
    hw.write_all_args(&mut w);
    assert_eq!(
        String::from_utf8(w).unwrap(),
        "FLAGS:\n        --abcd    x\n        --日本    y"
    );
}

#[test]
fn derived_display_order_follows_declaration() {
    let mut app = App::new("t")
        .arg(Arg::with_name("z").long("zz").help("1"))
        .arg(Arg::with_name("a").long("aa").help("2"));
    app.derive_display_order = true;
    let mut hw = HelpWriter::new(&app, false);
    let mut w = Vec::new();
    hw.write_all_args(&mut w);
    assert_eq!(String::from_utf8(w).unwrap(), "FLAGS:\n        --zz    1\n        --aa    2");
}
