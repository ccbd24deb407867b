use clap::output::help::{
    arg_string, copy_and_capture, copy_until, dimensions, more_than_two_fifths, term_width_for,
    wrap_help, CopyUntilResult, HelpWriter, Listing,
};
use clap::{App, Arg, SubCommand};

#[test]
fn wrap_help_last_word() {
    let help = String::from("foo bar baz");
    assert_eq!(wrap_help(&help, 5), "foo\nbar\nbaz");
}

#[test]
fn wrap_help_keeps_lines_apart() {
    assert_eq!(wrap_help("one two\nthree four", 5), "one\ntwo\nthree\nfour");
    assert_eq!(wrap_help("short", 80), "short");
    assert_eq!(wrap_help("", 80), "");
    assert_eq!(wrap_help("a\r\nb", 80), "a\nb");
}

#[test]
fn dimensions_are_not_known() {
    assert_eq!(dimensions(), None);
}

#[test]
fn term_width_rules() {
    assert_eq!(term_width_for(Some(0), None, None), usize::MAX);
    assert_eq!(term_width_for(Some(80), Some(40), Some((100, 20))), 80);
    assert_eq!(term_width_for(None, None, None), 120);
    assert_eq!(term_width_for(None, Some(100), None), 100);
    assert_eq!(term_width_for(None, Some(0), None), 120);
    assert_eq!(term_width_for(None, None, Some((90, 30))), 90);
    assert_eq!(term_width_for(None, Some(60), Some((90, 30))), 60);
}

#[test]
fn two_fifths_threshold() {
    assert_eq!(more_than_two_fifths(100), 41);
    assert_eq!(more_than_two_fifths(120), 49);
    assert_eq!(more_than_two_fifths(0), 1);
    assert_eq!(more_than_two_fifths(4), 2);
    assert_eq!(more_than_two_fifths(usize::MAX), usize::MAX / 5 * 2 + 1);
    assert_eq!(more_than_two_fifths(5), 3);
}

#[test]
fn copy_until_finds_the_delimiter() {
    let input = b"abc{def";
    let mut pos = 0;
    let mut out = vec![b'>'];
    let r = copy_until(input, &mut pos, input.len(), &mut out, b'{');
    assert_eq!(r, CopyUntilResult::DelimiterFound(3));
    assert_eq!(out, b">abc");
    assert_eq!(pos, 4);
    let r = copy_until(input, &mut pos, input.len(), &mut out, b'{');
    assert_eq!(r, CopyUntilResult::DelimiterNotFound(3));
    assert_eq!(out, b">abcdef");
    assert_eq!(pos, 7);
    let r = copy_until(input, &mut pos, input.len(), &mut out, b'{');
    assert_eq!(r, CopyUntilResult::ReaderEmpty);
    assert_eq!(out, b">abcdef");
    assert_eq!(pos, 7);
}

#[test]
fn copy_until_stops_at_the_limit() {
    let input = b"abcdef}";
    let mut pos = 1;
    let mut out = Vec::new();
    let r = copy_until(input, &mut pos, 4, &mut out, b'}');
    assert_eq!(r, CopyUntilResult::DelimiterNotFound(3));
    assert_eq!(out, b"bcd");
    assert_eq!(pos, 4);
}

#[test]
fn copy_and_capture_takes_a_tag() {
    let input = b"Hello {bin}!";
    let mut pos = 0;
    let mut out = Vec::new();
    let mut tag = vec![0u8; 15];
    assert_eq!(copy_and_capture(input, &mut pos, &mut out, &mut tag), Some(3));
    assert_eq!(out, b"Hello ");
    assert_eq!(&tag[..3], b"bin");
    assert_eq!(tag.len(), 15);
    assert_eq!(pos, 11);
    assert_eq!(copy_and_capture(input, &mut pos, &mut out, &mut tag), None);
    assert_eq!(out, b"Hello !");
    assert_eq!(pos, 12);
}

#[test]
fn copy_and_capture_without_closing_brace() {
    let input = b"a{bcdefghijklmnopqrstuvwxyz";
    let mut pos = 0;
    let mut out = Vec::new();
    let mut tag = vec![0u8; 15];
    assert_eq!(copy_and_capture(input, &mut pos, &mut out, &mut tag), Some(0));
    assert_eq!(out, b"a{bcdefghijklmnop");
    assert_eq!(pos, 17);
    assert_eq!(copy_and_capture(input, &mut pos, &mut out, &mut tag), None);
    assert_eq!(out, b"a{bcdefghijklmnopqrstuvwxyz");
}

#[test]
fn copy_and_capture_at_the_end() {
    let input = b"abc{";
    let mut pos = 0;
    let mut out = Vec::new();
    let mut tag = vec![0u8; 15];
    assert_eq!(copy_and_capture(input, &mut pos, &mut out, &mut tag), None);
    assert_eq!(out, b"abc");
    let input = b"x{}y";
    let mut pos = 0;
    let mut out = Vec::new();
    assert_eq!(copy_and_capture(input, &mut pos, &mut out, &mut tag), Some(0));
    assert_eq!(out, b"x");
    assert_eq!(pos, 3);
}

#[test]
fn arguments_are_named_by_kind() {
    assert_eq!(arg_string(&Arg::with_name("debug").short('d').long("debug")), "--debug");
    assert_eq!(arg_string(&Arg::with_name("debug").short('d')), "-d");
    assert_eq!(arg_string(&Arg::with_name("debug")), "debug");
    assert_eq!(
        arg_string(&Arg::with_name("config").long("config").takes_value(true)),
        "--config <config>"
    );
    assert_eq!(
        arg_string(&Arg::with_name("f").short('f').takes_value(true).multiple_values(true)),
        "-f <f>..."
    );
    assert_eq!(arg_string(&Arg::with_name("input").index(1)), "<input>");
    assert_eq!(arg_string(&Arg::with_name("files").index(2).multiple(true)), "<files>...");
}

fn demo_app() -> App {
    App::new("MyApp")
        .about("Parses an input file to do awesome things")
        .version("1.0")
        .author("Kevin K. <kbknapp@gmail.com>")
        .usage("MyApp [FLAGS] [OPTIONS] <input>")
        .arg(Arg::with_name("debug").help("turn on debugging information").short('d').long("debug"))
        .arg(
            Arg::with_name("config")
                .help("sets the config file to use")
                .short('c')
                .long("config")
                .takes_value(true),
        )
        .arg(Arg::with_name("input").help("the input file to use").index(1).required(true))
}

fn text(bytes: Vec<u8>) -> String {
    String::from_utf8(bytes).unwrap()
}

#[test]
fn default_help_of_the_example() {
    let app = demo_app();
    let mut hw = HelpWriter::new(&app, false);
    assert_eq!(hw.term_width(), 120);
    assert!(hw.ranks_ok());
    let mut w = Vec::new();
    hw.write_help(&mut w);
    let expected = "\
MyApp 1.0
Kevin K. <kbknapp@gmail.com>
Parses an input file to do awesome things

USAGE:
    MyApp [FLAGS] [OPTIONS] <input>

FLAGS:
    -d, --debug    turn on debugging information

OPTIONS:
    -c, --config <config>    sets the config file to use

ARGS:
    <input>    the input file to use";
    assert_eq!(text(w), expected);
}

#[test]
fn version_lines() {
    let app = App::new("git").version("2.1").long_version("2.1 (abc)").bin_name("git mv");
    let mut hw = HelpWriter::new(&app, false);
    let mut w = Vec::new();
    hw.write_version(&mut w);
    assert_eq!(text(w), "git-mv 2.1");
    let mut w = Vec::new();
    hw.write_long_version(&mut w);
    assert_eq!(text(w), "git-mv 2.1 (abc)");
    let app = App::new("tool").long_version("9");
    let mut hw = HelpWriter::new(&app, true);
    assert!(hw.use_stderr());
    let mut w = b"> ".to_vec();
    hw.write_version(&mut w);
    assert_eq!(text(w), "> tool 9");
}

#[test]
fn override_help_is_written_as_it_stands() {
    let app = demo_app().override_help("just this");
    let mut hw = HelpWriter::new(&app, false);
    let mut w = Vec::new();
    hw.write_long_help(&mut w);
    assert_eq!(text(w), "just this");
}

#[test]
fn templated_help_replaces_tags() {
    let app = demo_app().help_template("{bin} v{version} by {author}\n{about}\n{nope} {usage} {}|{flags}|{");
    let mut hw = HelpWriter::new(&app, false);
    let mut w = Vec::new();
    hw.write_help(&mut w);
    assert_eq!(
        text(w),
        "MyApp v1.0 by Kevin K. <kbknapp@gmail.com>\nParses an input file to do awesome things\n{nope} MyApp [FLAGS] [OPTIONS] <input> |    -d, --debug    turn on debugging information|"
    );
}

#[test]
fn templated_help_knows_every_tag() {
    let app = App::new("t")
        .help_template("{?}/{after-help}/{before-help}/{subcommands}/{options}/{positionals}/{unified}")
        .after_help("after")
        .arg(Arg::with_name("o").short('o').takes_value(true))
        .arg(Arg::with_name("f").short('f'))
        .arg(Arg::with_name("p").index(1))
        .subcommand(SubCommand::with_name("sub").about("does it"));
    let mut hw = HelpWriter::new(&app, false);
    let mut w = Vec::new();
    hw.write_help(&mut w);
    assert_eq!(
        text(w),
        "Could not decode tag name/after/unknown before-help/    sub    does it/    -o <o>        /    <p>    /    -f            \n    -o <o>        "
    );
}

#[test]
fn arguments_are_listed_by_rank_then_name() {
    let app = App::new("t")
        .arg(Arg::with_name("zeta").long("zeta").help("z"))
        .arg(Arg::with_name("alpha").long("alpha").help("a"))
        .arg(Arg::with_name("mid").long("mid").help("m").display_order(1))
        .arg(Arg::with_name("gone").long("gone").hidden(true));
    let mut hw = HelpWriter::new(&app, false);
    assert_eq!(hw.pick(Listing::Flags), vec![0, 1, 2, 3]);
    assert_eq!(hw.pick(Listing::Opts), Vec::<usize>::new());
    let mut w = Vec::new();
    hw.write_all_args(&mut w);
    assert_eq!(
        text(w),
        "FLAGS:\n        --mid      m\n        --alpha    a\n        --zeta     z"
    );
}

#[test]
fn unified_help_and_subcommands() {
    let mut app = App::new("t")
        .arg(Arg::with_name("v").short('v').help("verbose"))
        .arg(Arg::with_name("o").short('o').takes_value(true).help("out").default_value("x"))
        .subcommand(SubCommand::with_name("push").about("sends").visible_alias("p"))
        .subcommand(SubCommand::with_name("add").about("adds"))
        .subcommand(SubCommand::with_name("secret").hidden(true));
    app.unified_help = true;
    let mut hw = HelpWriter::new(&app, false);
    let mut w = Vec::new();
    hw.write_all_args(&mut w);
    assert_eq!(
        text(w),
        "OPTIONS:\n    -o <o>        out [default: x]\n    -v            verbose\n\nSUBCOMMANDS:\n    add     adds\n    push    sends [aliases: p]"
    );
}

#[test]
fn long_help_goes_below_the_entry() {
    let app = App::new("t").arg(
        Arg::with_name("v").short('v').long("verbose").help("short").long_help("the long text"),
    );
    let mut hw = HelpWriter::new(&app, false);
    let mut w = Vec::new();
    hw.write_long_help(&mut w);
    assert_eq!(
        text(w),
        "t \n\nUSAGE:\n    \n\nFLAGS:\n    -v, --verbose    \n            the long text\n"
    );
}

#[test]
fn help_is_wrapped_at_the_terminal_width() {
    let app = App::new("t")
        .set_term_width(40)
        .arg(Arg::with_name("v").short('v').help("one two three four five six seven eight nine"))
        .arg(Arg::with_name("w").short('w').help("first{n}second"));
    let mut hw = HelpWriter::new(&app, false);
    assert_eq!(hw.term_width(), 40);
    let mut w = Vec::new();
    hw.write_all_args(&mut w);
    assert_eq!(
        text(w),
        "FLAGS:\n    -v        one two three four five\n              six seven eight nine\n    -w        first\n              second"
    );
}

#[test]
fn next_line_help_setting() {
    let mut app = App::new("t").arg(Arg::with_name("v").short('v').help("verbose"));
    app.next_line_help = true;
    let mut hw = HelpWriter::new(&app, false);
    let mut w = Vec::new();
    hw.write_all_args(&mut w);
    assert_eq!(text(w), "FLAGS:\n    -v\n            verbose\n");
}

#[test]
fn ranks_out_of_reach_are_reported() {
    let app = App::new("t").arg(Arg::with_name("v").short('v').display_order(usize::MAX));
    let hw = HelpWriter::new(&app, false);
    assert!(!hw.ranks_ok());
    let app = App::new("t").arg(Arg::with_name("v").short('v').display_order(usize::MAX).hidden(true));
    assert!(HelpWriter::new(&app, false).ranks_ok());
}

#[test]
fn wrapping_keeps_every_word() {
    let texts = [
        "",
        " ",
        "a",
        "a b",
        "  leading and trailing  ",
        "one-two-three four--five -x --long-option",
        "averyverylongwordthatdoesnotfitanywhere short",
        "tab\tseparated\twords",
        "x - y - z",
        "ends-with-hyphen- next",
        "multiple   spaces    between",
    ];
    for text in texts.iter() {
        for width in [0usize, 1, 2, 3, 5, 8, 13, 80, usize::MAX] {
            let wrapped = wrap_help(text, width);
            let letters = |s: &str| -> String { s.chars().filter(|c| !c.is_whitespace()).collect() };
            let all = letters(text);
            // What comes out is made of the letters that went in, in order.
            let mut rest = all.chars();
            for c in letters(&wrapped).chars() {
                assert!(rest.any(|d| d == c), "{:?} at {} gave {:?}", text, width, wrapped);
            }
        }
    }
}

#[test]
fn lines_outside_ascii_are_not_filled() {
    assert_eq!(wrap_help("日本語 のテキスト と ascii", 3), "日本語 のテキスト と ascii");
    assert_eq!(
        wrap_help("plain words here\nのテキスト と\nmore plain words", 5),
        "plain\nwords\nhere\nのテキスト と\nmore\nplain\nwords"
    );
}

#[test]
fn wrapping_ascii_never_fails() {
    let alphabet: Vec<char> =
        "abcdefghijklmnopqrstuvwxyzABC0123456789     ---\t\t..,;:!?()[]{}'\"/\\_=+*&^%$#@~`|<>\u{1}\u{7f}\r"
            .chars()
            .collect();
    let mut seed: u64 = 0x2545_f491_4f6c_dd1d;
    let mut next = move || {
        seed ^= seed << 13;
        seed ^= seed >> 7;
        seed ^= seed << 17;
        seed
    };
    for _ in 0..20000 {
        let len = (next() % 40) as usize;
        let text: String = (0..len).map(|_| alphabet[(next() % alphabet.len() as u64) as usize]).collect();
        let width = (next() % 12) as usize;
        let wrapped = wrap_help(&text, width);
        assert!(wrapped.len() <= text.len() + len + 1);
    }
}

#[test]
fn values_are_described_after_the_help_text() {
    let app = App::new("t").arg(
        Arg::with_name("mode")
            .short('m')
            .takes_value(true)
            .help("pick")
            .default_value("a")
            .possible_value("a")
            .possible_value("b")
            .visible_alias("kind"),
    );
    let mut w = Vec::new();
    HelpWriter::new(&app, false).write_all_args(&mut w);
    assert_eq!(
        text(w),
        "OPTIONS:\n    -m <mode>        pick [default: a]  [aliases: kind]  [values: a, b]"
    );
    let app = App::new("t").arg(
        Arg::with_name("mode")
            .short('m')
            .takes_value(true)
            .help("pick")
            .default_value("a")
            .possible_value("a")
            .hide_default_value(true)
            .hide_possible_values(true),
    );
    let mut w = Vec::new();
    HelpWriter::new(&app, false).write_all_args(&mut w);
    assert_eq!(text(w), "OPTIONS:\n    -m <mode>        pick");
    let mut app = App::new("t")
        .arg(Arg::with_name("mode").short('m').takes_value(true).help("pick").possible_value("a"));
    app.hide_possible_values = true;
    let mut w = Vec::new();
    HelpWriter::new(&app, false).write_all_args(&mut w);
    assert_eq!(text(w), "OPTIONS:\n    -m <mode>        pick");
}

#[test]
fn help_goes_below_a_wide_entry() {
    let app = App::new("t")
        .arg(Arg::with_name("v").long("verbose-output-mode").help("a longer help text"));
    let mut w = Vec::new();
    HelpWriter::new(&app, false).with_term_width(40).write_all_args(&mut w);
    assert_eq!(
        text(w),
        "FLAGS:\n        --verbose-output-mode\n            a longer help text\n"
    );
    // With a share that the left column never reaches, the help text stays
    // beside the entry and is broken into the room that is left.
    let mut w = Vec::new();
    HelpWriter::new(&app, false)
        .with_term_width(40)
        .with_next_line_from(100)
        .write_all_args(&mut w);
    let pad = " ".repeat(33);
    assert_eq!(
        text(w),
        format!(
            "FLAGS:\n        --verbose-output-mode    a\n{p}longer\n{p}help\n{p}text",
            p = pad
        )
    );
}

#[test]
fn next_line_help_of_one_argument() {
    let app = App::new("t")
        .arg(Arg::with_name("a").short('a').help("first").next_line_help(true))
        .arg(Arg::with_name("b").short('b').help("second"));
    let mut w = Vec::new();
    HelpWriter::new(&app, false).write_all_args(&mut w);
    assert_eq!(text(w), "FLAGS:\n    -a\n            first\n\n    -b        second");
}
