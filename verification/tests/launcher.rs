use grcrs::escape::translate_regex;
use grcrs::options::{chosen_config, parse_opts, redirect_flags, take_value};
use grcrs::select::{conf_search_path, grc_conf_files, join_args, match_grc_conf};

fn s(v: &[&str]) -> Vec<String> {
    v.iter().map(|x| x.to_string()).collect()
}

#[test]
fn parse_opts_stops_at_command() {
    let o = parse_opts(&s(&["-s", "ls", "-l"]), false).unwrap();
    assert!(o.stdoutf);
    assert_eq!(o.args, s(&["ls", "-l"]));
}

#[test]
fn parse_opts_long_forms() {
    let o = parse_opts(&s(&["--stderr", "--config=conf.foo", "cmd"]), false).unwrap();
    assert!(o.stderrf);
    assert_eq!(o.cfile, "conf.foo");
    assert_eq!(o.args, s(&["cmd"]));
}

#[test]
fn parse_opts_config_separate_and_attached() {
    assert_eq!(parse_opts(&s(&["-c", "conf.x", "cmd"]), false).unwrap().cfile, "conf.x");
    assert_eq!(parse_opts(&s(&["-cconf.x", "cmd"]), false).unwrap().cfile, "conf.x");
    assert_eq!(
        parse_opts(&s(&["--config", "conf.x", "cmd"]), false).unwrap().cfile,
        "conf.x"
    );
}

#[test]
fn parse_opts_clustered_shorts_and_pty() {
    let o = parse_opts(&s(&["-se", "--pty", "top"]), false).unwrap();
    assert!(o.stdoutf && o.stderrf && o.use_pty);
    assert_eq!(o.args, s(&["top"]));
}

#[test]
fn parse_opts_double_dash_terminates_options() {
    // Everything after `--` is the command, even if it looks like a flag.
    let o = parse_opts(&s(&["--", "-s", "notaflag"]), false).unwrap();
    assert!(!o.stdoutf);
    assert_eq!(o.args, s(&["-s", "notaflag"]));
}

#[test]
fn parse_opts_colour_flag() {
    assert!(parse_opts(&s(&["--colour=on", "cmd"]), false).unwrap().colour);
    assert!(!parse_opts(&s(&["--colour=off", "cmd"]), false).unwrap().colour);
}

#[test]
fn translate_regex_matches_grcat_behaviour() {
    assert_eq!(translate_regex(r"^\>(.*)"), "^>(.*)");
    assert_eq!(translate_regex(r"\d+"), r"\d+");
}

#[test]
fn colour_defaults_and_auto_follow_the_terminal() {
    assert!(parse_opts(&s(&["cmd"]), true).unwrap().colour);
    assert!(!parse_opts(&s(&["cmd"]), false).unwrap().colour);
    assert!(parse_opts(&s(&["--colour", "auto", "cmd"]), true).unwrap().colour);
    assert!(!parse_opts(&s(&["--colour=auto", "cmd"]), false).unwrap().colour);
    assert!(!parse_opts(&s(&["--colour", "off", "cmd"]), true).unwrap().colour);
}

#[test]
fn usage_errors_ask_for_help() {
    assert!(parse_opts(&s(&["-x", "cmd"]), false).is_none());
    assert!(parse_opts(&s(&["--nope", "cmd"]), false).is_none());
    assert!(parse_opts(&s(&["--colour=sometimes", "cmd"]), false).is_none());
    assert!(parse_opts(&s(&["-c"]), false).is_none());
    assert!(parse_opts(&s(&["--config"]), false).is_none());
    assert!(parse_opts(&s(&["-sc"]), false).is_none());
}

#[test]
fn no_command_leaves_args_empty() {
    let o = parse_opts(&s(&["-s"]), false).unwrap();
    assert!(o.args.is_empty());
    let o = parse_opts(&s(&[]), false).unwrap();
    assert!(o.args.is_empty() && o.cfile.is_empty());
}

#[test]
fn lone_dash_is_the_command() {
    let o = parse_opts(&s(&["-", "x"]), false).unwrap();
    assert_eq!(o.args, s(&["-", "x"]));
}

#[test]
fn config_in_cluster_takes_rest_or_next() {
    let o = parse_opts(&s(&["-scfoo", "cmd"]), false).unwrap();
    assert!(o.stdoutf);
    assert_eq!(o.cfile, "foo");
    assert_eq!(o.args, s(&["cmd"]));
    let o = parse_opts(&s(&["-ec", "bar", "cmd", "-s"]), false).unwrap();
    assert!(o.stderrf && !o.stdoutf);
    assert_eq!(o.cfile, "bar");
    assert_eq!(o.args, s(&["cmd", "-s"]));
}

#[test]
fn take_value_advances_only_when_there_is_a_value() {
    let argv = s(&["-c", "x"]);
    let mut i = 0usize;
    assert_eq!(take_value(&argv, &mut i), Some("x".to_string()));
    assert_eq!(i, 1);
    assert_eq!(take_value(&argv, &mut i), None);
    assert_eq!(i, 1);
}

#[test]
fn redirect_flags_follow_grc() {
    assert_eq!(redirect_flags(false, false), (true, false));
    assert_eq!(redirect_flags(false, true), (false, true));
    assert_eq!(redirect_flags(true, true), (true, true));
    assert_eq!(redirect_flags(true, false), (true, false));
}

#[test]
fn join_args_uses_single_spaces() {
    assert_eq!(join_args(&s(&["ping", "-c", "1", "host"])), "ping -c 1 host");
    assert_eq!(join_args(&s(&["ls"])), "ls");
    assert_eq!(join_args(&s(&[])), "");
}

#[test]
fn grc_conf_names_the_colourfile_after_the_match() {
    let conf = "# comment\n\n^ping\nconf.ping\n(^|[/\\w\\.]+/)df\\b\n  conf.df  \n";
    assert_eq!(match_grc_conf(conf, "ping -c 1 host"), Some("conf.ping".to_string()));
    assert_eq!(match_grc_conf(conf, "df -h"), Some("conf.df".to_string()));
    assert_eq!(match_grc_conf(conf, "ls -l"), None);
}

#[test]
fn grc_conf_angle_escapes_are_literal() {
    let conf = "\\<x\\>\nconf.x\n";
    assert_eq!(match_grc_conf(conf, "a <x> b"), Some("conf.x".to_string()));
    assert_eq!(match_grc_conf(conf, "x"), None);
}

#[test]
fn grc_conf_match_on_last_line_names_nothing() {
    assert_eq!(match_grc_conf("^ls", "ls"), Some(String::new()));
}

#[test]
fn grc_conf_skips_regexps_that_do_not_compile() {
    let conf = "(unclosed\nconf.bad\n^make\nconf.make\n";
    assert_eq!(match_grc_conf(conf, "make all"), Some("conf.make".to_string()));
}

#[test]
fn grc_conf_files_in_order() {
    let files = grc_conf_files(Some("/home/u".to_string()), None);
    assert_eq!(
        files,
        s(&[
            "/etc/grc.conf",
            "/usr/local/etc/grc.conf",
            "/opt/homebrew/etc/grc.conf",
            "/home/u/.config/grc/grc.conf",
            "/home/u/.grc/grc.conf",
        ])
    );
    let files = grc_conf_files(None, Some("/x".to_string()));
    assert_eq!(
        files,
        s(&[
            "/etc/grc.conf",
            "/usr/local/etc/grc.conf",
            "/opt/homebrew/etc/grc.conf",
            "/x/grc/grc.conf",
        ])
    );
    assert_eq!(grc_conf_files(None, None).len(), 3);
}

#[test]
fn colourfile_search_path_in_order() {
    let p = conf_search_path(Some("/h".to_string()), None, None);
    assert_eq!(
        p,
        s(&[
            "",
            "/h/.local/share/grc/",
            "/h/.config/grc/",
            "/h/.grc/",
            "/usr/local/share/grc/",
            "/usr/share/grc/",
            "/opt/homebrew/share/grc/",
        ])
    );
    let p = conf_search_path(None, Some("/c".to_string()), Some("/d".to_string()));
    assert_eq!(
        p,
        s(&[
            "",
            "/d/grc/",
            "/c/grc/",
            "/usr/local/share/grc/",
            "/usr/share/grc/",
            "/opt/homebrew/share/grc/",
        ])
    );
}

#[test]
fn chosen_config_prefers_the_named_one_and_needs_colour() {
    let o = parse_opts(&s(&["-c", "conf.a", "--colour=on", "cmd"]), false).unwrap();
    assert_eq!(chosen_config(&o, "conf.b"), Some("conf.a".to_string()));
    let o = parse_opts(&s(&["--colour=on", "cmd"]), false).unwrap();
    assert_eq!(chosen_config(&o, "conf.b"), Some("conf.b".to_string()));
    assert_eq!(chosen_config(&o, ""), None);
    let o = parse_opts(&s(&["-c", "conf.a", "--colour=off", "cmd"]), true).unwrap();
    assert_eq!(chosen_config(&o, "conf.b"), None);
}

#[test]
fn command_first_takes_everything_as_the_command() {
    let o = parse_opts(&s(&["ls", "-s", "--colour=off"]), true).unwrap();
    assert_eq!(o.args, s(&["ls", "-s", "--colour=off"]));
    assert!(!o.stdoutf && o.colour && o.cfile.is_empty());
}
