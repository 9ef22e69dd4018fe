use grcrs::colour::{colour_table, get_colour};
use grcrs::colourise::{
    scan_line, take_step, Action, LineWork, MatchCursor, ScanOutcome, Search, StepKind, StreamState,
};
use grcrs::config::{parse_config, ConfigError};
use grcrs::escape::{convert_backrefs, translate_regex, unescape};
use grcrs::render::{apply_trend, render_line};
use grcrs::units::{byte_to_char, ch_bytes, decode_units, strip_line_end};

/// Runs the colouriser over `input` the way grcat does (one line per `\n`,
/// trend requests left unanswered) and returns the bytes written.
fn colour_bytes(conf: &str, input: &[u8]) -> Vec<u8> {
    let t = colour_table();
    let pats = parse_config(conf, &t).unwrap();
    let mut st = StreamState::new();
    let mut out = Vec::new();
    for chunk in input.split_inclusive(|b| *b == b'\n') {
        let mut raw = chunk.to_vec();
        strip_line_end(&mut raw);
        let (line, orig) = decode_units(&raw);
        match scan_line(&pats, &mut st, line) {
            ScanOutcome::Done(ls) => {
                let mut spans = ls.spans;
                let answers: Vec<Option<String>> = ls.requests.iter().map(|_| None).collect();
                apply_trend(&mut spans, &ls.requests, &answers);
                if let Some(b) = render_line(&ls.line, &orig, ls.modified, &spans, ls.skip, &mut st) {
                    out.extend_from_slice(&b);
                }
            }
            _ => panic!("scan did not finish"),
        }
    }
    out
}

fn colour(conf: &str, input: &str) -> String {
    String::from_utf8(colour_bytes(conf, input.as_bytes())).unwrap()
}

#[test]
fn unescape_octal_is_python_eval() {
    // grc configs write `"\033[38;5;208m"`; Python eval decodes the octal.
    assert_eq!(unescape(r"\033[38;5;208m"), "\x1b[38;5;208m");
    assert_eq!(unescape(r"\0"), "\0");
}

#[test]
fn unescape_hex_and_named_escapes() {
    assert_eq!(unescape(r"\x1b[0m"), "\x1b[0m");
    assert_eq!(unescape(r"\n\t\r"), "\n\t\r");
    assert_eq!(unescape(r"a\\b"), "a\\b");
    // an unknown escape keeps the backslash, like a raw byte pass-through
    assert_eq!(unescape(r"\q"), "\\q");
}

#[test]
fn translate_regex_angle_brackets_become_literals() {
    // Python `re` has no \< / \> boundary; they are literal characters.
    assert_eq!(translate_regex(r"^\>(.*)"), "^>(.*)");
    assert_eq!(translate_regex(r"\<none\>"), "<none>");
    assert_eq!(
        translate_regex(r"(\<?[Nn]one\>?|null)"),
        "(<?[Nn]one>?|null)"
    );
    // Other escapes are left untouched.
    assert_eq!(translate_regex(r"\d+\.\s(?=\sMar)"), r"\d+\.\s(?=\sMar)");
}

#[test]
fn convert_backrefs_to_dollar_form() {
    assert_eq!(convert_backrefs(r"TIMEOUT \1"), "TIMEOUT ${1}");
    assert_eq!(convert_backrefs(r"\1h\2m\3s"), "${1}h${2}m${3}s");
    // A literal dollar must be doubled so it is not read as a group ref.
    assert_eq!(convert_backrefs("cost $5"), "cost $$5");
}

#[test]
fn get_colour_named_quoted_and_invalid() {
    let t = colour_table();
    assert_eq!(get_colour("red", &t).unwrap(), "\x1b[31m");
    assert_eq!(get_colour("bold", &t).unwrap(), "\x1b[1m");
    assert_eq!(get_colour("previous", &t).unwrap(), "prev");
    assert_eq!(get_colour("unchanged", &t).unwrap(), "unchanged");
    assert_eq!(get_colour(r#""\033[1m""#, &t).unwrap(), "\x1b[1m");
    assert!(get_colour("notacolour", &t).is_err());
}

#[test]
fn byte_to_char_handles_multibyte_and_clamps() {
    let s = "aéb"; // 'é' is two bytes (0xC3 0xA9)
    assert_eq!(byte_to_char(s, 0), 0);
    assert_eq!(byte_to_char(s, 1), 1); // start of 'é'
    assert_eq!(byte_to_char(s, 3), 2); // first byte after 'é'
    assert_eq!(byte_to_char(s, 999), 3); // clamps to char count
}

#[test]
fn parse_config_resolves_colours_count_and_regex() {
    let t = colour_table();
    let pats = parse_config("regexp=foo\ncolours=red bold\n", &t).unwrap();
    assert_eq!(pats.len(), 1);
    assert_eq!(pats[0].count, "more");
    // Multiple whitespace-separated colours in one group concatenate.
    assert_eq!(
        pats[0].colours.as_ref().unwrap(),
        &vec!["\x1b[31m\x1b[1m".to_string()]
    );
}

#[test]
fn parse_config_splits_comma_groups() {
    let t = colour_table();
    let pats = parse_config("regexp=(a)(b)\ncolours=red,green,blue\ncount=stop\n", &t).unwrap();
    let cols = pats[0].colours.as_ref().unwrap();
    assert_eq!(
        cols,
        &vec![
            "\x1b[31m".to_string(),
            "\x1b[32m".to_string(),
            "\x1b[34m".to_string()
        ]
    );
    assert_eq!(pats[0].count, "stop");
}

#[test]
fn parse_config_accepts_lookahead_and_us_spelling() {
    // Lookahead is why grcrs uses fancy-regex; `color`/`colours` are aliases.
    let t = colour_table();
    let pats = parse_config("regexp=\\d+(?=\\sMar)\ncolor=green\n", &t).unwrap();
    assert_eq!(pats.len(), 1);
    assert_eq!(
        pats[0].colours.as_ref().unwrap(),
        &vec!["\x1b[32m".to_string()]
    );
}

#[test]
fn parse_config_skips_blocks_without_regexp() {
    let t = colour_table();
    // A comment-only block contributes no pattern.
    let pats = parse_config("# just a comment\ncolours=red\n", &t).unwrap();
    assert!(pats.is_empty());
}

#[test]
fn parse_config_rejects_bad_keyword() {
    let t = colour_table();
    assert!(parse_config("bogus=1\n", &t).is_err());
}

#[test]
fn parse_config_captures_command_skip_concat_replace() {
    let t = colour_table();
    let cfg =
        "regexp=(\\d+)\nreplace=N \\1\ncommand=true\nskip=yes\nconcat=/tmp/x\ncolours=red\n";
    let pats = parse_config(cfg, &t).unwrap();
    assert_eq!(pats.len(), 1);
    let p = &pats[0];
    assert_eq!(p.command.as_deref(), Some("true"));
    assert_eq!(p.skip.as_deref(), Some("yes"));
    assert_eq!(p.concat.as_deref(), Some("/tmp/x"));
    // replace backrefs are rewritten to the ${N} form at parse time.
    assert_eq!(p.replace.as_deref(), Some("N ${1}"));
}

#[test]
fn parse_config_multiple_blocks_split_on_separator() {
    let t = colour_table();
    // A line not starting with '#', a letter, or blank ends a block.
    let cfg = "regexp=a\ncolours=red\n======\nregexp=b\ncolours=blue\ncount=stop\n";
    let pats = parse_config(cfg, &t).unwrap();
    assert_eq!(pats.len(), 2);
    assert_eq!(pats[0].count, "more");
    assert_eq!(pats[1].count, "stop");
    assert_eq!(
        pats[1].colours.as_ref().unwrap(),
        &vec!["\x1b[34m".to_string()]
    );
}

#[test]
fn parse_config_count_defaults_to_more() {
    let t = colour_table();
    let pats = parse_config("regexp=z\ncolours=cyan\n", &t).unwrap();
    assert_eq!(pats[0].count, "more");
}

#[test]
fn parse_config_blank_and_comment_lines_ignored_inside_block() {
    let t = colour_table();
    let cfg = "# comment\nregexp=q\n# mid comment\ncolours=green\n";
    let pats = parse_config(cfg, &t).unwrap();
    assert_eq!(pats.len(), 1);
    assert_eq!(
        pats[0].colours.as_ref().unwrap(),
        &vec!["\x1b[32m".to_string()]
    );
}

#[test]
fn parse_config_missing_equals_is_error() {
    let t = colour_table();
    assert!(parse_config("regexp\n", &t).is_err());
}

#[test]
fn convert_backrefs_multi_digit_group() {
    // Two-digit backrefs must consume both digits.
    assert_eq!(convert_backrefs(r"\12"), "${12}");
    assert_eq!(convert_backrefs(r"\1\2"), "${1}${2}");
}

#[test]
fn unescape_octal_stops_after_three_digits() {
    // Python octal escapes are at most three digits: \0111 == \011 + '1'.
    assert_eq!(unescape(r"\0111"), "\t1");
    // \8 is not an octal digit, so the backslash is kept.
    assert_eq!(unescape(r"\8"), "\\8");
}

#[test]
fn unescape_hex_caps_at_two_digits_and_bell() {
    // A `\xNN` escape consumes at most two hex digits; trailing digits are
    // literal. `\x41` == 'A', so `\x4142` == "A42".
    assert_eq!(unescape(r"\x4142"), "A42");
    // A non-hex char after the two digits is passed through unchanged.
    assert_eq!(unescape(r"\x41Z"), "AZ");
    // Bell escape via \a maps to BEL.
    assert_eq!(unescape(r"\a"), "\x07");
}

#[test]
fn colour_table_has_bright_and_background_codes() {
    let t = colour_table();
    assert_eq!(t.lookup("bright_red").unwrap(), "\x1b[31;91m");
    assert_eq!(t.lookup("on_bright_white").unwrap(), "\x1b[47;107m");
    assert_eq!(t.lookup("none").unwrap(), "");
    assert_eq!(t.lookup("beep").unwrap(), "\x07");
}

#[test]
fn get_colour_concatenation_via_parse_config() {
    // A colour group with several tokens concatenates their escapes.
    let t = colour_table();
    let pats = parse_config("regexp=x\ncolours=on_blue bold white\n", &t).unwrap();
    assert_eq!(
        pats[0].colours.as_ref().unwrap(),
        &vec!["\x1b[44m\x1b[1m\x1b[37m".to_string()]
    );
}

#[test]
fn decode_units_maps_each_invalid_byte_to_one_roundtrip_unit() {
    // Valid text decodes 1:1; each invalid byte becomes one U+FFFD unit whose
    // original byte is preserved, matching Python's per-byte surrogateescape.
    let (s, orig) = decode_units(b"a\xffb\xc3\xa9");
    // chars: 'a', U+FFFD, 'b', 'é'  →  four units.
    assert_eq!(s.chars().count(), 4);
    assert_eq!(s, "a\u{FFFD}bé");
    assert_eq!(orig.len(), 4);
    assert_eq!(orig[0], b"a");
    assert_eq!(orig[1], vec![0xff]); // the raw invalid byte, not U+FFFD's bytes
    assert_eq!(orig[2], b"b");
    assert_eq!(orig[3], vec![0xc3, 0xa9]); // 'é' keeps its two source bytes
}

#[test]
fn decode_units_splits_multibyte_invalid_run_per_byte() {
    // Two consecutive invalid bytes yield two separate units (Python emits one
    // surrogate per byte), so char indices stay aligned with the reference.
    let (s, orig) = decode_units(b"\xff\xfe");
    assert_eq!(s, "\u{FFFD}\u{FFFD}");
    assert_eq!(orig, vec![vec![0xffu8], vec![0xfeu8]]);
}

#[test]
fn translate_regex_preserves_backslash_before_multibyte() {
    // A backslash followed by a non-<> char (here multibyte) is untouched.
    assert_eq!(translate_regex(r"\é"), r"\é");
}

#[test]
fn parse_config_trend_key_metric() {
    let t = colour_table();
    let cfg = "regexp=(\\w+)\\s+(\\d+)\ncolours=default,default\ntrend=rising:green,falling:red,steady:dark\nkey=1\nmetric=2\n";
    let pats = parse_config(cfg, &t).unwrap();
    assert_eq!(pats.len(), 1);
    let p = &pats[0];
    assert_eq!(p.key, Some(1));
    assert_eq!(p.metric, Some(2));
    let spec = p.trend.as_ref().unwrap();
    assert_eq!(spec.rising, "\x1b[32m");
    assert_eq!(spec.falling, "\x1b[31m");
    assert_eq!(spec.steady, "\x1b[2m");
}

#[test]
fn basic_colour_wraps_only_the_match_in_library() {
    let out = colour("regexp=foo\ncolours=red\n", "a foo b\n");
    assert_eq!(out, "\x1b[0ma \x1b[0m\x1b[31mfoo\x1b[0m b\x1b[0m\n");
}

#[test]
fn lookahead_regex_colours_the_number_in_library() {
    let out = colour("regexp=\\d+(?=\\sMar)\ncolours=green\n", "size 344 Mar\n");
    assert_eq!(out, "\x1b[0msize \x1b[0m\x1b[32m344\x1b[0m Mar\x1b[0m\n");
}

#[test]
fn per_group_colours_layer_in_order_in_library() {
    let out = colour("regexp=(a)(b)\ncolours=red,green,blue\n", "ab\n");
    assert_eq!(out, "\x1b[0m\x1b[32ma\x1b[0m\x1b[34mb\x1b[0m\n");
}

#[test]
fn unchanged_colour_leaves_group_untouched_in_library() {
    let out = colour("regexp=(ERR)(OR)\ncolours=unchanged,red\n", "ERROR\n");
    assert_eq!(out, "\x1b[0m\x1b[31mERR\x1b[0mOR\x1b[0m\n");
}

#[test]
fn count_stop_halts_further_patterns_in_library() {
    let conf = "regexp=X\ncolours=red\ncount=stop\n======\nregexp=X\ncolours=blue\n";
    assert_eq!(colour(conf, "X\n"), "\x1b[0m\x1b[31mX\x1b[0m\n");
}

#[test]
fn zero_width_whole_line_pattern_terminates_in_library() {
    let out = colour("regexp=.*\ncolours=red\n", "whole line\n");
    assert_eq!(out, "\x1b[0m\x1b[31mwhole line\x1b[0m\n");
}

#[test]
fn block_state_carries_across_lines_in_library() {
    let conf = "regexp=START\ncolours=italic black\ncount=block\n\
                ======\nregexp=^END\ncolours=default\ncount=unblock\n";
    let out = colour(conf, "before\nSTART here\ninside block\nEND now\nafter\n");
    let expected = [
        "\x1b[0mbefore\x1b[0m\n",
        "\x1b[3m\x1b[30mSTART here\x1b[0m\n",
        "\x1b[3m\x1b[30minside block\x1b[0m\n",
        "\x1b[0m\x1b[0mEND\x1b[0m now\x1b[0m\n",
        "\x1b[0mafter\x1b[0m\n",
    ]
    .concat();
    assert_eq!(out, expected);
}

#[test]
fn replace_rewrites_then_colours_in_library() {
    let out = colour(
        "regexp=.*seq=(\\d+) end\nreplace=SEQ \\1\ncolours=red\n",
        "x seq=42 end\n",
    );
    assert_eq!(out, "\x1b[0m\x1b[31mSEQ 42\x1b[0m\n");
}

#[test]
fn quoted_colour_literal_is_decoded_in_library() {
    let out = colour("regexp=hot\ncolours=\"\\033[38;5;208m\"\n", "hot dog\n");
    assert_eq!(out, "\x1b[0m\x1b[38;5;208mhot\x1b[0m dog\x1b[0m\n");
}

#[test]
fn angle_escapes_match_as_literals_in_library() {
    let out = colour("regexp=^\\>(.*)\ncolours=bold green\n", "> quoted\nplain\n");
    assert_eq!(
        out,
        "\x1b[0m\x1b[1m\x1b[32m> quoted\x1b[0m\n\x1b[0mplain\x1b[0m\n"
    );
}

#[test]
fn skip_suppresses_matching_lines_in_library() {
    let out = colour(
        "regexp=secret\ncolours=red\nskip=yes\n",
        "has secret\nkeep me\n",
    );
    assert_eq!(out, "\x1b[0mkeep me\x1b[0m\n");
}

#[test]
fn count_block_halts_subsequent_patterns_in_library() {
    let conf = "regexp=START\ncolours=red\ncount=block\n\
                ======\nregexp=.\nskip=yes\ncolours=blue\n";
    assert_eq!(colour(conf, "START here\n"), "\x1b[31mSTART here\x1b[0m\n");
}

#[test]
fn count_once_colours_only_first_match_in_library() {
    let out = colour("regexp=o\ncolours=red\ncount=once\n", "o o o\n");
    assert_eq!(out, "\x1b[0m\x1b[31mo\x1b[0m o o\x1b[0m\n");
}

#[test]
fn count_more_colours_every_match_in_library() {
    let out = colour("regexp=o\ncolours=red\ncount=more\n", "o o o\n");
    assert_eq!(
        out,
        "\x1b[0m\x1b[31mo\x1b[0m \x1b[0m\x1b[31mo\x1b[0m \x1b[0m\x1b[31mo\x1b[0m\n"
    );
}

#[test]
fn extra_groups_reuse_first_colour_in_library() {
    let out = colour("regexp=(a)(b)(c)\ncolours=red\n", "abc\n");
    assert_eq!(out, "\x1b[0m\x1b[31mabc\x1b[0m\n");
}

#[test]
fn us_colour_spelling_accepted_in_library() {
    let out = colour("regexp=hi\ncolor=green\n", "hi there\n");
    assert_eq!(out, "\x1b[0m\x1b[32mhi\x1b[0m there\x1b[0m\n");
}

#[test]
fn multibyte_line_colours_correct_char_span_in_library() {
    let out = colour("regexp=é\ncolours=red\n", "aébé\n");
    assert_eq!(
        out,
        "\x1b[0ma\x1b[0m\x1b[31mé\x1b[0mb\x1b[0m\x1b[31mé\x1b[0m\n"
    );
}

#[test]
fn previous_colour_reuses_prior_group_colour_in_library() {
    let out = colour("regexp=(a)(b)\ncolours=red,previous\n", "ab\n");
    assert_eq!(out, "\x1b[0m\x1b[31mab\x1b[0m\n");
}

#[test]
fn crlf_only_strips_the_newline_in_library() {
    let out = colour("regexp=foo\ncolours=red\n", "foo\r\n");
    assert_eq!(out, "\x1b[0m\x1b[31mfoo\x1b[0m\r\x1b[0m\n");
}

#[test]
fn invalid_utf8_bytes_round_trip_unchanged_in_library() {
    let out = colour_bytes("regexp=none\ncolours=red\n", b"\xff\xfe none \xff\n");
    let expected: &[u8] = b"\x1b[0m\xff\xfe \x1b[0m\x1b[31mnone\x1b[0m \xff\x1b[0m\n";
    assert_eq!(out.as_slice(), expected);
}

#[test]
fn invalid_utf8_byte_inside_coloured_span_round_trips_in_library() {
    let out = colour_bytes("regexp=o.n\ncolours=red\n", b"no\xffne\n");
    let expected: &[u8] = b"\x1b[0mn\x1b[0m\x1b[31mo\xffn\x1b[0me\x1b[0m\n";
    assert_eq!(out.as_slice(), expected);
}

#[test]
fn concat_records_only_matching_lines() {
    let t = colour_table();
    let pats = parse_config("regexp=keep\nconcat=/tmp/sink\ncolours=red\n", &t).unwrap();
    let mut st = StreamState::new();
    let mut lines = Vec::new();
    for l in ["keep one", "drop", "keep two"] {
        match scan_line(&pats, &mut st, l.to_string()) {
            ScanOutcome::Done(ls) => {
                for a in ls.actions {
                    match a {
                        Action::Concat { path, line } => {
                            assert_eq!(path, "/tmp/sink");
                            lines.push(line);
                        }
                        Action::Command(_) => panic!("no command configured"),
                    }
                }
            }
            _ => panic!("scan did not finish"),
        }
    }
    assert_eq!(lines, vec!["keep one".to_string(), "keep two".to_string()]);
}

#[test]
fn command_is_asked_for_on_each_match() {
    let t = colour_table();
    let pats = parse_config("regexp=o\ncommand=echo hit\ncolours=red\ncount=once\n", &t).unwrap();
    let mut st = StreamState::new();
    match scan_line(&pats, &mut st, "o o".to_string()) {
        ScanOutcome::Done(ls) => {
            assert_eq!(ls.actions.len(), 1);
            match &ls.actions[0] {
                Action::Command(c) => assert_eq!(c, "echo hit"),
                _ => panic!("expected a command"),
            }
        }
        _ => panic!("scan did not finish"),
    }
}

#[test]
fn pattern_without_directives_repeats_forever() {
    // With no colours and nothing else to do, the matching loop never
    // advances: it would spin on the same match for ever.
    let t = colour_table();
    let pats = parse_config("regexp=x\n", &t).unwrap();
    let mut st = StreamState::new();
    match scan_line(&pats, &mut st, "x".to_string()) {
        ScanOutcome::Diverged { once, cycle } => {
            assert!(once.is_empty());
            assert!(cycle.is_empty());
        }
        _ => panic!("expected the loop to be reported as endless"),
    }
}

#[test]
fn trend_request_names_the_metric_span() {
    let t = colour_table();
    let cfg = "regexp=(\\w+)\\s+(\\d+)\ncolours=default,default\ntrend=rising:green,falling:red,steady:dark\nkey=1\nmetric=2\n";
    let pats = parse_config(cfg, &t).unwrap();
    let mut st = StreamState::new();
    match scan_line(&pats, &mut st, "eth0 42".to_string()) {
        ScanOutcome::Done(ls) => {
            assert_eq!(ls.requests.len(), 1);
            let r = &ls.requests[0];
            assert_eq!(r.pattern, 0);
            assert_eq!(r.key, "eth0");
            assert_eq!(r.metric, "42");
            // groups 0, 1 and 2 all take part: the metric is the third span
            assert_eq!(r.span, 2);
            assert_eq!(ls.spans[2], (5, 7, "\x1b[0m".to_string()));
            let mut spans = ls.spans.clone();
            apply_trend(&mut spans, &ls.requests, &vec![Some("\x1b[32m".to_string())]);
            assert_eq!(spans[2], (5, 7, "\x1b[32m".to_string()));
            assert_eq!(spans[0], ls.spans[0]);
            assert_eq!(spans[1], ls.spans[1]);
        }
        _ => panic!("scan did not finish"),
    }
}

#[test]
fn unanswered_trend_request_keeps_the_colour() {
    let mut spans = vec![(0usize, 3usize, "a".to_string()), (1, 2, "b".to_string())];
    let before = spans.clone();
    let t = colour_table();
    let cfg = "regexp=(\\w+)\ncolours=red\ntrend=rising:green\nmetric=1\n";
    let pats = parse_config(cfg, &t).unwrap();
    let mut st = StreamState::new();
    match scan_line(&pats, &mut st, "abc".to_string()) {
        ScanOutcome::Done(ls) => {
            assert_eq!(ls.requests.len(), 1);
            apply_trend(&mut spans, &ls.requests, &vec![None]);
            assert_eq!(spans, before);
        }
        _ => panic!("scan did not finish"),
    }
}

#[test]
fn strip_line_end_removes_one_byte_only() {
    let mut a = b"x\r\n".to_vec();
    strip_line_end(&mut a);
    assert_eq!(a, b"x\r");
    strip_line_end(&mut a);
    assert_eq!(a, b"x");
    strip_line_end(&mut a);
    assert_eq!(a, b"x");
    let mut e: Vec<u8> = Vec::new();
    strip_line_end(&mut e);
    assert!(e.is_empty());
}

#[test]
fn uncoloured_line_passes_through_between_resets() {
    let out = colour_bytes("regexp=zzz\ncolours=red\n", b"a\xffb\n");
    assert_eq!(out, b"\x1b[0ma\xffb\x1b[0m\n".to_vec());
}

#[test]
fn empty_line_is_a_reset_and_newline() {
    assert_eq!(colour("regexp=zzz\ncolours=red\n", "\n"), "\x1b[0m\n");
}

#[test]
fn previous_colour_carries_to_next_line_when_whole_line_painted() {
    // A span covering the whole line keeps its colour as the previous colour,
    // which the next line's `previous` group then uses.
    let conf = "regexp=^all$\ncolours=red\n======\nregexp=^p$\ncolours=previous\n";
    let out = colour(conf, "all\np\n");
    assert_eq!(out, "\x1b[0m\x1b[31mall\x1b[0m\n\x1b[0m\x1b[31mp\x1b[0m\n");
}

#[test]
fn previous_colour_resets_when_line_partly_painted() {
    let conf = "regexp=^al\ncolours=red\n======\nregexp=^p$\ncolours=previous\n";
    let out = colour(conf, "all\np\n");
    assert_eq!(out, "\x1b[0m\x1b[31mal\x1b[0ml\x1b[0m\n\x1b[0m\x1b[0mp\x1b[0m\n");
}

#[test]
fn render_skipped_line_still_updates_state() {
    let mut st = StreamState::new();
    st.blockflag = true;
    st.blockcolour = "B".to_string();
    let (line, orig) = decode_units(b"ab");
    let r = render_line(&line, &orig, false, &Vec::new(), true, &mut st);
    assert!(r.is_none());
    assert_eq!(st.prevcolour, "\x1b[0m");
    let r = render_line(&line, &orig, false, &Vec::new(), false, &mut st);
    assert_eq!(r.unwrap(), b"Bab\x1b[0m\n".to_vec());
}

#[test]
fn bad_regexp_is_reported() {
    let t = colour_table();
    let e = parse_config("regexp=(\ncolours=red\n", &t);
    assert!(matches!(e, Err(ConfigError::BadRegexp(_, _))));
}

#[test]
fn bad_colour_is_reported() {
    let t = colour_table();
    let e = parse_config("regexp=a\ncolours=nocolour\n", &t);
    assert!(matches!(e, Err(ConfigError::BadColour(_))));
}

#[test]
fn config_error_variants() {
    let t = colour_table();
    assert!(matches!(parse_config("regexp\n", &t), Err(ConfigError::MissingEquals(_))));
    assert!(matches!(parse_config("bogus=1\n", &t), Err(ConfigError::InvalidKeyword)));
    assert!(matches!(
        parse_config("regexp=a\ncolours=red\ntrend=rising\nmetric=1\n", &t),
        Err(ConfigError::BadTrendSpec(_))
    ));
    assert!(matches!(
        parse_config("regexp=a\ncolours=red\ntrend=upward:red\nmetric=1\n", &t),
        Err(ConfigError::UnknownTrendDirection(_))
    ));
    assert!(matches!(
        parse_config("regexp=a\ncolours=red\nkey=one\n", &t),
        Err(ConfigError::BadKeyGroup(_))
    ));
    assert!(matches!(
        parse_config("regexp=a\ncolours=red\nmetric=-1\n", &t),
        Err(ConfigError::BadMetricGroup(_))
    ));
}

#[test]
fn missing_equals_reports_the_line() {
    let t = colour_table();
    match parse_config("regexp=a\ncolour red\n", &t) {
        Err(ConfigError::MissingEquals(l)) => assert_eq!(l, "colour red"),
        _ => panic!("expected a missing `=`"),
    }
}

#[test]
fn key_and_metric_accept_padding_and_plus() {
    let t = colour_table();
    let pats = parse_config("regexp=(a)\ncolours=red\nkey= +1 \nmetric=01\n", &t).unwrap();
    assert_eq!(pats[0].key, Some(1));
    assert_eq!(pats[0].metric, Some(1));
}

#[test]
fn scanning_is_repeatable() {
    let t = colour_table();
    let pats = parse_config("regexp=(o)\ncolours=red,blue\n", &t).unwrap();
    let mut a = StreamState::new();
    let mut b = StreamState::new();
    let ra = scan_line(&pats, &mut a, "foo".to_string());
    let rb = scan_line(&pats, &mut b, "foo".to_string());
    match (ra, rb) {
        (ScanOutcome::Done(x), ScanOutcome::Done(y)) => {
            assert_eq!(x.spans, y.spans);
            assert_eq!(x.line, y.line);
            assert_eq!(x.spans.len(), 4);
        }
        _ => panic!("scan did not finish"),
    }
}

#[test]
fn plain_text_is_left_alone_by_the_rewriters() {
    assert_eq!(unescape("plain text"), "plain text");
    assert_eq!(convert_backrefs("plain text"), "plain text");
    assert_eq!(translate_regex(r"^\s*(\w+)\.\d"), r"^\s*(\w+)\.\d");
}

#[test]
fn decoded_units_join_back_to_the_input() {
    let raw: &[u8] = b"x\xe2\x82\xacy\xc3(\xff\xf0\x9f\x98\x80";
    let (s, orig) = decode_units(raw);
    assert_eq!(orig.concat(), raw.to_vec());
    assert_eq!(s.chars().count(), orig.len());
    let valid = "h\u{e9}llo \u{1F600}";
    let (s, orig) = decode_units(valid.as_bytes());
    assert_eq!(s, valid);
    assert_eq!(orig.len(), valid.chars().count());
}

#[test]
fn a_step_paints_the_groups_it_is_given() {
    let t = colour_table();
    let pats = parse_config("regexp=o\ncolours=red\ncount=once\n", &t).unwrap();
    let mut w = LineWork::new("foo".to_string());
    let mut st = StreamState::new();
    let mut c = MatchCursor::start(&pats);
    let k = take_step(&pats, &mut w, &mut st, &mut c, Search::Match(vec![Some((1, 2))], None));
    assert!(matches!(k, StepKind::Next));
    // `once`: the next search finds nothing and the pattern's loop ends
    let k = take_step(&pats, &mut w, &mut st, &mut c, Search::Nothing);
    assert!(matches!(k, StepKind::Next));
    let k = take_step(&pats, &mut w, &mut st, &mut c, Search::Nothing);
    assert!(matches!(k, StepKind::Finished));
    let ls = w.finish();
    assert_eq!(ls.spans, vec![(1, 2, "\x1b[31m".to_string())]);
    assert!(!ls.modified && !ls.skip);
}

#[test]
fn a_step_with_a_failed_replacement_cannot_go_on() {
    let t = colour_table();
    let pats = parse_config("regexp=o\nreplace=0\ncolours=red\n", &t).unwrap();
    let mut w = LineWork::new("foo".to_string());
    let mut st = StreamState::new();
    let mut c = MatchCursor::start(&pats);
    let k = take_step(&pats, &mut w, &mut st, &mut c, Search::Match(vec![Some((1, 2))], Some(None)));
    assert!(matches!(k, StepKind::Panicked));
}

#[test]
fn a_step_applies_the_replacement_it_is_given() {
    let t = colour_table();
    let pats = parse_config("regexp=o\nreplace=0\ncolours=red\ncount=stop\n", &t).unwrap();
    let mut w = LineWork::new("foo".to_string());
    let mut st = StreamState::new();
    let mut c = MatchCursor::start(&pats);
    let found = Search::Match(vec![Some((1, 2))], Some(Some("f00".to_string())));
    let k = take_step(&pats, &mut w, &mut st, &mut c, found);
    assert!(matches!(k, StepKind::Finished));
    let ls = w.finish();
    assert_eq!(ls.line, "f00");
    assert!(ls.modified);
    assert_eq!(ls.spans, vec![(1, 2, "\x1b[31m".to_string())]);
}

#[test]
fn each_unit_is_its_char_or_one_invalid_byte() {
    let raw: &[u8] = b"a\xc3\xa9\xff\xe2\x82b\xf0\x9f\x98\x80";
    let (s, orig) = decode_units(raw);
    let cs: Vec<char> = s.chars().collect();
    assert_eq!(cs.len(), orig.len());
    assert_eq!(orig.concat(), raw.to_vec());
    let mut off = 0;
    for i in 0..cs.len() {
        if orig[i] != ch_bytes(cs[i]) {
            assert_eq!(cs[i], '\u{FFFD}');
            assert_eq!(orig[i].len(), 1);
            assert_eq!(orig[i][0], raw[off]);
        }
        off += orig[i].len();
    }
    // \xff, then \xe2 and \x82 (a truncated three-byte scalar) are lone units
    assert_eq!(orig[2], vec![0xff]);
    assert_eq!(orig[3], vec![0xe2]);
    assert_eq!(orig[4], vec![0x82]);
}

#[test]
fn valid_utf8_units_are_the_char_encodings() {
    let text = "gr\u{fc}\u{df}e \u{20ac} \u{1F600}";
    let (s, orig) = decode_units(text.as_bytes());
    assert_eq!(s, std::str::from_utf8(text.as_bytes()).unwrap());
    let expected: Vec<Vec<u8>> = s.chars().map(ch_bytes).collect();
    assert_eq!(orig, expected);
}

#[test]
fn keepout_in_lookbehind_moves_the_match_start_back() {
    // `\K` inside a lookbehind gives a match that starts before the search
    // position; the scan goes on from the match's end.
    let out = colour("regexp=b|(?<=a\\Kb)c\ncolours=red\n", "abc\n");
    assert_eq!(out, "\x1b[0ma\x1b[0m\x1b[31mbc\x1b[0m\n");
}

#[test]
fn replace_on_a_keepout_pattern_cannot_go_on() {
    let t = colour_table();
    let pats = parse_config("regexp=b|(?<=a\\Kb)c\nreplace=X\ncolours=red\n", &t).unwrap();
    let mut st = StreamState::new();
    assert!(matches!(scan_line(&pats, &mut st, "abc".to_string()), ScanOutcome::Panicked(_)));
}
