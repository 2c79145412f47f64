use std::collections::BTreeMap;

use wrappy::args::{decode_args, leading_subcommand_len_os, leading_subcommand_len_strings};
use wrappy::catalog::{configured_command_names, toml_stem_of};
use wrappy::cli::{
    interpret_invocation, parse_complete_args, parse_complete_words, parse_completion_current,
    parse_completion_format, parse_invocation, parse_rewrite_args, parse_rewrite_format,
    parse_rewrite_words, CompletionFormat, Invocation, RewriteFormat,
};
use wrappy::config::{rewrite_completion_position, split_alias_key, CommandConfig};
use wrappy::decimal::{parse_usize, push_decimal, IntErrorKind};
use wrappy::order::{string_less, words_less};
use wrappy::text::{
    is_option_like_os, is_option_like_string, is_safe_zsh_function_name, is_whitespace_char,
    quote_words, sanitize_zsh_identifier, shell_quote, split_words_of,
};
use wrappy::zsh::{
    format_os_strings, render_zsh_completion_reply, render_zsh_init, render_zsh_rewrite_reply,
    ZSH_INIT_ACTIVATION, ZSH_INIT_PRELUDE,
};

fn entries(aliases: &[(&str, &[&str])]) -> Vec<(String, Vec<String>)> {
    aliases
        .iter()
        .map(|(key, value)| {
            (
                (*key).to_string(),
                value.iter().map(|token| (*token).to_string()).collect::<Vec<String>>(),
            )
        })
        .collect::<BTreeMap<_, _>>()
        .into_iter()
        .collect()
}

fn config(aliases: &[(&str, &[&str])]) -> CommandConfig {
    CommandConfig::from_aliases(entries(aliases)).expect("config should parse")
}

fn words(values: &[&str]) -> Vec<String> {
    values.iter().map(|value| (*value).to_string()).collect()
}

fn raw(values: &[&str]) -> Vec<Vec<u8>> {
    values.iter().map(|value| value.as_bytes().to_vec()).collect()
}

#[test]
fn empty_alias_key_is_rejected() {
    let result = CommandConfig::from_aliases(entries(&[(" \t ", &["x"])]));
    assert_eq!(result.unwrap_err(), "alias keys cannot be empty");
}

#[test]
fn empty_expansion_is_rejected() {
    let result = CommandConfig::from_aliases(entries(&[("rm", &[])]));
    assert_eq!(result.unwrap_err(), "alias `rm` must expand to at least one token");
}

#[test]
fn first_invalid_entry_is_reported() {
    let result = CommandConfig::from_aliases(entries(&[("b", &[]), ("a", &[]), ("c", &["x"])]));
    assert_eq!(result.unwrap_err(), "alias `a` must expand to at least one token");
}

#[test]
fn alias_keys_split_at_any_white_space() {
    let split = split_alias_key("  team\tls\u{3000}all ").unwrap();
    assert_eq!(split, vec!["team", "ls", "all"]);
    assert_eq!(split_words_of("a\u{85}b\u{a0}c d"), vec!["a", "b", "c", "d"]);
    assert_eq!(split_alias_key("").unwrap_err(), "alias keys cannot be empty");
    assert!(is_whitespace_char('\u{2028}'));
    assert!(!is_whitespace_char('x'));
}

#[test]
fn longer_keys_are_tried_first_then_key_order() {
    let config = config(&[("b", &["B"]), ("a", &["A"]), ("a c", &["AC"])]);
    assert_eq!(config.rewrite_strings(&words(&["a", "c", "z"])), vec!["AC", "z"]);
    assert_eq!(config.rewrite_strings(&words(&["a", "d"])), vec!["A", "d"]);
    assert_eq!(config.rewrite_strings(&words(&["b"])), vec!["B"]);
    let matched = config.resolve_strings(&words(&["a", "c"])).unwrap();
    assert_eq!(matched.consumed, 2);
}

#[test]
fn keys_with_the_same_words_keep_their_entry_order() {
    let config = config(&[("a  b", &["first"]), ("a b", &["second"])]);
    assert_eq!(config.rewrite_strings(&words(&["a", "b"])), vec!["first"]);
}

#[test]
fn unmatched_arguments_are_unchanged() {
    let config = config(&[("rm", &["remove"])]);
    assert_eq!(config.rewrite_strings(&words(&["ls", "rm"])), vec!["ls", "rm"]);
    assert!(config.resolve_strings(&words(&[])).is_none());
    let empty = CommandConfig::default();
    assert_eq!(empty.rewrite_strings(&words(&["rm"])), vec!["rm"]);
}

#[test]
fn match_leading_tokens_finds_first_prefix_rule() {
    let config = config(&[("x", &["y"]), ("x z", &["w"])]);
    let matched = config.match_leading_tokens(&words(&["x", "q"])).unwrap();
    assert_eq!(matched.consumed, 1);
    assert!(config.match_leading_tokens(&words(&["q"])).is_none());
}

#[test]
fn raw_arguments_keep_their_bytes() {
    let config = config(&[("rm", &["remove", "--force"])]);
    let args = vec![b"rm".to_vec(), vec![0xff, 0xfe], b"-x".to_vec()];
    let rewritten = config.rewrite_os_strings(&args);
    assert_eq!(rewritten, vec![b"remove".to_vec(), b"--force".to_vec(), vec![0xff, 0xfe], b"-x".to_vec()]);
    let untouched = vec![vec![0xff], b"rm".to_vec()];
    assert_eq!(config.rewrite_os_strings(&untouched), untouched);
    assert!(config.resolve_os_strings(&raw(&["-v", "rm"])).is_none());
}

#[test]
fn raw_rewrite_agrees_with_text_rewrite() {
    let config = config(&[("é x", &["ü"]), ("rm", &["remove"])]);
    let text = words(&["é", "x", "ñ", "--y"]);
    let encoded: Vec<Vec<u8>> = text.iter().map(|w| w.as_bytes().to_vec()).collect();
    let rewritten_text = config.rewrite_strings(&text);
    let rewritten_raw = config.rewrite_os_strings(&encoded);
    let expected: Vec<Vec<u8>> = rewritten_text.iter().map(|w| w.as_bytes().to_vec()).collect();
    assert_eq!(rewritten_raw, expected);
    assert_eq!(rewritten_text, vec!["ü", "ñ", "--y"]);
}

#[test]
fn rewrite_output_decodes_lossily() {
    let config = config(&[("rm", &["remove"])]);
    let output = config.rewrite_output(&vec![b"rm".to_vec(), vec![b'a', 0xff]]);
    assert_eq!(output.args, vec!["remove".to_string(), "a\u{fffd}".to_string()]);
}

#[test]
fn decoding_is_lossy() {
    assert_eq!(decode_args(&vec![b"ok".to_vec(), vec![0x66, 0x80, 0x6f]]), vec!["ok", "f\u{fffd}o"]);
}

#[test]
fn leading_path_stops_at_first_option() {
    assert_eq!(leading_subcommand_len_strings(&words(&["a", "b", "-c", "d"])), 2);
    assert_eq!(leading_subcommand_len_strings(&words(&[])), 0);
    assert_eq!(leading_subcommand_len_os(&raw(&["a", "--", "b"])), 1);
    assert!(is_option_like_string("-"));
    assert!(!is_option_like_string(""));
    assert!(is_option_like_os(b"--x"));
    assert!(!is_option_like_os(b"x-"));
}

#[test]
fn suggestions_are_sorted_and_unique() {
    let config = config(&[("b", &["x"]), ("a", &["y"]), ("t z", &["q"]), ("t y", &["q"]), ("u y", &["q"])]);
    let suggestions = config.alias_suggestions(&words(&["t", "--flag"]));
    assert_eq!(suggestions.len(), 2);
    assert_eq!(suggestions[0].position, 1);
    assert_eq!(suggestions[0].values, vec!["a", "b"]);
    assert_eq!(suggestions[1].position, 2);
    assert_eq!(suggestions[1].values, vec!["y", "z"]);
    assert_eq!(config.alias_values_for_position(&words(&["t"]), 0), Vec::<String>::new());
    assert_eq!(config.alias_values_for_position(&words(&["t"]), 3), Vec::<String>::new());
    assert_eq!(config.alias_values_for_position(&words(&["t"]), 2), vec!["y", "z"]);
}

#[test]
fn completion_cursor_moves_across_rewrite() {
    assert_eq!(rewrite_completion_position(1, 2, 3), 3);
    assert_eq!(rewrite_completion_position(2, 2, 0), 1);
    assert_eq!(rewrite_completion_position(5, 2, 1), 4);
    let config = config(&[("cfg", &["config", "get-value"])]);
    let output = config.completion_output("wt", &words(&["cfg"]), Some(1));
    assert_eq!(output.rewritten_current, Some(2));
    let output = config.completion_output("wt", &words(&["other"]), Some(7));
    assert_eq!(output.rewritten_current, Some(7));
    let output = config.completion_output("wt", &words(&["cfg"]), None);
    assert_eq!(output.rewritten_current, None);
    assert!(output.alias_values.is_empty());
    assert_eq!(output.aliases.len(), 1);
}

#[test]
fn cursor_stays_on_its_word() {
    let config = config(&[("cfg", &["config", "get-value"])]);
    let args = words(&["cfg", "foo", "bar"]);
    let output = config.completion_output("wt", &args, Some(3));
    let moved = output.rewritten_current.unwrap();
    assert_eq!(output.rewritten[moved], "bar");
}

#[test]
fn complete_response_counts_the_command_name() {
    let config = config(&[("cfg", &["config", "get-value"])]);
    let response = config.complete_response("wt", &words(&["wt", "cfg", "foo"]), Some(3));
    assert_eq!(response.rewritten, vec!["wt", "config", "get-value", "foo"]);
    assert_eq!(response.rewritten_current, Some(4));
    let response = config.complete_response("wt", &words(&["cfg", "foo"]), Some(0));
    assert_eq!(response.rewritten_current, Some(3));
    let response = config.complete_response("wt", &words(&["wt"]), Some(0));
    assert_eq!(response.rewritten, vec!["wt"]);
    assert_eq!(response.rewritten_current, Some(1));
    assert!(config.completion_request_fits("wt", &words(&["wt", "cfg"]), Some(5)));
    assert!(!config.completion_request_fits("wt", &words(&["x"]), Some(usize::MAX)));
    assert!(!config.completion_request_fits("wt", &words(&["cfg", "a"]), Some(usize::MAX)));
    assert!(config.completion_request_fits("wt", &words(&["cfg", "a"]), None));
}

#[test]
fn formats_are_read() {
    assert_eq!(parse_completion_format("json").unwrap(), CompletionFormat::Json);
    assert_eq!(parse_completion_format("zsh").unwrap(), CompletionFormat::Zsh);
    assert_eq!(
        parse_completion_format("xml").unwrap_err(),
        "unsupported completion format `xml`; expected `json` or `zsh`"
    );
    assert_eq!(parse_rewrite_format("json").unwrap(), RewriteFormat::Json);
    assert_eq!(
        parse_rewrite_format("Zsh").unwrap_err(),
        "unsupported rewrite format `Zsh`; expected `json` or `zsh`"
    );
}

#[test]
fn positions_are_read_as_usize() {
    assert_eq!(parse_usize("0"), Ok(0));
    assert_eq!(parse_usize("+42"), Ok(42));
    assert_eq!(parse_usize("007"), Ok(7));
    assert_eq!(parse_usize(""), Err(IntErrorKind::Empty));
    assert_eq!(parse_usize("+"), Err(IntErrorKind::InvalidDigit));
    assert_eq!(parse_usize("-"), Err(IntErrorKind::InvalidDigit));
    assert_eq!(parse_usize("-1"), Err(IntErrorKind::InvalidDigit));
    assert_eq!(parse_usize("1 "), Err(IntErrorKind::InvalidDigit));
    assert_eq!(parse_usize(&usize::MAX.to_string()), Ok(usize::MAX));
    let too_large = format!("{}0", usize::MAX);
    assert_eq!(parse_usize(&too_large), Err(IntErrorKind::PosOverflow));
    assert_eq!(parse_usize(&format!("{}x", too_large)), Err(IntErrorKind::PosOverflow));
    for text in ["", "+", "12a", "99999999999999999999999", "5"] {
        let expected = text.parse::<usize>();
        let got = parse_usize(text);
        assert_eq!(got.is_ok(), expected.is_ok(), "{text}");
        if let Err(error) = expected {
            assert_eq!(got.unwrap_err().message(), error.to_string(), "{text}");
        }
    }
}

#[test]
fn invalid_position_message() {
    assert_eq!(
        parse_completion_current("x").unwrap_err(),
        "invalid completion position `x`: invalid digit found in string"
    );
    assert_eq!(
        parse_completion_current("").unwrap_err(),
        "invalid completion position ``: cannot parse integer from empty string"
    );
    assert_eq!(parse_completion_current("12").unwrap(), 12);
}

#[test]
fn decimal_rendering_reads_back() {
    for n in [0usize, 7, 10, 1234, usize::MAX] {
        let mut text = String::new();
        push_decimal(&mut text, n);
        assert_eq!(text, n.to_string());
        assert_eq!(parse_usize(&text), Ok(n));
    }
}

#[test]
fn complete_arguments_errors() {
    assert_eq!(
        parse_complete_args(&raw(&["--format"])).unwrap_err(),
        "missing value for `wrappy complete --format`"
    );
    assert_eq!(
        parse_complete_args(&raw(&["--current"])).unwrap_err(),
        "missing value for `wrappy complete --current`"
    );
    assert_eq!(
        parse_complete_args(&raw(&["--bogus", "wt"])).unwrap_err(),
        "unknown option for `complete`: --bogus"
    );
    assert_eq!(
        parse_complete_args(&raw(&["--format", "json"])).unwrap_err(),
        "missing wrapped command for `complete`"
    );
    assert_eq!(
        parse_complete_args(&raw(&["--current", "x", "wt"])).unwrap_err(),
        "invalid completion position `x`: invalid digit found in string"
    );
    let (options, command, rest) = parse_complete_words(&words(&["--", "-wt", "a"])).unwrap();
    assert_eq!(options.format, CompletionFormat::Json);
    assert_eq!(options.current, None);
    assert_eq!(command, "-wt");
    assert_eq!(rest, vec!["a"]);
}

#[test]
fn rewrite_arguments_errors() {
    assert_eq!(
        parse_rewrite_args(&raw(&["--format"])).unwrap_err(),
        "missing value for `wrappy rewrite --format`"
    );
    assert_eq!(
        parse_rewrite_args(&raw(&["-x"])).unwrap_err(),
        "unknown option for `rewrite`: -x"
    );
    assert_eq!(parse_rewrite_args(&raw(&[])).unwrap_err(), "missing wrapped command for `rewrite`");
    assert_eq!(parse_rewrite_args(&raw(&["--"])).unwrap_err(), "missing wrapped command for `rewrite`");
    let (options, command, rest) =
        parse_rewrite_args(&vec![b"--".to_vec(), b"wt".to_vec(), vec![0xff], b"-z".to_vec()]).unwrap();
    assert_eq!(options.format, RewriteFormat::Json);
    assert_eq!(command, "wt");
    assert_eq!(rest, vec![vec![0xff], b"-z".to_vec()]);
    let (options, index) = parse_rewrite_words(&words(&["--format", "json", "wt"])).unwrap();
    assert_eq!(options.format, RewriteFormat::Json);
    assert_eq!(index, 2);
}

#[test]
fn invocations_are_read() {
    assert!(matches!(parse_invocation(&raw(&[])), Ok(Invocation::Help)));
    assert!(matches!(parse_invocation(&raw(&["-h"])), Ok(Invocation::Help)));
    assert!(matches!(parse_invocation(&raw(&["--version"])), Ok(Invocation::Version)));
    assert!(matches!(parse_invocation(&raw(&["init", "zsh", "extra"])), Ok(Invocation::InitZsh)));
    assert_eq!(
        parse_invocation(&raw(&["init", "bash"])).unwrap_err(),
        "unsupported shell `bash`; only `zsh` is available in v0"
    );
    assert_eq!(parse_invocation(&raw(&["init"])).unwrap_err(), "missing shell name for `init`");
    assert_eq!(parse_invocation(&raw(&["exec"])).unwrap_err(), "missing wrapped command for `exec`");
    assert_eq!(
        parse_invocation(&raw(&["exec", ""])).unwrap_err(),
        "wrapped command name cannot be empty"
    );
    assert_eq!(parse_invocation(&raw(&["frob"])).unwrap_err(), "unknown subcommand `frob`");
    match parse_invocation(&vec![b"exec".to_vec(), b"git".to_vec(), vec![0xfe], b"st".to_vec()]) {
        Ok(Invocation::Exec { command_name, args }) => {
            assert_eq!(command_name, "git");
            assert_eq!(args, vec![vec![0xfe], b"st".to_vec()]);
        }
        other => panic!("unexpected {other:?}"),
    }
    match parse_invocation(&raw(&["rewrite", "--format", "zsh", "git", "st"])) {
        Ok(Invocation::Rewrite { rewrite_options, command_name, args }) => {
            assert_eq!(rewrite_options.format, RewriteFormat::Zsh);
            assert_eq!(command_name, "git");
            assert_eq!(args, raw(&["st"]));
        }
        other => panic!("unexpected {other:?}"),
    }
    match interpret_invocation(&words(&["complete", "--current", "2", "git", "git", "s"]), &raw(&["complete", "--current", "2", "git", "git", "s"])) {
        Ok(Invocation::Complete { complete_options, command_name, words }) => {
            assert_eq!(complete_options.current, Some(2));
            assert_eq!(command_name, "git");
            assert_eq!(words, vec!["git", "s"]);
        }
        other => panic!("unexpected {other:?}"),
    }
}

#[test]
fn shell_quoting() {
    assert_eq!(shell_quote("plain"), "'plain'");
    assert_eq!(shell_quote("it's"), "'it'\\''s'");
    assert_eq!(shell_quote(""), "''");
    assert_eq!(quote_words(&words(&["a b", "c"])), "'a b' 'c'");
    assert_eq!(quote_words(&words(&[])), "");
}

#[test]
fn zsh_identifiers() {
    assert_eq!(sanitize_zsh_identifier("git-lfs.x"), "wrappygit_lfs_x");
    assert_eq!(sanitize_zsh_identifier("é"), "wrappy_");
    assert!(is_safe_zsh_function_name("git-lfs_2.0"));
    assert!(!is_safe_zsh_function_name("-x"));
    assert!(!is_safe_zsh_function_name(""));
    assert!(!is_safe_zsh_function_name("a b"));
    assert!(!is_safe_zsh_function_name("é"));
}

#[test]
fn init_script_layout() {
    let script = render_zsh_init(&words(&["wt", "bad name"]));
    let expected = format!(
        "{ZSH_INIT_PRELUDE}_wrappy_complete_wrappywt() {{\n  _wrappy_complete_dispatch 'wt'\n}}\n# skipped unsupported command name 'bad name'\n_wrappy_try_wrap_all() {{\n  emulate -L zsh\n  _wrappy_try_wrap_command 'wt' 'wrappywt' || return 1\n  return 0\n}}\n\n_wrappy_try_register_all() {{\n  emulate -L zsh\n  _wrappy_register_completion 'wt' _wrappy_complete_wrappywt || return 1\n{ZSH_INIT_ACTIVATION}"
    );
    assert_eq!(script, expected);
    assert!(script.starts_with("# wrappy init zsh\n"));
    assert!(script.ends_with("  _wrappy_activate || true\nfi\n"));
}

#[test]
fn zsh_replies() {
    let config = config(&[("rm", &["remove"]), ("team ls", &["team", "list"])]);
    let response = config.complete_response("wt", &words(&["wt", "team"]), Some(2));
    assert_eq!(
        render_zsh_completion_reply(&response),
        "typeset -ga _wrappy_reply_rewritten=('wt' 'team')\ntypeset -ga _wrappy_reply_alias_values=('rm')\ntypeset -gi _wrappy_reply_rewritten_current=2\n"
    );
    let response = config.complete_response("wt", &words(&["x"]), None);
    assert_eq!(
        render_zsh_completion_reply(&response),
        "typeset -ga _wrappy_reply_rewritten=('wt' 'x')\ntypeset -ga _wrappy_reply_alias_values=()\ntypeset -gi _wrappy_reply_rewritten_current=0\n"
    );
    assert_eq!(
        render_zsh_rewrite_reply(&vec![b"it's".to_vec(), vec![0xff]]),
        "typeset -ga _wrappy_reply_args=('it'\\''s' '\u{fffd}')\n"
    );
    assert_eq!(format_os_strings(&raw(&["a", "b c"])), "'a' 'b c'");
}

#[test]
fn configured_commands_from_file_names() {
    let names = words(&["zz.toml", "b.toml", "a.toml", "x.txt", ".toml", "c.d.toml", "..toml", "toml"]);
    assert_eq!(configured_command_names(&names), vec![".", "a", "b", "c.d", "zz"]);
    assert_eq!(toml_stem_of("git.toml"), Some("git".to_string()));
    assert_eq!(toml_stem_of("git.tom"), None);
}

#[test]
fn string_order_is_byte_order() {
    assert!(string_less("a", "b"));
    assert!(string_less("a", "ab"));
    assert!(!string_less("b", "a"));
    assert!(!string_less("a", "a"));
    assert!(string_less("Z", "a"));
    assert!(string_less("z", "é"));
    assert!(words_less(&words(&["a", "b"]), &words(&["a", "c"])));
    assert!(words_less(&words(&["a"]), &words(&["a", "a"])));
    assert!(!words_less(&words(&["b"]), &words(&["a", "z"])));
}
