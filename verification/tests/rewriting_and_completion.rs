use std::collections::BTreeMap;

use wrappy::cli::{parse_complete_args, parse_rewrite_args, CompletionFormat, RewriteFormat};
use wrappy::config::CommandConfig;
use wrappy::zsh::render_zsh_init;

fn config(aliases: &[(&str, &[&str])]) -> CommandConfig {
    let alias_map = aliases
        .iter()
        .map(|(key, value)| {
            (
                (*key).to_string(),
                value.iter().map(|token| (*token).to_string()).collect::<Vec<String>>(),
            )
        })
        .collect::<BTreeMap<_, _>>();

    CommandConfig::from_aliases(alias_map.into_iter().collect()).expect("config should parse")
}

#[test]
fn rewrites_simple_aliases() {
    let config = config(&[("rm", &["remove"])]);
    let args = vec!["rm".to_string(), "foo".to_string()];

    assert_eq!(config.rewrite_strings(&args), vec!["remove", "foo"]);
}

#[test]
fn longest_prefix_wins() {
    let config = config(&[("team", &["squad"]), ("team ls", &["team", "list"])]);
    let args = vec!["team".to_string(), "ls".to_string(), "--json".to_string()];

    assert_eq!(
        config.rewrite_strings(&args),
        vec!["team", "list", "--json"]
    );
}

#[test]
fn stops_matching_at_flags() {
    let config = config(&[("rm", &["remove"])]);
    let args = vec!["-C".to_string(), "repo".to_string(), "rm".to_string()];

    assert_eq!(config.rewrite_strings(&args), args);
}

#[test]
fn preserves_double_dash_passthrough() {
    let config = config(&[("rm", &["remove"])]);
    let args = vec![
        "rm".to_string(),
        "--".to_string(),
        "--weird".to_string(),
        "arg".to_string(),
    ];

    assert_eq!(
        config.rewrite_strings(&args),
        vec!["remove", "--", "--weird", "arg"]
    );
}

#[test]
fn suggests_aliases_by_position() {
    let config = config(&[
        ("rm", &["remove"]),
        ("team ls", &["team", "list"]),
        ("team rm", &["team", "remove"]),
    ]);
    let suggestions = config.alias_suggestions(&vec!["team".to_string()]);
    let top_level = suggestions
        .iter()
        .find(|suggestion| suggestion.position == 1)
        .expect("top-level suggestions should exist");
    let nested = suggestions
        .iter()
        .find(|suggestion| suggestion.position == 2)
        .expect("nested suggestions should exist");

    assert_eq!(top_level.values, vec!["rm"]);
    assert_eq!(nested.values, vec!["ls", "rm"]);
}

#[test]
fn renders_zsh_wrappers() {
    let output = render_zsh_init(&vec!["wt".to_string()]);

    assert!(output.contains("_wrappy_complete_wrappywt()"));
    assert!(output.contains("_wrappy_try_wrap_command 'wt' 'wrappywt'"));
    assert!(output.contains("command wrappy rewrite --format zsh"));
    assert!(output.contains("_wrappy_register_completion 'wt' _wrappy_complete_wrappywt"));
}

#[test]
fn completion_output_rewrites_current_and_alias_values() {
    let config = config(&[("cfg", &["config", "get-value"])]);
    let output =
        config.completion_output("wt", &vec!["cfg".to_string(), "foo".to_string()], Some(2));

    assert_eq!(output.rewritten, vec!["wt", "config", "get-value", "foo"]);
    assert_eq!(output.rewritten_current, Some(3));
    assert_eq!(output.alias_values, Vec::<String>::new());
}

#[test]
fn completion_output_returns_alias_values_for_current_position() {
    let config = config(&[
        ("rm", &["remove"]),
        ("team ls", &["team", "list"]),
        ("team rm", &["team", "remove"]),
    ]);
    let output = config.completion_output("wt", &vec!["team".to_string()], Some(2));

    assert_eq!(output.alias_values, vec!["ls", "rm"]);
}

#[test]
fn parse_complete_args_supports_format_and_current() {
    let args = vec![
        b"--format".to_vec(),
        b"zsh".to_vec(),
        b"--current".to_vec(),
        b"3".to_vec(),
        b"wt".to_vec(),
        b"wt".to_vec(),
        b"rm".to_vec(),
    ];

    let (options, command_name, words) = parse_complete_args(&args).expect("args should parse");

    assert_eq!(options.format, CompletionFormat::Zsh);
    assert_eq!(options.current, Some(3));
    assert_eq!(command_name, "wt");
    assert_eq!(words, vec!["wt", "rm"]);
}

#[test]
fn parse_rewrite_args_supports_format() {
    let args = vec![
        b"--format".to_vec(),
        b"zsh".to_vec(),
        b"wt".to_vec(),
        b"ls".to_vec(),
    ];

    let (options, command_name, rewrite_args) =
        parse_rewrite_args(&args).expect("args should parse");

    assert_eq!(options.format, RewriteFormat::Zsh);
    assert_eq!(command_name, "wt");
    assert_eq!(rewrite_args, vec![b"ls".to_vec()]);
}
