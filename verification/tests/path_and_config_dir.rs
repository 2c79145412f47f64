use wrappy::catalog::{config_file_name, configured_command_names};
use wrappy::config::CommandConfig;
use wrappy::path_search::{
    choose_real_command, config_dir, is_runnable, path_not_set_message,
    unresolved_command_message, CandidateProbe,
};

fn probe(is_file: bool, mode: u32, is_self: bool) -> CandidateProbe {
    CandidateProbe { is_file, mode, is_self }
}

#[test]
fn first_runnable_candidate_is_chosen() {
    let probes = vec![
        probe(false, 0o755, false),
        probe(true, 0o644, false),
        probe(true, 0o755, true),
        probe(true, 0o700, false),
        probe(true, 0o755, false),
    ];
    assert_eq!(choose_real_command(&probes), Some(3));
    assert!(is_runnable(&probe(true, 0o001, false)));
    assert!(!is_runnable(&probe(true, 0o666, false)));
}

#[test]
fn no_runnable_candidate() {
    assert_eq!(choose_real_command(&vec![]), None);
    assert_eq!(choose_real_command(&vec![probe(true, 0o755, true), probe(false, 0o755, false)]), None);
    assert_eq!(path_not_set_message(), "PATH is not set");
    assert_eq!(
        unresolved_command_message("git"),
        "could not resolve underlying command `git` in PATH"
    );
}

#[test]
fn config_directory_location() {
    let (base, parts) = config_dir(Some(b"/x".to_vec()), Some(b"/home/u".to_vec())).unwrap();
    assert_eq!(base, b"/x".to_vec());
    assert_eq!(parts, vec!["wrappy"]);
    let (base, parts) = config_dir(None, Some(b"/home/u".to_vec())).unwrap();
    assert_eq!(base, b"/home/u".to_vec());
    assert_eq!(parts, vec![".config", "wrappy"]);
    let (base, _) = config_dir(Some(Vec::new()), None).unwrap();
    assert!(base.is_empty());
    assert_eq!(
        config_dir(None, None).unwrap_err(),
        "cannot resolve config directory because neither XDG_CONFIG_HOME nor HOME is set"
    );
}

#[test]
fn config_file_names_are_listed_as_their_command() {
    let name = config_file_name("git");
    assert_eq!(name, "git.toml");
    assert_eq!(configured_command_names(&vec![name]), vec!["git"]);
}

#[test]
fn configurations_are_well_formed() {
    let config = CommandConfig::from_aliases(vec![
        ("a".to_string(), vec!["b".to_string()]),
        ("c d".to_string(), vec!["e".to_string()]),
    ])
    .unwrap();
    config.lemma_well_formed();
    assert_eq!(config.rewrite_strings(&vec!["c".to_string(), "d".to_string()]), vec!["e"]);
}
