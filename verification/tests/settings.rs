//! The configuration and what the user can ask for.

use consensus::cli::{choose_task, with_file, with_input, Commands, Task};
use consensus::config::{
    default_history_db_path, default_max_tokens, default_retries, default_timeout, example_config,
    expand_tilde, expand_to, explain_load_error, require_providers, Config, ConfigSource, Expansion,
    ProviderConfig,
};
use std::path::PathBuf;

fn provider(name: &str, model: &str) -> ProviderConfig {
    ProviderConfig {
        name: name.to_string(),
        base_url: "https://api.example.com/v1".to_string(),
        api_key: "key".to_string(),
        model: model.to_string(),
        label: None,
        max_tokens: None,
        timeout_secs: None,
    }
}

fn config(providers: Vec<ProviderConfig>) -> Config {
    Config {
        providers,
        temperature_bits: 0.3f32.to_bits(),
        max_tokens: default_max_tokens(),
        timeout_secs: default_timeout(),
        max_retries: default_retries(),
        history_db_path: default_history_db_path(),
    }
}

fn path_of(expansion: Expansion) -> PathBuf {
    match expansion {
        Expansion::AsGiven { path } => PathBuf::from(path),
        Expansion::UnderHome { home, rest } => home.join(rest),
    }
}

#[test]
fn test_expand_tilde() {
    let path = "~/test/config.toml";
    let expanded = path_of(expand_tilde(path));
    assert!(!expanded.to_string_lossy().starts_with('~'));
}

#[test]
fn test_example_config_parse() {
    let config: toml::Value = toml::from_str(&example_config()).unwrap();
    let providers = config["providers"].as_array().unwrap();
    assert_eq!(providers.len(), 3);
    assert_eq!(providers[0]["name"].as_str().unwrap(), "kiro");
}

fn text(table: &toml::Value, key: &str) -> String {
    table[key].as_str().unwrap().to_string()
}

#[test]
fn the_example_is_a_configuration() {
    let example: toml::Value = toml::from_str(&example_config()).unwrap();
    let mut read = config(vec![]);
    for table in example["providers"].as_array().unwrap() {
        read.providers.push(ProviderConfig {
            name: text(table, "name"),
            base_url: text(table, "base_url"),
            api_key: text(table, "api_key"),
            model: text(table, "model"),
            label: table.get("label").map(|v| v.as_str().unwrap().to_string()),
            max_tokens: table.get("max_tokens").map(|v| v.as_integer().unwrap() as u32),
            timeout_secs: table.get("timeout_secs").map(|v| v.as_integer().unwrap() as u64),
        });
    }
    read.temperature_bits = (example["temperature"].as_float().unwrap() as f32).to_bits();
    assert_eq!(f32::from_bits(read.temperature_bits), 0.3);
    let loaded = Config::load("example.toml", ConfigSource::Parsed(read)).unwrap();
    let names: Vec<&str> = loaded.providers.iter().map(|p| p.name.as_str()).collect();
    assert_eq!(names, vec!["kiro", "codex", "mimo"]);
    for p in &loaded.providers {
        assert_eq!(p.base_url, "https://api.example.com/v1");
        assert_eq!(p.api_key, "your-api-key-here");
        assert!(!p.model.is_empty());
        assert!(p.display_name() != p.name);
    }
}

#[test]
fn test_history_db_path_default() {
    let config: toml::Value = toml::from_str(&example_config()).unwrap();
    assert!(config["history_db_path"].as_str().unwrap().contains("history.db"));
}

#[test]
fn the_example_holds_the_defaults() {
    let example: toml::Value = toml::from_str(&example_config()).unwrap();
    assert_eq!(example["max_tokens"].as_integer().unwrap(), default_max_tokens() as i64);
    assert_eq!(example["timeout_secs"].as_integer().unwrap(), default_timeout() as i64);
    assert_eq!(example["max_retries"].as_integer().unwrap(), default_retries() as i64);
    assert_eq!(example["history_db_path"].as_str().unwrap(), default_history_db_path());
    assert_eq!(default_max_tokens(), 4096);
    assert_eq!(default_timeout(), 120);
    assert_eq!(default_retries(), 2);
    assert_eq!(default_history_db_path(), "~/.config/consensus/history.db");
}

#[test]
fn a_tilde_leads_home() {
    let home = || Some(PathBuf::from("/home/ada"));
    assert_eq!(path_of(expand_to("~/x/y", home())), PathBuf::from("/home/ada/x/y"));
    assert_eq!(path_of(expand_to("~\\x", home())), PathBuf::from("/home/ada/x"));
    for (given, dir) in [("~x", home()), ("~", home()), ("/etc/x", home()), ("~/x", None)] {
        match expand_to(given, dir) {
            Expansion::AsGiven { path } => assert_eq!(path, given),
            _ => panic!("{} does not lead home", given),
        }
    }
}

#[test]
fn the_history_path_is_resolved() {
    let c = config(vec![]);
    let resolved = path_of(c.history_db_path_resolved());
    assert!(resolved.to_string_lossy().ends_with(".config/consensus/history.db"));
    let mut given = config(vec![]);
    given.history_db_path = "/var/h.db".to_string();
    match given.history_db_path_resolved() {
        Expansion::AsGiven { path } => assert_eq!(path, "/var/h.db"),
        _ => panic!("an absolute path does not lead home"),
    }
}

#[test]
fn a_label_is_shown_in_place_of_a_name() {
    let mut p = provider("kiro", "m");
    assert_eq!(p.display_name(), "kiro");
    p.label = Some("Kiro!".to_string());
    assert_eq!(p.display_name(), "Kiro!");
}

#[test]
fn a_provider_can_have_a_limit_of_its_own() {
    let mut p = provider("kiro", "m");
    assert_eq!(p.token_limit(3000), 3000);
    p.max_tokens = Some(10);
    assert_eq!(p.token_limit(3000), 10);
}

#[test]
fn a_provider_can_have_a_timeout_of_its_own() {
    let mut p = provider("kiro", "m");
    assert_eq!(p.call_timeout(120), 120);
    p.timeout_secs = Some(5);
    assert_eq!(p.call_timeout(120), 5);
}

#[test]
fn a_configuration_needs_providers() {
    let ok = Config::load("c.toml", ConfigSource::Parsed(config(vec![provider("a", "m")])));
    assert_eq!(ok.unwrap().providers.len(), 1);
    let none = Config::load("c.toml", ConfigSource::Parsed(config(vec![])));
    assert_eq!(none.unwrap_err(), "No providers defined in config");
    let unread = Config::load("c.toml", ConfigSource::Unreadable);
    assert_eq!(unread.unwrap_err(), "Failed to read config: c.toml");
    let unparsed = Config::load("c.toml", ConfigSource::Unparsable);
    assert_eq!(unparsed.unwrap_err(), "Failed to parse config: c.toml");
}

#[test]
fn providers_are_found_by_name() {
    let c = config(vec![provider("a", "1"), provider("b", "2"), provider("a", "3")]);
    let map = c.provider_map();
    assert_eq!(map.get("a").unwrap().model, "3");
    assert_eq!(map.get("b").unwrap().model, "2");
    assert!(map.get("c").is_none());
}

#[test]
fn providers_are_chosen_by_name() {
    let c = config(vec![provider("a", "1"), provider("b", "2"), provider("c", "3")]);
    let models = |names: Option<&[String]>| -> Vec<String> {
        c.filter_providers(names).iter().map(|p| p.model.clone()).collect()
    };
    assert_eq!(models(None), vec!["1", "2", "3"]);
    assert_eq!(models(Some(&["c".to_string(), "a".to_string(), "x".to_string()])), vec!["1", "3"]);
    assert!(models(Some(&[])).is_empty());
}

#[test]
fn a_debate_takes_two_providers() {
    assert!(require_providers(2, "c.toml").is_ok());
    assert_eq!(
        require_providers(1, "c.toml").unwrap_err(),
        "Need at least 2 providers. Found 1. Edit c.toml to add more."
    );
}

#[test]
fn a_missing_file_is_explained() {
    assert_eq!(
        explain_load_error("No such file or directory", "c.toml"),
        "Config not found at c.toml. Create one or use --config <path>"
    );
    assert_eq!(explain_load_error("Failed to parse", "c.toml"), "Failed to parse");
}

#[test]
fn the_example_comes_before_all_else() {
    assert!(matches!(choose_task(true, Some(Commands::Scoreboard)), Task::Init));
    assert!(matches!(choose_task(false, Some(Commands::Scoreboard)), Task::Show(Commands::Scoreboard)));
    assert!(matches!(choose_task(false, None), Task::Debate));
    match choose_task(false, Some(Commands::History { limit: 7, provider: None })) {
        Task::Show(Commands::History { limit, provider }) => {
            assert_eq!((limit, provider), (7, None));
        }
        _ => panic!("the subcommand got lost"),
    }
}

#[test]
fn files_and_input_follow_the_prompt() {
    assert_eq!(with_file("Review", "fn f() {}"), "Review\n\n```\nfn f() {}\n```");
    assert_eq!(with_input("Why?", "log\n"), "Why?\n\nlog\n");
    assert_eq!(with_input("Why?", " \n\t"), "Why?");
}
