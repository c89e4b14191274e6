use aegisnode::config::{
    config_watch_step, load_config, read_config, AppConfig, ConfigWatchAction, ConfigWatchEvent,
    DestinationProvider, PrivacyRule,
};

fn sample() -> AppConfig {
    AppConfig {
        destination: DestinationProvider {
            name: "azure".to_string(),
            endpoint: "https://example.invalid/v1".to_string(),
            api_key: "k-123".to_string(),
            model: None,
        },
        rules: vec![PrivacyRule {
            name: "email".to_string(),
            rule_type: "pattern".to_string(),
            value: r"\S+@\S+".to_string(),
            action: Some("redact".to_string()),
            replace: Some("[EMAIL]".to_string()),
        }],
    }
}

#[test]
fn default_config_points_at_openai() {
    let c = AppConfig::default();
    assert_eq!(c.destination.name, "openai");
    assert_eq!(c.destination.endpoint, "https://api.openai.com/v1");
    assert_eq!(c.destination.api_key, "");
    assert_eq!(c.destination.model.as_deref(), Some("gpt-3.5-turbo"));
    assert!(c.rules.is_empty());
}

#[test]
fn load_config_falls_back_to_default() {
    let c = load_config(None);
    assert_eq!(c.destination.name, "openai");
    assert!(c.rules.is_empty());
}

#[test]
fn load_config_keeps_what_was_loaded() {
    let c = load_config(Some(sample()));
    assert_eq!(c.destination.name, "azure");
    assert_eq!(c.rules.len(), 1);
    assert_eq!(c.rules[0].replace.as_deref(), Some("[EMAIL]"));
}

#[test]
fn read_config_copies_everything() {
    let stored = sample();
    let copy = read_config(&stored);
    assert_eq!(copy.destination.endpoint, stored.destination.endpoint);
    assert_eq!(copy.destination.api_key, "k-123");
    assert_eq!(copy.destination.model, None);
    assert_eq!(copy.rules[0].name, "email");
    assert_eq!(copy.rules[0].value, r"\S+@\S+");
    assert_eq!(copy.rules[0].action.as_deref(), Some("redact"));
}

#[test]
fn watcher_reloads_only_on_modification() {
    assert!(config_watch_step(ConfigWatchEvent::FileEvent { is_modify: true }) == ConfigWatchAction::Reload);
    assert!(config_watch_step(ConfigWatchEvent::FileEvent { is_modify: false }) == ConfigWatchAction::Ignore);
    assert!(config_watch_step(ConfigWatchEvent::WatchFailed) == ConfigWatchAction::Stop);
}
