//! The proxy's configuration: the privacy rules and the destination provider,
//! with their mathematical views, the default configuration, the fallback
//! taken when no configuration can be loaded, and the reaction to changes of
//! the configuration file.
use vstd::prelude::*;

verus! {

/// A string option, viewed as an option of character sequences.
pub open spec fn opt_view(o: Option<String>) -> Option<Seq<char>> {
    match o {
        Some(s) => Some(s@),
        None => None,
    }
}

/// A copy of an optional string.
pub fn copy_opt_string(o: &Option<String>) -> (c: Option<String>)
    ensures
        opt_view(c) == opt_view(*o),
{
    match o {
        Some(s) => Some(s.clone()),
        None => None,
    }
}

/// One privacy rule: `rule_type` is `"pattern"` (a regular expression in
/// `value`) or `"entity"` (a literal keyword in `value`); `action` says what
/// to do with a finding (`"redact"` and `"block"` replace it), and `replace`
/// is the text put in its place.
#[derive(Debug)]
pub struct PrivacyRule {
    pub name: String,
    pub rule_type: String,
    pub value: String,
    pub action: Option<String>,
    pub replace: Option<String>,
}

pub struct PrivacyRuleView {
    pub name: Seq<char>,
    pub rule_type: Seq<char>,
    pub value: Seq<char>,
    pub action: Option<Seq<char>>,
    pub replace: Option<Seq<char>>,
}

impl View for PrivacyRule {
    type V = PrivacyRuleView;

    open spec fn view(&self) -> PrivacyRuleView {
        PrivacyRuleView {
            name: self.name@,
            rule_type: self.rule_type@,
            value: self.value@,
            action: opt_view(self.action),
            replace: opt_view(self.replace),
        }
    }
}

impl Clone for PrivacyRule {
    fn clone(&self) -> (c: Self)
        ensures
            c@ == self@,
    {
        PrivacyRule {
            name: self.name.clone(),
            rule_type: self.rule_type.clone(),
            value: self.value.clone(),
            action: copy_opt_string(&self.action),
            replace: copy_opt_string(&self.replace),
        }
    }
}

/// The views of a sequence of rules.
pub open spec fn rules_view(rules: Seq<PrivacyRule>) -> Seq<PrivacyRuleView> {
    rules.map_values(|r: PrivacyRule| r@)
}

/// A copy of a list of rules.
pub fn copy_rules(rules: &Vec<PrivacyRule>) -> (c: Vec<PrivacyRule>)
    ensures
        rules_view(c@) == rules_view(rules@),
{
    let mut c: Vec<PrivacyRule> = Vec::new();
    let mut i: usize = 0;
    while i < rules.len()
        invariant
            i <= rules@.len(),
            c@.len() == i,
            forall|k: int| 0 <= k < i ==> #[trigger] c@[k]@ == rules@[k]@,
        decreases rules@.len() - i,
    {
        c.push(rules[i].clone());
        i = i + 1;
    }
    assert(rules_view(c@) =~= rules_view(rules@));
    c
}

/// The provider that requests are forwarded to.
#[derive(Debug)]
pub struct DestinationProvider {
    pub name: String,
    pub endpoint: String,
    pub api_key: String,
    pub model: Option<String>,
}

pub struct DestinationProviderView {
    pub name: Seq<char>,
    pub endpoint: Seq<char>,
    pub api_key: Seq<char>,
    pub model: Option<Seq<char>>,
}

impl View for DestinationProvider {
    type V = DestinationProviderView;

    open spec fn view(&self) -> DestinationProviderView {
        DestinationProviderView {
            name: self.name@,
            endpoint: self.endpoint@,
            api_key: self.api_key@,
            model: opt_view(self.model),
        }
    }
}

impl Clone for DestinationProvider {
    fn clone(&self) -> (c: Self)
        ensures
            c@ == self@,
    {
        DestinationProvider {
            name: self.name.clone(),
            endpoint: self.endpoint.clone(),
            api_key: self.api_key.clone(),
            model: copy_opt_string(&self.model),
        }
    }
}

/// The whole configuration of the proxy.
#[derive(Debug)]
pub struct AppConfig {
    pub destination: DestinationProvider,
    pub rules: Vec<PrivacyRule>,
}

pub struct AppConfigView {
    pub destination: DestinationProviderView,
    pub rules: Seq<PrivacyRuleView>,
}

impl View for AppConfig {
    type V = AppConfigView;

    open spec fn view(&self) -> AppConfigView {
        AppConfigView { destination: self.destination@, rules: rules_view(self.rules@) }
    }
}

impl Clone for AppConfig {
    fn clone(&self) -> (c: Self)
        ensures
            c@ == self@,
    {
        AppConfig { destination: self.destination.clone(), rules: copy_rules(&self.rules) }
    }
}

/// The configuration in force when none was loaded: OpenAI's public endpoint
/// with the `gpt-3.5-turbo` model, no API key and no privacy rules.
pub open spec fn default_config() -> AppConfigView {
    AppConfigView {
        destination: DestinationProviderView {
            name: "openai"@,
            endpoint: "https://api.openai.com/v1"@,
            api_key: ""@,
            model: Some("gpt-3.5-turbo"@),
        },
        rules: Seq::empty(),
    }
}

impl Default for AppConfig {
    fn default() -> (c: Self)
        ensures
            c@ == default_config(),
    {
        let c = AppConfig {
            destination: DestinationProvider {
                name: "openai".to_owned(),
                endpoint: "https://api.openai.com/v1".to_owned(),
                api_key: "".to_owned(),
                model: Some("gpt-3.5-turbo".to_owned()),
            },
            rules: Vec::new(),
        };
        assert(c@.rules =~= Seq::<PrivacyRuleView>::empty());
        c
    }
}

/// The configuration to run with, given what reading the configuration
/// sources produced: the loaded configuration, or the default one where
/// nothing could be loaded or deserialised.
pub fn load_config(loaded: Option<AppConfig>) -> (c: AppConfig)
    ensures
        c@ == match loaded {
            Some(l) => l@,
            None => default_config(),
        },
{
    match loaded {
        Some(l) => l,
        None => AppConfig::default(),
    }
}

/// A snapshot of the configuration currently in the store.
pub fn read_config(current: &AppConfig) -> (c: AppConfig)
    ensures
        c@ == current@,
{
    current.clone()
}

/// What the configuration watcher observed.
pub enum ConfigWatchEvent {
    /// The file could not be put under watch.
    WatchFailed,
    /// The file system reported an event on the file.
    FileEvent { is_modify: bool },
}

/// What the watcher does in answer.
#[derive(PartialEq, Eq, Structural)]
pub enum ConfigWatchAction {
    /// Give up watching.
    Stop,
    /// Load the configuration again and put it in the store.
    Reload,
    /// Keep waiting.
    Ignore,
}

/// The watcher's decision: reload on a modification of the file, stop when
/// the file cannot be watched, and otherwise keep waiting.
pub fn config_watch_step(event: ConfigWatchEvent) -> (a: ConfigWatchAction)
    ensures
        a == match event {
            ConfigWatchEvent::WatchFailed => ConfigWatchAction::Stop,
            ConfigWatchEvent::FileEvent { is_modify } => if is_modify {
                ConfigWatchAction::Reload
            } else {
                ConfigWatchAction::Ignore
            },
        },
{
    match event {
        ConfigWatchEvent::WatchFailed => ConfigWatchAction::Stop,
        ConfigWatchEvent::FileEvent { is_modify } => if is_modify {
            ConfigWatchAction::Reload
        } else {
            ConfigWatchAction::Ignore
        },
    }
}

} // verus!
