//! The configuration: providers, limits and paths.

use crate::sse::opt_text;
use crate::text::{
    contains, decimal, law_what_occurs, lemma_picks_more, occurs, picks, render, starts_with,
};
use vstd::hash_map::StringHashMap;
use vstd::prelude::*;

verus! {

/// A file path of the standard library.
#[verifier::external_type_specification]
#[verifier::external_body]
pub struct ExPathBuf(std::path::PathBuf);

/// `dirs::home_dir`: the home directory of the user, where the system knows one. Nothing is claimed
/// of it: it is what the environment says.
pub assume_specification[ dirs::home_dir ]() -> (home: Option<std::path::PathBuf>);

/// Provider configuration.
#[derive(Clone, Debug)]
pub struct ProviderConfig {
    /// Human-readable name.
    pub name: String,
    /// API base URL (such as `https://api.openai.com/v1`).
    pub base_url: String,
    /// API key for authentication.
    pub api_key: String,
    /// Model identifier.
    pub model: String,
    /// Label for display, where it differs from the name.
    pub label: Option<String>,
    /// Limit of tokens that overrides the one of the call.
    pub max_tokens: Option<u32>,
    /// Timeout in seconds that overrides the one of the configuration.
    pub timeout_secs: Option<u64>,
}

/// A provider configuration as a mathematical value.
pub struct ProviderView {
    pub name: Seq<char>,
    pub base_url: Seq<char>,
    pub api_key: Seq<char>,
    pub model: Seq<char>,
    pub label: Option<Seq<char>>,
    pub max_tokens: Option<u32>,
    pub timeout_secs: Option<u64>,
}

impl View for ProviderConfig {
    type V = ProviderView;

    open spec fn view(&self) -> ProviderView {
        ProviderView {
            name: self.name@,
            base_url: self.base_url@,
            api_key: self.api_key@,
            model: self.model@,
            label: opt_text(self.label),
            max_tokens: self.max_tokens,
            timeout_secs: self.timeout_secs,
        }
    }
}

impl ProviderView {
    /// The name under which a provider is shown: its label, or its name where it has no label.
    pub open spec fn display(self) -> Seq<char> {
        match self.label {
            Some(label) => label,
            None => self.name,
        }
    }

    /// The timeout of a call in seconds, where the configuration allows `default` of them.
    pub open spec fn call_timeout(self, default: u64) -> u64 {
        match self.timeout_secs {
            Some(own) => own,
            None => default,
        }
    }

    /// The limit of tokens for a call that allows `limit` of them.
    pub open spec fn token_limit(self, limit: u32) -> u32 {
        match self.max_tokens {
            Some(own) => own,
            None => limit,
        }
    }
}

impl ProviderConfig {
    /// The name under which the provider is shown.
    pub fn display_name(&self) -> (name: &str)
        ensures
            name@ == self@.display(),
    {
        match &self.label {
            Some(label) => label.as_str(),
            None => self.name.as_str(),
        }
    }

    /// The timeout of a call to the provider in seconds: its own, or `default` where it has none.
    pub fn call_timeout(&self, default: u64) -> (secs: u64)
        ensures
            secs == self@.call_timeout(default),
    {
        match self.timeout_secs {
            Some(own) => own,
            None => default,
        }
    }

    /// The limit of tokens for a call that allows `limit` of them.
    pub fn token_limit(&self, limit: u32) -> (tokens: u32)
        ensures
            tokens == self@.token_limit(limit),
    {
        match self.max_tokens {
            Some(own) => own,
            None => limit,
        }
    }
}

/// Main configuration.
#[derive(Debug)]
pub struct Config {
    /// Provider definitions.
    pub providers: Vec<ProviderConfig>,
    /// The bits of the default temperature in IEEE 754 single precision.
    pub temperature_bits: u32,
    /// Default limit of tokens.
    pub max_tokens: u32,
    /// Request timeout in seconds.
    pub timeout_secs: u64,
    /// Retries on transient failures.
    pub max_retries: u32,
    /// Path to the history database.
    pub history_db_path: String,
}

/// The limit of tokens where the configuration names none.
pub fn default_max_tokens() -> (n: u32)
    ensures
        n == 4096,
{
    4096
}

/// The timeout in seconds where the configuration names none.
pub fn default_timeout() -> (n: u64)
    ensures
        n == 120,
{
    120
}

/// The number of retries where the configuration names none.
pub fn default_retries() -> (n: u32)
    ensures
        n == 2,
{
    2
}

/// The path of the history database where the configuration names none.
pub fn default_history_db_path() -> (path: String)
    ensures
        path@ == "~/.config/consensus/history.db"@,
{
    "~/.config/consensus/history.db".to_owned()
}

/// What came of reading a configuration file and parsing what it holds.
#[derive(Debug)]
pub enum ConfigSource {
    /// The file could not be read.
    Unreadable,
    /// The file holds no configuration.
    Unparsable,
    /// The configuration that the file holds.
    Parsed(Config),
}

/// Whether a provider is among the named ones. All are where no names are given.
pub open spec fn selected(provider: ProviderConfig, names: Option<Seq<Seq<char>>>) -> bool {
    match names {
        Some(list) => list.contains(provider.name@),
        None => true,
    }
}

/// The names that an optional list of strings holds.
pub open spec fn name_list(names: Option<&[String]>) -> Option<Seq<Seq<char>>> {
    match names {
        Some(list) => Some(list@.map_values(|s: String| s@)),
        None => None,
    }
}

/// The providers that are among the named ones, in the order of the configuration.
pub open spec fn chosen(
    providers: Seq<ProviderConfig>,
    names: Option<Seq<Seq<char>>>,
) -> Seq<ProviderConfig> {
    providers.filter(|p: ProviderConfig| selected(p, names))
}

/// Without names all providers are chosen. With names those are chosen that are among them: each of
/// them, and no other.
pub proof fn law_who_is_chosen(
    providers: Seq<ProviderConfig>,
    names: Option<Seq<Seq<char>>>,
    provider: ProviderConfig,
)
    ensures
        chosen(providers, None) == providers,
        chosen(providers, names).contains(provider) <==> providers.contains(provider) && selected(
            provider,
            names,
        ),
    decreases providers.len(),
{
    reveal(Seq::filter);
    if providers.len() > 0 {
        let before = providers.drop_last();
        law_who_is_chosen(before, names, provider);
        assert(before.push(providers.last()) == providers);
        let kept = chosen(before, names);
        assert(providers.contains(provider) <==> before.contains(provider) || provider
            == providers.last()) by {
            if before.contains(provider) {
                let i = before.index_of(provider);
                assert(providers[i] == provider);
            }
            if provider == providers.last() {
                assert(providers[providers.len() - 1] == provider);
            }
        }
        assert(kept.push(providers.last()).contains(provider) <==> kept.contains(provider)
            || provider == providers.last()) by {
            let more = kept.push(providers.last());
            if kept.contains(provider) {
                let i = kept.index_of(provider);
                assert(more[i] == provider);
            }
            if provider == providers.last() {
                assert(more[more.len() - 1] == provider);
            }
        }
    }
}

fn is_listed(names: &[String], name: &String) -> (yes: bool)
    ensures
        yes == names@.map_values(|s: String| s@).contains(name@),
{
    let ghost list = names@.map_values(|s: String| s@);
    let mut i: usize = 0;
    while i < names.len()
        invariant
            i <= names.len(),
            list == names@.map_values(|s: String| s@),
            forall|k: int| 0 <= k < i ==> list[k] != name@,
        decreases names.len() - i,
    {
        if names[i] == *name {
            assert(list[i as int] == name@);
            return true;
        }
        i = i + 1;
    }
    false
}

impl Config {
    /// A configuration as it was read from the file at `path`. It has to name at least one
    /// provider.
    pub fn load(path: &str, source: ConfigSource) -> (config: Result<Config, String>)
        ensures
            match source {
                ConfigSource::Unreadable => config matches Err(e) && e@
                    == "Failed to read config: "@ + path@,
                ConfigSource::Unparsable => config matches Err(e) && e@
                    == "Failed to parse config: "@ + path@,
                ConfigSource::Parsed(c) => if c.providers@.len() == 0 {
                    config matches Err(e) && e@ == "No providers defined in config"@
                } else {
                    config == Ok::<Config, String>(c)
                },
            },
    {
        match source {
            ConfigSource::Unreadable => {
                let mut e = "Failed to read config: ".to_owned();
                e.append(path);
                Err(e)
            },
            ConfigSource::Unparsable => {
                let mut e = "Failed to parse config: ".to_owned();
                e.append(path);
                Err(e)
            },
            ConfigSource::Parsed(c) => if c.providers.len() == 0 {
                Err("No providers defined in config".to_owned())
            } else {
                Ok(c)
            },
        }
    }

    /// The providers by name. Of several with one name it holds the last.
    pub fn provider_map(&self) -> (map: StringHashMap<&ProviderConfig>)
        ensures
            forall|name: Seq<char>|
                #![trigger map@.contains_key(name)]
                map@.contains_key(name) <==> exists|i: int|
                    0 <= i < self.providers@.len() && #[trigger] self.providers@[i].name@ == name,
            forall|i: int|
                #![trigger self.providers@[i]]
                0 <= i < self.providers@.len() && (forall|j: int|
                    i < j < self.providers@.len() ==> #[trigger] self.providers@[j].name@
                        != self.providers@[i].name@) ==> *map@[self.providers@[i].name@]
                    == self.providers@[i],
    {
        let mut map: StringHashMap<&ProviderConfig> = StringHashMap::new();
        let mut n: usize = 0;
        while n < self.providers.len()
            invariant
                n <= self.providers.len(),
                forall|name: Seq<char>|
                    #![trigger map@.contains_key(name)]
                    map@.contains_key(name) <==> exists|i: int|
                        0 <= i < n && #[trigger] self.providers@[i].name@ == name,
                forall|i: int|
                    #![trigger self.providers@[i]]
                    0 <= i < n && (forall|j: int|
                        i < j < n ==> #[trigger] self.providers@[j].name@
                            != self.providers@[i].name@) ==> *map@[self.providers@[i].name@]
                        == self.providers@[i],
            decreases self.providers.len() - n,
        {
            let ghost before = map@;
            let provider = &self.providers[n];
            map.insert(provider.name.clone(), provider);
            proof {
                let grown = map@;
                assert(grown == before.insert(provider.name@, provider));
                assert forall|name: Seq<char>|
                    #![trigger grown.contains_key(name)]
                    grown.contains_key(name) <==> exists|i: int|
                        0 <= i < n + 1 && #[trigger] self.providers@[i].name@ == name by {
                    if name == provider.name@ {
                        assert(self.providers@[n as int].name@ == name);
                    } else {
                        assert(grown.contains_key(name) == before.contains_key(name));
                    }
                }
                assert forall|i: int|
                    #![trigger self.providers@[i]]
                    0 <= i < n + 1 && (forall|j: int|
                        i < j < n + 1 ==> #[trigger] self.providers@[j].name@
                            != self.providers@[i].name@) implies *grown[self.providers@[i].name@]
                    == self.providers@[i] by {
                    if i < n {
                        assert(self.providers@[n as int].name@ != self.providers@[i].name@);
                    }
                }
            }
            n = n + 1;
        }
        map
    }

    /// The providers with one of the names, or all of them where no names are given.
    pub fn filter_providers(&self, names: Option<&[String]>) -> (list: Vec<&ProviderConfig>)
        ensures
            list@.map_values(|p: &ProviderConfig| *p) == chosen(self.providers@, name_list(names)),
    {
        let ghost wanted = name_list(names);
        let mut list: Vec<&ProviderConfig> = Vec::new();
        let mut i: usize = 0;
        assert(self.providers@.take(0) == Seq::<ProviderConfig>::empty());
        assert(list@.map_values(|p: &ProviderConfig| *p) == chosen(self.providers@.take(0), wanted))
            by {
            reveal(Seq::filter);
        }
        while i < self.providers.len()
            invariant
                i <= self.providers.len(),
                wanted == name_list(names),
                list@.map_values(|p: &ProviderConfig| *p) == chosen(
                    self.providers@.take(i as int),
                    wanted,
                ),
            decreases self.providers.len() - i,
        {
            let ghost before = list@.map_values(|p: &ProviderConfig| *p);
            let provider = &self.providers[i];
            let take = match names {
                Some(list) => is_listed(list, &provider.name),
                None => true,
            };
            if take {
                list.push(provider);
            }
            i = i + 1;
            proof {
                reveal(Seq::filter);
                let part = self.providers@.take(i as int);
                assert(part.drop_last() == self.providers@.take(i - 1));
                assert(part.last() == *provider);
                assert(list@.map_values(|p: &ProviderConfig| *p) == if take {
                    before.push(*provider)
                } else {
                    before
                });
            }
        }
        assert(self.providers@.take(i as int) == self.providers@);
        list
    }

    /// The path of the history database, with the home directory in place of a leading tilde.
    pub fn history_db_path_resolved(&self) -> (path: Expansion)
        ensures
            exists|home: Option<std::path::PathBuf>| expands_to(self.history_db_path@, home, path),
    {
        expand_tilde(self.history_db_path.as_str())
    }
}

/// Where a path that may start with a tilde leads.
#[derive(Debug)]
pub enum Expansion {
    /// The path stands as it was given.
    AsGiven { path: String },
    /// The path leads to `rest` below the home directory.
    UnderHome { home: std::path::PathBuf, rest: String },
}

/// What follows `~/` or `~\` at the start of a path.
pub open spec fn below_home(path: Seq<char>) -> Option<Seq<char>> {
    if "~/"@.is_prefix_of(path) || "~\\"@.is_prefix_of(path) {
        Some(path.skip(2))
    } else {
        None
    }
}

/// Whether `out` is where a path leads, given the home directory: what follows a leading tilde is
/// below it. Without a tilde, or without a home directory, the path stands as it is.
pub open spec fn expands_to(
    path: Seq<char>,
    home: Option<std::path::PathBuf>,
    out: Expansion,
) -> bool {
    match (below_home(path), home) {
        (Some(below), Some(dir)) => out matches Expansion::UnderHome { home: h, rest } && h == dir
            && rest@ == below,
        _ => out matches Expansion::AsGiven { path: p } && p@ == path,
    }
}

/// Expands a leading tilde to the given home directory. Without one the path stands as it is.
pub fn expand_to(path: &str, home: Option<std::path::PathBuf>) -> (out: Expansion)
    ensures
        expands_to(path@, home, out),
{
    if starts_with(path, "~/") || starts_with(path, "~\\") {
        proof {
            reveal_strlit("~/");
            reveal_strlit("~\\");
        }
        match home {
            Some(dir) => {
                let len: usize = path.unicode_len();
                Expansion::UnderHome { home: dir, rest: path.substring_char(2, len).to_owned() }
            },
            None => Expansion::AsGiven { path: path.to_owned() },
        }
    } else {
        Expansion::AsGiven { path: path.to_owned() }
    }
}

/// Expands a leading tilde to the home directory of the user, whichever that is.
pub fn expand_tilde(path: &str) -> (out: Expansion)
    ensures
        exists|home: Option<std::path::PathBuf>| expands_to(path@, home, out),
{
    expand_to(path, dirs::home_dir())
}

/// Refuses a choice of fewer than two providers from the configuration at `path`.
pub fn require_providers(found: usize, path: &str) -> (verdict: Result<(), String>)
    ensures
        match verdict {
            Ok(_) => found >= 2,
            Err(e) => found < 2 && e@ == "Need at least 2 providers. Found "@ + decimal(
                found as nat,
            ) + ". Edit "@ + path@ + " to add more."@,
        },
{
    if found >= 2 {
        return Ok(());
    }
    let mut e = "Need at least 2 providers. Found ".to_owned();
    e.append(render(found as u64).as_str());
    e.append(". Edit ");
    e.append(path);
    e.append(" to add more.");
    Err(e)
}

/// What to tell the user where the configuration at `path` could not be loaded.
pub open spec fn load_complaint(error: Seq<char>, path: Seq<char>) -> Seq<char> {
    if occurs(error, "No such file"@) {
        "Config not found at "@ + path + ". Create one or use --config <path>"@
    } else {
        error
    }
}

/// What to tell the user where the configuration at `path` could not be loaded.
pub fn explain_load_error(error: &str, path: &str) -> (message: String)
    ensures
        message@ == load_complaint(error@, path@),
{
    if contains(error, "No such file") {
        let mut message = "Config not found at ".to_owned();
        message.append(path);
        message.append(". Create one or use --config <path>");
        message
    } else {
        error.to_owned()
    }
}

/// The text of an example configuration file.
pub const EXAMPLE_CONFIG: &'static str = r#"# Consensus — Multi-Model AI Debate Engine
# Config file: ~/.config/consensus/config.toml

temperature = 0.3
max_tokens = 4096
timeout_secs = 120
max_retries = 2
history_db_path = "~/.config/consensus/history.db"

# Define your AI providers here.
# Each provider needs a name, base_url, api_key, and model.
# Works with any OpenAI-compatible API.

[[providers]]
name = "kiro"
base_url = "https://api.example.com/v1"
api_key = "your-api-key-here"
model = "sonnet-4-5"
label = "🔵 Kiro (Sonnet)"

[[providers]]
name = "codex"
base_url = "https://api.example.com/v1"
api_key = "your-api-key-here"
model = "gpt-5"
label = "🟢 Codex (GPT)"

[[providers]]
name = "mimo"
base_url = "https://api.example.com/v1"
api_key = "your-api-key-here"
model = "mimo-v2.5-pro"
label = "🟣 MiMo (Xiaomi)"
"#;

/// An example configuration file.
pub fn example_config() -> (text: String)
    ensures
        text@ == EXAMPLE_CONFIG@,
{
    EXAMPLE_CONFIG.to_owned()
}

// What holds of a configuration.

/// Whether the provider at a place is among the named ones.
pub open spec fn is_named(
    providers: Seq<ProviderConfig>,
    names: Option<Seq<Seq<char>>>,
) -> spec_fn(int) -> bool {
    |i: int| names matches Some(list) ==> list.contains(providers[i].name@)
}

/// Providers are chosen in the order of the configuration, each of them once: all of those with one
/// of the names, or all where no names are given.
pub proof fn law_providers_are_chosen_in_order(
    providers: Seq<ProviderConfig>,
    names: Option<Seq<Seq<char>>>,
) -> (kept: Seq<int>)
    ensures
        picks(kept, providers.len() as int, is_named(providers, names)),
        chosen(providers, names).len() == kept.len(),
        forall|j: int|
            0 <= j < kept.len() ==> #[trigger] chosen(providers, names)[j] == providers[kept[j]],
    decreases providers.len(),
{
    reveal(Seq::filter);
    if providers.len() == 0 {
        Seq::empty()
    } else {
        let rest = providers.drop_last();
        let n = rest.len() as int;
        let before = law_providers_are_chosen_in_order(rest, names);
        let keep = is_named(providers, names);
        assert forall|i: int| 0 <= i < n implies #[trigger] keep(i) == is_named(rest, names)(
            i,
        ) by {
            assert(rest[i] == providers[i]);
        }
        lemma_picks_more(before, n, is_named(rest, names), keep);
        assert(keep(n) == selected(providers.last(), names));
        let kept = if keep(n) {
            before.push(n)
        } else {
            before
        };
        assert forall|j: int| 0 <= j < kept.len() implies #[trigger] chosen(providers, names)[j]
            == providers[kept[j]] by {
            if j < before.len() {
                assert(chosen(rest, names)[j] == rest[before[j]]);
                assert(rest[before[j]] == providers[before[j]]);
            }
        }
        kept
    }
}

/// What a provider sets for itself comes before what the configuration sets, and its label before
/// its name.
pub proof fn law_a_provider_comes_first(provider: ProviderView, limit: u32, timeout: u64)
    ensures
        provider.label matches Some(label) ==> provider.display() == label,
        provider.label is None ==> provider.display() == provider.name,
        provider.max_tokens matches Some(own) ==> provider.token_limit(limit) == own,
        provider.max_tokens is None ==> provider.token_limit(limit) == limit,
        provider.timeout_secs matches Some(own) ==> provider.call_timeout(timeout) == own,
        provider.timeout_secs is None ==> provider.call_timeout(timeout) == timeout,
{
}

/// A tilde and a slash or backslash at the start of a path stand for the home directory, and all
/// that follows them is below it. A path without them, or without a home directory, stands as it
/// is.
pub proof fn law_a_tilde_leads_home(
    rest: Seq<char>,
    path: Seq<char>,
    home: Option<std::path::PathBuf>,
    out: Expansion,
)
    ensures
        home matches Some(dir) ==> {
            &&& expands_to("~/"@ + rest, home, out) ==> (out matches Expansion::UnderHome {
                home: h,
                rest: r,
            } && h == dir && r@ == rest)
            &&& expands_to("~\\"@ + rest, home, out) ==> (out matches Expansion::UnderHome {
                home: h,
                rest: r,
            } && h == dir && r@ == rest)
        },
        expands_to(path, home, out) && (home is None || !(exists|r: Seq<char>|
            path == "~/"@ + r || path == "~\\"@ + r)) ==> (out matches Expansion::AsGiven { path: p }
            && p@ == path),
{
    reveal_strlit("~/");
    reveal_strlit("~\\");
    let slash = "~/"@ + rest;
    let backslash = "~\\"@ + rest;
    assert(slash.subrange(0, 2) == "~/"@);
    assert(backslash.subrange(0, 2) == "~\\"@);
    assert(slash.skip(2) == rest);
    assert(backslash.skip(2) == rest);
    assert("~/"@.is_prefix_of(slash));
    assert("~\\"@.is_prefix_of(backslash));
    if "~/"@.is_prefix_of(path) {
        assert(path == "~/"@ + path.skip(2));
    }
    if "~\\"@.is_prefix_of(path) {
        assert(path == "~\\"@ + path.skip(2));
    }
}

/// An error that says that there is no such file is explained, and any other is told as it is.
pub proof fn law_a_missing_file_is_explained(error: Seq<char>, path: Seq<char>)
    ensures
        load_complaint(error, path) == if exists|a: Seq<char>, b: Seq<char>|
            error == #[trigger] (a + "No such file"@ + b) {
            "Config not found at "@ + path + ". Create one or use --config <path>"@
        } else {
            error
        },
{
    law_what_occurs(error, "No such file"@);
}

/// The mathematical value of a provider configuration holds all that it holds, as it is.
pub proof fn law_provider_view_holds_everything(p: ProviderConfig)
    ensures
        p@.name == p.name@ && p@.base_url == p.base_url@ && p@.api_key == p.api_key@ && p@.model
            == p.model@,
        p.label is None ==> p@.label is None,
        p.label matches Some(label) ==> p@.label == Some(label@),
        p@.max_tokens == p.max_tokens && p@.timeout_secs == p.timeout_secs,
{
}

} // verus!
