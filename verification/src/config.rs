//! App settings. They live next to the app's own configuration, not in the
//! vault, so the vault stays portable and holds no secrets.
use crate::datetime::{DEFAULT_DATE_FORMAT, DEFAULT_TIME_FORMAT};
use crate::paths::{join, spec_join};
use crate::text::{chars_of, eq_str, is_blank, is_blank_exec, lowercase, to_lowercase, to_string, trim, trim_exec};
use vstd::prelude::*;

verus! {

#[derive(Clone, Debug)]
pub struct Settings {
    pub vault_path: String,
    /// The model provider's API key. Empty until the user sets it.
    pub api_key: String,
    /// `anthropic` | `openai` | `deepseek`
    pub provider: String,
    pub model: String,
    /// low | medium | high | xhigh | max
    pub effort: String,
    pub capture_hotkey: String,
    /// How many previous day-summaries to feed in as continuity context.
    pub context_days: usize,
    pub date_format: String,
    pub time_format: String,
}

/// Summarising a day of dictation is not an intelligence-sensitive task:
/// medium keeps it fast and cheap.
pub fn default_effort() -> (r: String)
    ensures
        r@ == "medium"@,
{
    "medium".to_string()
}

pub fn default_hotkey() -> (r: String)
    ensures
        r@ == "CmdOrControl+Shift+Space"@,
{
    "CmdOrControl+Shift+Space".to_string()
}

pub fn default_context_days() -> (r: usize)
    ensures
        r == 3,
{
    3
}

/// DeepSeek's fast model is the cheap default; OpenAI and Anthropic are
/// there for a stronger pass.
pub fn default_provider() -> (r: String)
    ensures
        r@ == "deepseek"@,
{
    "deepseek".to_string()
}

/// The provider a setting names: `anthropic` or `openai` when it says so
/// (in any case, around any whitespace), else the default, `deepseek`.
pub open spec fn spec_normalized_provider(p: Seq<char>) -> Seq<char> {
    let l = lowercase(trim(p));
    if l == "anthropic"@ {
        "anthropic"@
    } else if l == "openai"@ {
        "openai"@
    } else {
        "deepseek"@
    }
}

impl Settings {
    /// Default settings for a vault at `vault_path`, talking to `model`
    /// (the application ships its own default model id).
    pub fn with_vault(vault_path: String, model: String) -> (r: Settings)
        ensures
            r.vault_path == vault_path,
            r.api_key@.len() == 0,
            r.provider@ == "deepseek"@,
            r.model == model,
            r.effort@ == "medium"@,
            r.capture_hotkey@ == "CmdOrControl+Shift+Space"@,
            r.context_days == 3,
            r.date_format@ == DEFAULT_DATE_FORMAT@,
            r.time_format@ == DEFAULT_TIME_FORMAT@,
    {
        Settings {
            vault_path,
            api_key: String::new(),
            provider: default_provider(),
            model,
            effort: default_effort(),
            capture_hotkey: default_hotkey(),
            context_days: default_context_days(),
            date_format: DEFAULT_DATE_FORMAT.to_string(),
            time_format: DEFAULT_TIME_FORMAT.to_string(),
        }
    }

    /// The provider to call.
    pub fn normalized_provider(&self) -> (r: &'static str)
        ensures
            r@ == spec_normalized_provider(self.provider@),
    {
        let t = to_string(&trim_exec(&chars_of(self.provider.as_str())));
        let l = chars_of(to_lowercase(t.as_str()).as_str());
        if eq_str(&l, "anthropic") {
            "anthropic"
        } else if eq_str(&l, "openai") {
            "openai"
        } else {
            "deepseek"
        }
    }

    /// The vault directory.
    pub fn vault(&self) -> (r: String)
        ensures
            r@ == self.vault_path@,
    {
        self.vault_path.clone()
    }

    /// The API key to use: the stored one, trimmed, when it is not blank;
    /// otherwise what the environment holds (`from_env`), or nothing.
    pub fn resolved_api_key(&self, from_env: Option<String>) -> (r: String)
        ensures
            !is_blank(self.api_key@) ==> r@ == trim(self.api_key@),
            is_blank(self.api_key@) ==> r@ == (match from_env {
                Some(k) => k@,
                None => Seq::<char>::empty(),
            }),
    {
        let kc = chars_of(self.api_key.as_str());
        if !is_blank_exec(&kc) {
            to_string(&trim_exec(&kc))
        } else {
            match from_env {
                Some(k) => k,
                None => String::new(),
            }
        }
    }
}

/// The environment variable a provider's key may come from.
pub fn key_env_var(provider: &str) -> (r: &'static str)
    ensures
        r@ == (if provider@ == "anthropic"@ {
            "ANTHROPIC_API_KEY"@
        } else if provider@ == "openai"@ {
            "OPENAI_API_KEY"@
        } else {
            "DEEPSEEK_API_KEY"@
        }),
{
    let p = chars_of(provider);
    if eq_str(&p, "anthropic") {
        "ANTHROPIC_API_KEY"
    } else if eq_str(&p, "openai") {
        "OPENAI_API_KEY"
    } else {
        "DEEPSEEK_API_KEY"
    }
}

/// Where the vault lives when nothing was configured: `Journal` in the
/// home directory, or a relative `Journal` when there is no home.
pub fn default_vault_path(home: Option<&str>) -> (r: String)
    ensures
        r@ == (match home {
            Some(h) => spec_join(h@, "Journal"@),
            None => "Journal"@,
        }),
{
    match home {
        Some(h) => join(h, "Journal"),
        None => "Journal".to_string(),
    }
}

} // verus!
