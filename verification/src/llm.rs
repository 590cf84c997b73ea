//! Model configuration: which configured model is used, which client it
//! needs, and the text handed to the embedding endpoint.
use vstd::prelude::*;
use crate::text::{chars_of, owned, slice_chars, str_eq, string_from_chars};

verus! {

/// `serde_json::Value`, the free-form JSON of a model's custom options.
#[verifier::external_type_specification]
#[verifier::external_body]
pub struct ExJsonValue(serde_json::Value);

/// The service behind a configured model.
#[derive(Clone, Copy, PartialEq, Eq, Structural)]
pub enum ModelProvider {
    OpenAi,
    Anthropic,
    Gemini,
    OpenRouter,
    Ollama,
    Local,
}

/// What a configured model can do.
#[derive(Clone, Copy)]
pub struct ModelCapabilities {
    pub reasoning: bool,
    pub vision: bool,
    pub websearch: bool,
    pub cors: bool,
    pub curl: bool,
}

impl Default for ModelCapabilities {
    /// No capability.
    fn default() -> (r: Self)
        ensures
            !r.reasoning && !r.vision && !r.websearch && !r.cors && !r.curl,
    {
        ModelCapabilities { reasoning: false, vision: false, websearch: false, cors: false, curl: false }
    }
}

/// One entry of the models configuration file.
pub struct ChatModelConfig {
    pub model_name: String,
    pub provider: ModelProvider,
    pub display_name: Option<String>,
    pub base_url: Option<String>,
    pub api_key: Option<String>,
    pub capabilities: ModelCapabilities,
    pub custom_options: serde_json::Value,
}

/// The models configuration file as read: an object keyed by model name, a
/// list of entries, or neither.
pub enum ParsedModelsConfig {
    Keyed(Vec<(String, ChatModelConfig)>),
    List(Vec<ChatModelConfig>),
    Invalid,
}

/// Why no client could be made for a model.
pub enum ProviderError {
    /// The configuration object has no entry under the model name.
    NotInMap(String),
    /// The configuration list has no entry with the model name.
    NotInList(String),
    /// The configuration file (this path) is neither an object nor a list of entries.
    InvalidFormat(String),
    /// A Gemini entry without an API key.
    MissingApiKey,
    /// The provider has no client here.
    Unsupported(ModelProvider),
}

/// The client a configured model needs.
pub enum ProviderSpec {
    Gemini { api_key: String, model: String },
    Ollama { base_url: String, model: String },
}

/// The name of a provider as `{:?}` prints it.
pub open spec fn provider_name(p: ModelProvider) -> Seq<char> {
    match p {
        ModelProvider::OpenAi => "OpenAi"@,
        ModelProvider::Anthropic => "Anthropic"@,
        ModelProvider::Gemini => "Gemini"@,
        ModelProvider::OpenRouter => "OpenRouter"@,
        ModelProvider::Ollama => "Ollama"@,
        ModelProvider::Local => "Local"@,
    }
}

impl ProviderError {
    /// The message of the refusal.
    pub open spec fn text(&self) -> Seq<char> {
        match self {
            ProviderError::NotInMap(m) => "Model '"@ + m@ + "' not found in models config map"@,
            ProviderError::NotInList(m) => "Model '"@ + m@ + "' not found in models config list"@,
            ProviderError::InvalidFormat(p) => "Invalid models config format in "@ + p@,
            ProviderError::MissingApiKey => "API key is required for Gemini provider"@,
            ProviderError::Unsupported(p) => "Provider '"@ + provider_name(*p) + "' is not yet supported in Rust core"@,
        }
    }

    /// The message of the refusal.
    pub fn message(&self) -> (r: String)
        ensures
            r@ == self.text(),
    {
        match self {
            ProviderError::NotInMap(m) => {
                let mut r = owned("Model '");
                r.push_str(m.as_str());
                r.push_str("' not found in models config map");
                r
            },
            ProviderError::NotInList(m) => {
                let mut r = owned("Model '");
                r.push_str(m.as_str());
                r.push_str("' not found in models config list");
                r
            },
            ProviderError::InvalidFormat(p) => {
                let mut r = owned("Invalid models config format in ");
                r.push_str(p.as_str());
                r
            },
            ProviderError::MissingApiKey => owned("API key is required for Gemini provider"),
            ProviderError::Unsupported(p) => {
                let mut r = owned("Provider '");
                let name = match p {
                    ModelProvider::OpenAi => "OpenAi",
                    ModelProvider::Anthropic => "Anthropic",
                    ModelProvider::Gemini => "Gemini",
                    ModelProvider::OpenRouter => "OpenRouter",
                    ModelProvider::Ollama => "Ollama",
                    ModelProvider::Local => "Local",
                };
                r.push_str(name);
                r.push_str("' is not yet supported in Rust core");
                r
            },
        }
    }
}

/// Index of the first map entry stored under `name`.
pub open spec fn first_key(entries: Seq<(String, ChatModelConfig)>, name: Seq<char>, k: int) -> bool {
    0 <= k < entries.len() && entries[k].0@ == name && forall|j: int| 0 <= j < k ==> entries[j].0@ != name
}

/// Index of the first list entry for the model `name`.
pub open spec fn first_named(list: Seq<ChatModelConfig>, name: Seq<char>, k: int) -> bool {
    0 <= k < list.len() && list[k].model_name@ == name && forall|j: int| 0 <= j < k ==> list[j].model_name@ != name
}

/// Picks the configuration of `model_name`: from an object by key, from a
/// list by the entries' model names; an error names the model, or the file
/// when it is neither.
pub fn select_model_config(parsed: ParsedModelsConfig, model_name: &str, config_path: &str) -> (r: Result<
    ChatModelConfig,
    ProviderError,
>)
    ensures
        match parsed {
            ParsedModelsConfig::Keyed(entries) => match r {
                Ok(c) => exists|k: int| first_key(entries@, model_name@, k) && c == entries@[k].1,
                Err(e) => (e matches ProviderError::NotInMap(m) && m@ == model_name@) && forall|k: int|
                    0 <= k < entries@.len() ==> (#[trigger] entries@[k]).0@ != model_name@,
            },
            ParsedModelsConfig::List(list) => match r {
                Ok(c) => exists|k: int| first_named(list@, model_name@, k) && c == list@[k],
                Err(e) => (e matches ProviderError::NotInList(m) && m@ == model_name@) && forall|k: int|
                    0 <= k < list@.len() ==> (#[trigger] list@[k]).model_name@ != model_name@,
            },
            ParsedModelsConfig::Invalid => r matches Err(ProviderError::InvalidFormat(p)) && p@ == config_path@,
        },
{
    match parsed {
        ParsedModelsConfig::Keyed(entries0) => {
            let ghost orig = entries0@;
            let entries = entries0;
            let mut entries = entries;
            let mut k: usize = 0;
            while k < entries.len()
                invariant
                    k <= entries@.len(),
                    entries@ == orig,
                    parsed matches ParsedModelsConfig::Keyed(e) && e@ == orig,
                    forall|j: int| 0 <= j < k ==> (#[trigger] entries@[j]).0@ != model_name@,
                decreases entries@.len() - k,
            {
                if str_eq(entries[k].0.as_str(), model_name) {
                    let (key, c) = entries.remove(k);
                    assert(first_key(orig, model_name@, k as int));
                    assert(orig[k as int] == (key, c));
                    assert(first_key(orig, model_name@, k as int) && c == orig[k as int].1);
                    return Ok(c);
                }
                k = k + 1;
            }
            Err(ProviderError::NotInMap(owned(model_name)))
        },
        ParsedModelsConfig::List(list) => {
            let ghost orig = list@;
            let mut list = list;
            let mut k: usize = 0;
            while k < list.len()
                invariant
                    k <= list@.len(),
                    list@ == orig,
                    parsed matches ParsedModelsConfig::List(e) && e@ == orig,
                    forall|j: int| 0 <= j < k ==> (#[trigger] list@[j]).model_name@ != model_name@,
                decreases list@.len() - k,
            {
                if str_eq(list[k].model_name.as_str(), model_name) {
                    let c = list.remove(k);
                    assert(first_named(orig, model_name@, k as int) && c == orig[k as int]);
                    return Ok(c);
                }
                k = k + 1;
            }
            Err(ProviderError::NotInList(owned(model_name)))
        },
        ParsedModelsConfig::Invalid => Err(ProviderError::InvalidFormat(owned(config_path))),
    }
}

/// Whether `s` ends with `pat`.
pub open spec fn ends_with(s: Seq<char>, pat: Seq<char>) -> bool {
    pat.len() <= s.len() && s.skip(s.len() - pat.len()) == pat
}

/// `s` without any number of trailing copies of `pat` (as `str::trim_end_matches`).
pub open spec fn strip_suffixes(s: Seq<char>, pat: Seq<char>) -> Seq<char>
    decreases s.len(),
{
    if pat.len() > 0 && ends_with(s, pat) {
        strip_suffixes(s.take(s.len() - pat.len()), pat)
    } else {
        s
    }
}

/// The Ollama base URL without a trailing `/v1` or `/v1/` API path.
pub open spec fn clean_base_url(u: Seq<char>) -> Seq<char> {
    if ends_with(u, "/v1"@) {
        strip_suffixes(u, "/v1"@)
    } else if ends_with(u, "/v1/"@) {
        strip_suffixes(u, "/v1/"@)
    } else {
        u
    }
}

fn chars_end_with(cs: &[char], pat: &[char]) -> (r: bool)
    ensures
        r == ends_with(cs@, pat@),
{
    if pat.len() > cs.len() {
        return false;
    }
    let n = cs.len();
    let off = n - pat.len();
    let mut k: usize = 0;
    while k < pat.len()
        invariant
            k <= pat@.len(),
            n == cs@.len(),
            off + pat@.len() == cs@.len(),
            forall|x: int| 0 <= x < k ==> cs@[off + x] == pat@[x],
        decreases pat@.len() - k,
    {
        if cs[off + k] != pat[k] {
            assert(cs@.skip(off as int)[k as int] != pat@[k as int]);
            return false;
        }
        k = k + 1;
    }
    assert(cs@.skip(off as int) =~= pat@);
    true
}

fn strip_suffixes_chars(cs: Vec<char>, pat: &[char]) -> (r: Vec<char>)
    ensures
        r@ == strip_suffixes(cs@, pat@),
    decreases cs@.len(),
{
    if pat.len() > 0 && chars_end_with(cs.as_slice(), pat) {
        let head = slice_chars(cs.as_slice(), 0, cs.len() - pat.len());
        assert(head@ =~= cs@.take(cs@.len() - pat@.len()));
        strip_suffixes_chars(head, pat)
    } else {
        cs
    }
}

/// The Ollama base URL without a trailing `/v1` or `/v1/` API path.
pub fn clean_ollama_url(base_url: String) -> (r: String)
    ensures
        r@ == clean_base_url(base_url@),
{
    let cs = chars_of(base_url.as_str());
    let v1 = chars_of("/v1");
    let v1s = chars_of("/v1/");
    if chars_end_with(cs.as_slice(), v1.as_slice()) {
        string_from_chars(strip_suffixes_chars(cs, v1.as_slice()).as_slice())
    } else if chars_end_with(cs.as_slice(), v1s.as_slice()) {
        string_from_chars(strip_suffixes_chars(cs, v1s.as_slice()).as_slice())
    } else {
        base_url
    }
}

/// The client for a configured model: Gemini with the entry's API key,
/// Ollama (also for `Local`) at the entry's base URL (default
/// `http://localhost:11434`) without a trailing `/v1`; other providers are refused.
pub fn provider_target(config: ChatModelConfig) -> (r: Result<ProviderSpec, ProviderError>)
    ensures
        match config.provider {
            ModelProvider::Gemini => match config.api_key {
                Some(k) => r == Ok::<ProviderSpec, ProviderError>(
                    ProviderSpec::Gemini { api_key: k, model: config.model_name },
                ),
                None => r matches Err(ProviderError::MissingApiKey),
            },
            ModelProvider::Ollama | ModelProvider::Local => r matches Ok(ProviderSpec::Ollama { base_url, model })
                && model == config.model_name && base_url@ == clean_base_url(
                match config.base_url {
                    Some(u) => u@,
                    None => "http://localhost:11434"@,
                },
            ),
            _ => r matches Err(ProviderError::Unsupported(p)) && p == config.provider,
        },
{
    match config.provider {
        ModelProvider::Gemini => match config.api_key {
            Some(k) => Ok(ProviderSpec::Gemini { api_key: k, model: config.model_name }),
            None => Err(ProviderError::MissingApiKey),
        },
        ModelProvider::Ollama | ModelProvider::Local => {
            let base_url = match config.base_url {
                Some(u) => u,
                None => owned("http://localhost:11434"),
            };
            Ok(ProviderSpec::Ollama { base_url: clean_ollama_url(base_url), model: config.model_name })
        },
        _ => Err(ProviderError::Unsupported(config.provider)),
    }
}

/// The text sent to the embedding endpoint: at most the first 2000 characters.
pub fn embedding_input(text: &str) -> (r: String)
    ensures
        r@ == if text@.len() > 2000 {
            text@.take(2000)
        } else {
            text@
        },
{
    let cs = chars_of(text);
    if cs.len() > 2000 {
        let head = slice_chars(cs.as_slice(), 0, 2000);
        assert(head@ =~= text@.take(2000));
        string_from_chars(head.as_slice())
    } else {
        owned(text)
    }
}

} // verus!
