//! Provider-backed bots: which model, key and endpoints to use, the requests
//! sent to each provider, and the curated model catalogs.
use crate::bot::{bot_error_text, BotError};
use crate::json::{element, items_of, json_parse, member, parse_json, text_of, JsonValue};
use crate::text::{
    compare_text, has_prefix, is_blank, split_commas, split_commas_of, trim, trimmed, is_blank_text, lemma_text_lt_irreflexive,
    lemma_text_lt_transitive, lemma_text_lt_trichotomy, starts_with, text_lt,
};
use vstd::prelude::*;

verus! {

pub const OPENAI_CHAT_COMPLETIONS_URL: &'static str = "https://api.openai.com/v1/chat/completions";
pub const OPENAI_MODELS_URL: &'static str = "https://api.openai.com/v1/models";
pub const ANTHROPIC_MESSAGES_URL: &'static str = "https://api.anthropic.com/v1/messages";
pub const ANTHROPIC_MODELS_URL: &'static str = "https://api.anthropic.com/v1/models";
pub const OPENROUTER_CHAT_COMPLETIONS_URL: &'static str = "https://openrouter.ai/api/v1/chat/completions";
/// JSON-schema-capable OpenRouter models ordered by last week's usage.
pub const OPENROUTER_MODELS_URL: &'static str = "https://openrouter.ai/api/v1/models?supported_parameters=structured_outputs&sort=top-weekly";
pub const OPENROUTER_DEFAULT_TITLE: &'static str = "Baixada Truco";
/// Cap on the curated OpenRouter shortlist.
pub const OPENROUTER_MODEL_LIMIT: usize = 25;
/// Models guaranteed to each major-lab family on the OpenRouter shortlist.
pub const OPENROUTER_FAMILY_LIMIT: usize = 3;

/// The supported providers.
#[derive(Debug, Clone, Copy, PartialEq, Eq, Structural)]
pub enum LlmProviderKind {
    OpenAi,
    Anthropic,
    OpenRouter,
}

/// The environment contract of a provider: which variables name the key and
/// model and override the endpoints, and the default endpoints.
#[derive(Debug, Clone, Copy)]
pub struct ProviderEnvSpec {
    pub key_var: &'static str,
    pub model_var: &'static str,
    pub base_url_var: &'static str,
    pub base_url_default: &'static str,
    pub models_url_var: &'static str,
    pub models_url_default: &'static str,
}

pub open spec fn key_var_of(kind: LlmProviderKind) -> Seq<char> {
    match kind {
        LlmProviderKind::OpenAi => "OPENAI_API_KEY"@,
        LlmProviderKind::Anthropic => "ANTHROPIC_API_KEY"@,
        LlmProviderKind::OpenRouter => "OPENROUTER_API_KEY"@,
    }
}

pub open spec fn model_var_of(kind: LlmProviderKind) -> Seq<char> {
    match kind {
        LlmProviderKind::OpenAi => "TRUCO_OPENAI_MODEL"@,
        LlmProviderKind::Anthropic => "TRUCO_ANTHROPIC_MODEL"@,
        LlmProviderKind::OpenRouter => "TRUCO_OPENROUTER_MODEL"@,
    }
}

pub open spec fn base_url_var_of(kind: LlmProviderKind) -> Seq<char> {
    match kind {
        LlmProviderKind::OpenAi => "TRUCO_OPENAI_BASE_URL"@,
        LlmProviderKind::Anthropic => "TRUCO_ANTHROPIC_BASE_URL"@,
        LlmProviderKind::OpenRouter => "TRUCO_OPENROUTER_BASE_URL"@,
    }
}

pub open spec fn models_url_var_of(kind: LlmProviderKind) -> Seq<char> {
    match kind {
        LlmProviderKind::OpenAi => "TRUCO_OPENAI_MODELS_URL"@,
        LlmProviderKind::Anthropic => "TRUCO_ANTHROPIC_MODELS_URL"@,
        LlmProviderKind::OpenRouter => "TRUCO_OPENROUTER_MODELS_URL"@,
    }
}

pub open spec fn chat_url_default_of(kind: LlmProviderKind) -> Seq<char> {
    match kind {
        LlmProviderKind::OpenAi => OPENAI_CHAT_COMPLETIONS_URL@,
        LlmProviderKind::Anthropic => ANTHROPIC_MESSAGES_URL@,
        LlmProviderKind::OpenRouter => OPENROUTER_CHAT_COMPLETIONS_URL@,
    }
}

pub open spec fn models_url_default_of(kind: LlmProviderKind) -> Seq<char> {
    match kind {
        LlmProviderKind::OpenAi => OPENAI_MODELS_URL@,
        LlmProviderKind::Anthropic => ANTHROPIC_MODELS_URL@,
        LlmProviderKind::OpenRouter => OPENROUTER_MODELS_URL@,
    }
}

impl LlmProviderKind {
    /// The environment contract of this provider.
    pub fn env_spec(self) -> (r: ProviderEnvSpec)
        ensures
            r.key_var@ == key_var_of(self),
            r.model_var@ == model_var_of(self),
            r.base_url_var@ == base_url_var_of(self),
            r.base_url_default@ == chat_url_default_of(self),
            r.models_url_var@ == models_url_var_of(self),
            r.models_url_default@ == models_url_default_of(self),
    {
        match self {
            LlmProviderKind::OpenAi => ProviderEnvSpec {
                key_var: "OPENAI_API_KEY",
                model_var: "TRUCO_OPENAI_MODEL",
                base_url_var: "TRUCO_OPENAI_BASE_URL",
                base_url_default: OPENAI_CHAT_COMPLETIONS_URL,
                models_url_var: "TRUCO_OPENAI_MODELS_URL",
                models_url_default: OPENAI_MODELS_URL,
            },
            LlmProviderKind::Anthropic => ProviderEnvSpec {
                key_var: "ANTHROPIC_API_KEY",
                model_var: "TRUCO_ANTHROPIC_MODEL",
                base_url_var: "TRUCO_ANTHROPIC_BASE_URL",
                base_url_default: ANTHROPIC_MESSAGES_URL,
                models_url_var: "TRUCO_ANTHROPIC_MODELS_URL",
                models_url_default: ANTHROPIC_MODELS_URL,
            },
            LlmProviderKind::OpenRouter => ProviderEnvSpec {
                key_var: "OPENROUTER_API_KEY",
                model_var: "TRUCO_OPENROUTER_MODEL",
                base_url_var: "TRUCO_OPENROUTER_BASE_URL",
                base_url_default: OPENROUTER_CHAT_COMPLETIONS_URL,
                models_url_var: "TRUCO_OPENROUTER_MODELS_URL",
                models_url_default: OPENROUTER_MODELS_URL,
            },
        }
    }
}

pub open spec fn display_name_of(kind: LlmProviderKind) -> Seq<char> {
    match kind {
        LlmProviderKind::OpenAi => "OpenAI"@,
        LlmProviderKind::Anthropic => "Anthropic"@,
        LlmProviderKind::OpenRouter => "OpenRouter"@,
    }
}

/// The provider's name for people.
pub fn provider_display_name(kind: LlmProviderKind) -> (r: &'static str)
    ensures
        r@ == display_name_of(kind),
{
    match kind {
        LlmProviderKind::OpenAi => "OpenAI",
        LlmProviderKind::Anthropic => "Anthropic",
        LlmProviderKind::OpenRouter => "OpenRouter",
    }
}

/// A model offered by a provider.
#[derive(Debug, Clone, PartialEq, Eq)]
pub struct LlmProviderModel {
    pub id: String,
}

/// What the frontend shows of one provider.
#[derive(Debug, Clone, PartialEq, Eq)]
pub struct LlmProviderCatalog {
    pub provider: LlmProviderKind,
    pub enabled: bool,
    pub default_model: Option<String>,
    pub models: Vec<LlmProviderModel>,
    pub note: Option<String>,
}

/// Everything needed to talk to one provider.
#[derive(Debug, Clone, PartialEq, Eq)]
pub struct ProviderConfig {
    pub kind: LlmProviderKind,
    pub model: String,
    pub api_key: String,
    pub chat_url: String,
    pub models_url: String,
}

/// The values of a provider's environment variables (see `env_spec`):
/// `None` for a variable that is not set.
#[derive(Debug, Clone, PartialEq, Eq)]
pub struct ProviderEnv {
    pub model: Option<String>,
    pub api_key: Option<String>,
    pub base_url: Option<String>,
    pub models_url: Option<String>,
}

impl ProviderEnv {
    /// An environment where none of the provider's variables is set.
    pub fn empty() -> (r: Self)
        ensures
            r.model is None && r.api_key is None && r.base_url is None && r.models_url is None,
    {
        ProviderEnv { model: None, api_key: None, base_url: None, models_url: None }
    }
}

/// Why a provider bot could not be configured or could not act.
#[derive(Debug, Clone, PartialEq, Eq)]
pub enum LlmProviderError {
    MissingConfig(String),
    Transport(String),
    /// The provider refused for lack of credits or quota (HTTP 402).
    Exhausted(String),
    InvalidResponse(String),
    Bot(BotError),
}

/// `Some(v)` when the value is present and not blank.
pub open spec fn non_blank(v: Option<String>) -> Option<String> {
    match v {
        Some(s) => if is_blank_text(s@) { None } else { Some(s) },
        None => None,
    }
}

/// The model: the requested one when not blank, else the environment's.
pub open spec fn chosen_model(requested: Option<String>, env: ProviderEnv) -> Option<String> {
    match non_blank(requested) {
        Some(m) => Some(m),
        None => env.model,
    }
}

/// The key: the caller's override when not blank, else the environment's when
/// not blank.
pub open spec fn chosen_key(api_key_override: Option<String>, env: ProviderEnv) -> Option<String> {
    match non_blank(api_key_override) {
        Some(k) => Some(k),
        None => non_blank(env.api_key),
    }
}

pub open spec fn missing_model_message(kind: LlmProviderKind) -> Seq<char> {
    "Missing bot model. Set bot_model in the request or "@ + model_var_of(kind) + " in the environment."@
}

pub open spec fn missing_key_message(kind: LlmProviderKind) -> Seq<char> {
    "Missing "@ + key_var_of(kind) + " for the "@ + display_name_of(kind) + " bot."@
}

/// The configuration `resolve` yields: an error naming the model variable when
/// no model is known, else one naming the key variable when no key is known,
/// else the model, the key and the endpoints (environment overrides, else the
/// provider's defaults).
pub open spec fn resolution(
    kind: LlmProviderKind,
    requested_model: Option<String>,
    api_key_override: Option<String>,
    env: ProviderEnv,
    r: Result<ProviderConfig, LlmProviderError>,
) -> bool {
    match chosen_model(requested_model, env) {
        None => r matches Err(LlmProviderError::MissingConfig(m)) && m@ == missing_model_message(kind),
        Some(model) => match chosen_key(api_key_override, env) {
            None => r matches Err(LlmProviderError::MissingConfig(m)) && m@ == missing_key_message(kind),
            Some(key) => r matches Ok(c) && c.kind == kind && c.model == model && c.api_key == key
                && c.chat_url@ == match env.base_url {
                Some(u) => u@,
                None => chat_url_default_of(kind),
            } && c.models_url@ == match env.models_url {
                Some(u) => u@,
                None => models_url_default_of(kind),
            },
        },
    }
}

fn non_blank_value(v: Option<String>) -> (r: Option<String>)
    ensures
        r == non_blank(v),
{
    match v {
        Some(s) => if is_blank(s.as_str()) { None } else { Some(s) },
        None => None,
    }
}

fn join3(a: &str, b: &str, c: &str) -> (r: String)
    ensures
        r@ == a@ + b@ + c@,
{
    let mut s = String::from_str(a);
    s.append(b);
    s.append(c);
    s
}

impl ProviderConfig {
    /// The configuration from the request and the environment (see `resolution`).
    pub fn from_env(kind: LlmProviderKind, requested_model: Option<String>, env: &ProviderEnv) -> (r:
        Result<Self, LlmProviderError>)
        ensures
            resolution(kind, requested_model, None, *env, r),
    {
        Self::resolve(kind, requested_model, None, env)
    }

    /// Like `from_env`, but a present, non-blank `api_key_override` (bring your
    /// own key) wins over the environment's key.
    pub fn from_env_with_key(
        kind: LlmProviderKind,
        requested_model: Option<String>,
        api_key_override: Option<String>,
        env: &ProviderEnv,
    ) -> (r: Result<Self, LlmProviderError>)
        ensures
            resolution(kind, requested_model, api_key_override, *env, r),
    {
        Self::resolve(kind, requested_model, api_key_override, env)
    }

    fn resolve(
        kind: LlmProviderKind,
        requested_model: Option<String>,
        api_key_override: Option<String>,
        env: &ProviderEnv,
    ) -> (r: Result<Self, LlmProviderError>)
        ensures
            resolution(kind, requested_model, api_key_override, *env, r),
    {
        let spec = kind.env_spec();
        let model = match non_blank_value(requested_model) {
            Some(m) => m,
            None => match &env.model {
                Some(m) => m.clone(),
                None => {
                    let message = join3(
                        "Missing bot model. Set bot_model in the request or ",
                        spec.model_var,
                        " in the environment.",
                    );
                    return Err(LlmProviderError::MissingConfig(message));
                },
            },
        };
        let api_key = match non_blank_value(api_key_override) {
            Some(k) => k,
            None => match non_blank_value(env.api_key.clone()) {
                Some(k) => k,
                None => {
                    let mut message = join3("Missing ", spec.key_var, " for the ");
                    message.append(provider_display_name(kind));
                    message.append(" bot.");
                    return Err(LlmProviderError::MissingConfig(message));
                },
            },
        };
        let chat_url = match &env.base_url {
            Some(u) => u.clone(),
            None => String::from_str(spec.base_url_default),
        };
        let models_url = match &env.models_url {
            Some(u) => u.clone(),
            None => String::from_str(spec.models_url_default),
        };
        Ok(ProviderConfig { kind, model, api_key, chat_url, models_url })
    }
}

/// The ids of a model list.
pub open spec fn model_ids(models: Seq<LlmProviderModel>) -> Seq<Seq<char>> {
    models.map_values(|m: LlmProviderModel| m.id@)
}

/// The texts of a list of strings.
pub open spec fn texts(ids: Seq<String>) -> Seq<Seq<char>> {
    ids.map_values(|s: String| s@)
}

/// The list without repeats, each id kept at its first occurrence.
pub open spec fn dedup_first(s: Seq<Seq<char>>) -> Seq<Seq<char>>
    decreases s.len(),
{
    if s.len() == 0 {
        Seq::empty()
    } else {
        let d = dedup_first(s.drop_last());
        if d.contains(s.last()) {
            d
        } else {
            d.push(s.last())
        }
    }
}

/// The major-lab family prefixes whose models the OpenRouter shortlist keeps.
pub open spec fn family_prefix(f: int) -> Seq<char> {
    if f == 0 {
        "openai/"@
    } else if f == 1 {
        "anthropic/"@
    } else if f == 2 {
        "google/"@
    } else if f == 3 {
        "deepseek/"@
    } else {
        "z-ai/"@
    }
}

/// The family of a model id (0 to 4), or -1 for none.
pub open spec fn family_of(id: Seq<char>) -> int {
    if has_prefix(id, family_prefix(0)) {
        0
    } else if has_prefix(id, family_prefix(1)) {
        1
    } else if has_prefix(id, family_prefix(2)) {
        2
    } else if has_prefix(id, family_prefix(3)) {
        3
    } else if has_prefix(id, family_prefix(4)) {
        4
    } else {
        -1
    }
}

/// How many of the first `n` ids belong to family `f`.
pub open spec fn family_count_before(d: Seq<Seq<char>>, f: int, n: int) -> nat
    decreases n,
{
    if n <= 0 {
        0
    } else {
        family_count_before(d, f, n - 1) + if family_of(d[n - 1]) == f { 1nat } else { 0nat }
    }
}

/// The id at `i` is among the first three of its family (the family pass).
pub open spec fn is_family_pick(d: Seq<Seq<char>>, i: int) -> bool {
    family_of(d[i]) >= 0 && family_count_before(d, family_of(d[i]), i) < OPENROUTER_FAMILY_LIMIT
}

/// How many of the first `n` ids the family pass picks (`picked`) or leaves
/// (`!picked`).
pub open spec fn picks_before(d: Seq<Seq<char>>, n: int, picked: bool) -> nat
    decreases n,
{
    if n <= 0 {
        0
    } else {
        picks_before(d, n - 1, picked) + if is_family_pick(d, n - 1) == picked { 1nat } else { 0nat }
    }
}

/// The id at `i` is on the shortlist: picked for its family, or among the
/// most popular of the rest while the shortlist has room.
pub open spec fn shortlisted(d: Seq<Seq<char>>, i: int) -> bool {
    is_family_pick(d, i) || picks_before(d, d.len() as int, true) + picks_before(d, i, false)
        < OPENROUTER_MODEL_LIMIT
}

/// The shortlisted ids among the first `n`, in popularity order.
pub open spec fn shortlist(d: Seq<Seq<char>>, n: int) -> Seq<Seq<char>>
    decreases n,
{
    if n <= 0 {
        Seq::empty()
    } else if shortlisted(d, n - 1) {
        shortlist(d, n - 1).push(d[n - 1])
    } else {
        shortlist(d, n - 1)
    }
}

/// Whether some string of the list has the text of `id`.
fn contains_text(list: &Vec<String>, id: &String) -> (r: bool)
    ensures
        r == texts(list@).contains(id@),
{
    let mut i: usize = 0;
    while i < list.len()
        invariant
            i <= list.len(),
            forall|j: int| 0 <= j < i ==> list@[j]@ != id@,
        decreases list.len() - i,
    {
        if list[i].eq(id) {
            assert(texts(list@)[i as int] == id@);
            return true;
        }
        i = i + 1;
    }
    assert forall|j: int| 0 <= j < texts(list@).len() implies texts(list@)[j] != id@ by {}
    false
}

/// The ids without repeats, first occurrences kept in order.
pub fn dedup_ids(ids: &Vec<String>) -> (r: Vec<String>)
    ensures
        texts(r@) == dedup_first(texts(ids@)),
{
    let mut out: Vec<String> = Vec::new();
    let mut i: usize = 0;
    while i < ids.len()
        invariant
            i <= ids.len(),
            texts(out@) == dedup_first(texts(ids@).take(i as int)),
        decreases ids.len() - i,
    {
        assert(texts(ids@).take(i + 1).drop_last() == texts(ids@).take(i as int));
        assert(texts(ids@).take(i + 1).last() == ids@[i as int]@);
        if !contains_text(&out, &ids[i]) {
            let ghost before = out@;
            out.push(ids[i].clone());
            assert(texts(out@) == texts(before).push(ids@[i as int]@));
        }
        i = i + 1;
    }
    assert(texts(ids@).take(ids.len() as int) == texts(ids@));
    out
}

/// The family of a model id (see `family_of`).
pub fn family_index(id: &String) -> (r: i8)
    ensures
        r as int == family_of(id@),
{
    proof {
        reveal_strlit("openai/");
        reveal_strlit("anthropic/");
        reveal_strlit("google/");
        reveal_strlit("deepseek/");
        reveal_strlit("z-ai/");
    }
    if starts_with(id.as_str(), "openai/") {
        0
    } else if starts_with(id.as_str(), "anthropic/") {
        1
    } else if starts_with(id.as_str(), "google/") {
        2
    } else if starts_with(id.as_str(), "deepseek/") {
        3
    } else if starts_with(id.as_str(), "z-ai/") {
        4
    } else {
        -1
    }
}

/// The OpenRouter shortlist of an id list already in popularity order:
/// repeats dropped, up to three models of each major-lab family guaranteed,
/// the remaining room (25 in all) filled by popularity, popularity order kept.
pub fn curate_openrouter_models(ids: &Vec<String>) -> (r: Vec<LlmProviderModel>)
    ensures
        model_ids(r@) == shortlist(dedup_first(texts(ids@)), dedup_first(texts(ids@)).len() as int),
{
    let ordered = dedup_ids(ids);
    let ghost d = texts(ordered@);
    let n = ordered.len();
    // Family pass: the first three ids of each family.
    let mut counts: Vec<usize> = vec![0, 0, 0, 0, 0];
    let mut picked: Vec<bool> = Vec::new();
    let mut family_total: usize = 0;
    let mut i: usize = 0;
    while i < n
        invariant
            i <= n,
            n == ordered@.len(),
            d == texts(ordered@),
            counts@.len() == 5,
            forall|f: int| 0 <= f < 5 ==> #[trigger] counts@[f] as int == family_count_before(d, f, i as int),
            forall|f: int| 0 <= f < 5 ==> #[trigger] counts@[f] <= i,
            picked@.len() == i,
            forall|j: int| 0 <= j < i ==> #[trigger] picked@[j] == is_family_pick(d, j),
            family_total as int == picks_before(d, i as int, true),
            family_total <= i,
        decreases n - i,
    {
        let f = family_index(&ordered[i]);
        assert(d[i as int] == ordered@[i as int]@);
        let pick = f >= 0 && counts[f as usize] < OPENROUTER_FAMILY_LIMIT;
        picked.push(pick);
        if f >= 0 {
            let c = counts[f as usize];
            counts.set(f as usize, c + 1);
        }
        if pick {
            family_total = family_total + 1;
        }
        i = i + 1;
    }
    // Backfill pass, in popularity order.
    let mut out: Vec<LlmProviderModel> = Vec::new();
    let mut rest: usize = 0;
    i = 0;
    while i < n
        invariant
            i <= n,
            n == ordered@.len(),
            d == texts(ordered@),
            picked@.len() == n,
            forall|j: int| 0 <= j < n ==> #[trigger] picked@[j] == is_family_pick(d, j),
            family_total as int == picks_before(d, n as int, true),
            family_total <= n,
            rest as int == picks_before(d, i as int, false),
            rest <= i,
            model_ids(out@) == shortlist(d, i as int),
        decreases n - i,
    {
        let keep = picked[i] || (family_total < OPENROUTER_MODEL_LIMIT && rest < OPENROUTER_MODEL_LIMIT
            - family_total);
        if keep {
            let ghost before = out@;
            out.push(LlmProviderModel { id: ordered[i].clone() });
            assert(model_ids(out@) == model_ids(before).push(d[i as int]));
        }
        if !picked[i] {
            rest = rest + 1;
        }
        i = i + 1;
    }
    out
}

/// Whether a model list is in strictly increasing id order.
pub open spec fn strictly_sorted(ids: Seq<Seq<char>>) -> bool {
    forall|a: int, b: int| 0 <= a < b < ids.len() ==> text_lt(ids[a], ids[b])
}

/// The models of a provider other than OpenRouter: ids sorted, repeats dropped.
pub fn sort_dedup_models(ids: &Vec<String>) -> (r: Vec<LlmProviderModel>)
    ensures
        strictly_sorted(model_ids(r@)),
        forall|x: Seq<char>| model_ids(r@).contains(x) <==> texts(ids@).contains(x),
{
    let mut out: Vec<LlmProviderModel> = Vec::new();
    let mut i: usize = 0;
    while i < ids.len()
        invariant
            i <= ids.len(),
            strictly_sorted(model_ids(out@)),
            forall|x: Seq<char>| model_ids(out@).contains(x) <==> texts(ids@).take(i as int).contains(x),
        decreases ids.len() - i,
    {
        let id = &ids[i];
        let ghost x = id@;
        let ghost before = model_ids(out@);
        // Position of the first model not smaller than `id`.
        let mut k: usize = 0;
        let mut found = false;
        let mut stop = false;
        while k < out.len() && !stop
            invariant
                k <= out.len(),
                x == id@,
                before == model_ids(out@),
                strictly_sorted(before),
                forall|j: int| 0 <= j < k ==> text_lt(before[j], x),
                stop ==> k < out.len() && (found <==> before[k as int] == x) && (!found ==> text_lt(
                    x,
                    before[k as int],
                )),
                !stop ==> !found,
            decreases out.len() - k + if stop { 0int } else { 1int },
        {
            assert(before[k as int] == out@[k as int].id@);
            let c = compare_text(out[k].id.as_str(), id.as_str());
            if c != -1 {
                found = c == 0;
                stop = true;
            } else {
                k = k + 1;
            }
        }
        proof {
            assert(texts(ids@).take(i + 1) == texts(ids@).take(i as int).push(x));
        }
        if !found {
            out.insert(k, LlmProviderModel { id: id.clone() });
            proof {
                let after = model_ids(out@);
                assert(after == before.insert(k as int, x));
                if k < before.len() {
                    lemma_text_lt_trichotomy(before[k as int], x);
                }
                assert forall|a: int, b: int| 0 <= a < b < after.len() implies text_lt(after[a], after[b]) by {
                    if b < k {
                    } else if b == k {
                    } else if a < k {
                        if b - 1 > k {
                            lemma_text_lt_transitive(x, before[k as int], before[b - 1]);
                        }
                        lemma_text_lt_transitive(before[a], x, before[b - 1]);
                    } else if a == k {
                        if b - 1 > k {
                            lemma_text_lt_transitive(x, before[k as int], before[b - 1]);
                        }
                    } else {
                    }
                }
                assert forall|y: Seq<char>| after.contains(y) <==> texts(ids@).take(i + 1).contains(y) by {
                    let t = texts(ids@).take(i as int);
                    let t1 = texts(ids@).take(i + 1);
                    assert(texts(ids@).take(i + 1).contains(y) <==> (t.contains(y) || y == x)) by {
                        if texts(ids@).take(i + 1).contains(y) {
                            let j = choose|j: int| 0 <= j < i + 1 && t1[j] == y;
                            if j < i {
                                assert(t[j] == y);
                            }
                        }
                        if t.contains(y) {
                            let j = choose|j: int| 0 <= j < i && t[j] == y;
                            assert(texts(ids@).take(i + 1)[j] == y);
                        }
                        assert(texts(ids@).take(i + 1)[i as int] == x);
                    }
                    if after.contains(y) {
                        let j = choose|j: int| 0 <= j < after.len() && after[j] == y;
                        if j < k {
                            assert(before[j] == y);
                        } else if j > k {
                            assert(before[j - 1] == y);
                        }
                    }
                    if before.contains(y) {
                        let j = choose|j: int| 0 <= j < before.len() && before[j] == y;
                        if j < k {
                            assert(after[j] == y);
                        } else {
                            assert(after[j + 1] == y);
                        }
                    }
                    assert(after[k as int] == x);
                }
            }
        } else {
            proof {
                assert(before[k as int] == x);
                assert forall|y: Seq<char>| before.contains(y) <==> texts(ids@).take(i + 1).contains(y) by {
                    let t = texts(ids@).take(i as int);
                    let t1 = texts(ids@).take(i + 1);
                    if texts(ids@).take(i + 1).contains(y) {
                        let j = choose|j: int| 0 <= j < i + 1 && t1[j] == y;
                        if j < i {
                            assert(t[j] == y);
                        }
                    }
                    if t.contains(y) {
                        let j = choose|j: int| 0 <= j < i && t[j] == y;
                        assert(texts(ids@).take(i + 1)[j] == y);
                    }
                    assert(texts(ids@).take(i + 1)[i as int] == x);
                }
            }
        }
        i = i + 1;
    }
    assert(texts(ids@).take(ids.len() as int) == texts(ids@));
    out
}

/// The curated model list for a provider from the ids a discovery answer
/// lists, in answer order: OpenRouter keeps its popularity order in the
/// curated shortlist; the others are sorted by id with repeats dropped.
pub fn models_from_ids(kind: LlmProviderKind, ids: &Vec<String>) -> (r: Vec<LlmProviderModel>)
    ensures
        kind == LlmProviderKind::OpenRouter ==> model_ids(r@) == shortlist(
            dedup_first(texts(ids@)),
            dedup_first(texts(ids@)).len() as int,
        ),
        kind != LlmProviderKind::OpenRouter ==> strictly_sorted(model_ids(r@)) && forall|x: Seq<char>|
            model_ids(r@).contains(x) <==> texts(ids@).contains(x),
{
    if kind == LlmProviderKind::OpenRouter {
        curate_openrouter_models(ids)
    } else {
        sort_dedup_models(ids)
    }
}

/// The ids of the entries of a model list that carry a string `id`, in order.
pub open spec fn listed_ids(entries: Seq<JsonValue>) -> Seq<Seq<char>>
    decreases entries.len(),
{
    if entries.len() == 0 {
        Seq::empty()
    } else {
        let rest = listed_ids(entries.drop_last());
        match text_of(member(entries.last(), "id"@)) {
            Some(id) => rest.push(id),
            None => rest,
        }
    }
}

/// The model list of a discovery answer: its `data` array, else its `models`
/// array.
pub open spec fn model_list(doc: JsonValue) -> Option<Seq<JsonValue>> {
    match items_of(member(doc, "data"@)) {
        Some(items) => Some(items),
        None => items_of(member(doc, "models"@)),
    }
}

pub open spec fn missing_list_message() -> Seq<char> {
    "Provider model response did not include a model list"@
}

fn ids_of_entries(entries: &Vec<JsonValue>) -> (r: Vec<String>)
    ensures
        texts(r@) == listed_ids(entries@),
{
    let mut out: Vec<String> = Vec::new();
    let mut i: usize = 0;
    while i < entries.len()
        invariant
            i <= entries@.len(),
            texts(out@) == listed_ids(entries@.take(i as int)),
        decreases entries.len() - i,
    {
        assert(entries@.take(i + 1).drop_last() == entries@.take(i as int));
        assert(entries@.take(i + 1).last() == entries@[i as int]);
        if let Some(id) = entries[i].get("id").as_text() {
            let ghost before = out@;
            out.push(id.clone());
            assert(texts(out@) == texts(before).push(id@));
        }
        i = i + 1;
    }
    assert(entries@.take(entries@.len() as int) == entries@);
    out
}

/// The models a parsed discovery answer offers: an `InvalidResponse` error
/// naming the missing list when it has none; else the listed ids, curated for
/// the provider (see `models_from_ids`).
pub fn models_from_document(kind: LlmProviderKind, doc: &JsonValue) -> (r: Result<
    Vec<LlmProviderModel>,
    LlmProviderError,
>)
    ensures
        match model_list(*doc) {
            None => r matches Err(LlmProviderError::InvalidResponse(t)) && t@ == missing_list_message(),
            Some(entries) => r matches Ok(models) && ({
                let ids = listed_ids(entries);
                &&& kind == LlmProviderKind::OpenRouter ==> model_ids(models@) == shortlist(
                    dedup_first(ids),
                    dedup_first(ids).len() as int,
                )
                &&& kind != LlmProviderKind::OpenRouter ==> strictly_sorted(model_ids(models@))
                    && forall|x: Seq<char>| model_ids(models@).contains(x) <==> ids.contains(x)
            }),
        },
{
    let entries = match doc.get("data").as_items() {
        Some(items) => items,
        None => match doc.get("models").as_items() {
            Some(items) => items,
            None => {
                return Err(
                    LlmProviderError::InvalidResponse(
                        String::from_str("Provider model response did not include a model list"),
                    ),
                );
            },
        },
    };
    let ids = ids_of_entries(entries);
    Ok(models_from_ids(kind, &ids))
}

/// The models a discovery answer offers: an `InvalidResponse` error with
/// serde_json's message when the answer is not JSON; else what
/// `models_from_document` gives for the parsed answer.
pub fn extract_provider_models(kind: LlmProviderKind, raw: &str) -> (r: Result<
    Vec<LlmProviderModel>,
    LlmProviderError,
>)
    ensures
        match json_parse(raw@) {
            Err(m) => r matches Err(LlmProviderError::InvalidResponse(t)) && t@ == m,
            Ok(doc) => match model_list(doc) {
                None => r matches Err(LlmProviderError::InvalidResponse(t)) && t@ == missing_list_message(),
                Some(entries) => r matches Ok(models) && ({
                    let ids = listed_ids(entries);
                    &&& kind == LlmProviderKind::OpenRouter ==> model_ids(models@) == shortlist(
                        dedup_first(ids),
                        dedup_first(ids).len() as int,
                    )
                    &&& kind != LlmProviderKind::OpenRouter ==> strictly_sorted(model_ids(models@))
                        && forall|x: Seq<char>| model_ids(models@).contains(x) <==> ids.contains(x)
                }),
            },
        },
{
    match parse_json(raw) {
        Ok(doc) => models_from_document(kind, &doc),
        Err(m) => Err(LlmProviderError::InvalidResponse(m)),
    }
}

/// The first text block of an answer's content chunks: a chunk whose `type`
/// is "text" and whose `text` is a string.
pub open spec fn first_text_block(chunks: Seq<JsonValue>) -> Option<Seq<char>>
    decreases chunks.len(),
{
    if chunks.len() == 0 {
        None
    } else if text_of(member(chunks[0], "type"@)) == Some("text"@) && text_of(member(chunks[0], "text"@)) is Some {
        text_of(member(chunks[0], "text"@))
    } else {
        first_text_block(chunks.drop_first())
    }
}

/// The reply text of a chat answer: `choices[0].message.content` for the
/// chat-completions providers, the first text block of `content` for
/// Anthropic.
pub open spec fn content_of(kind: LlmProviderKind, doc: JsonValue) -> Option<Seq<char>> {
    match kind {
        LlmProviderKind::Anthropic => match items_of(member(doc, "content"@)) {
            Some(chunks) => first_text_block(chunks),
            None => None,
        },
        _ => text_of(member(member(element(member(doc, "choices"@), 0), "message"@), "content"@)),
    }
}

pub open spec fn missing_content_message(kind: LlmProviderKind) -> Seq<char> {
    match kind {
        LlmProviderKind::Anthropic => "Anthropic response did not include a text content block"@,
        _ => "OpenAI-compatible response did not include choices[0].message.content"@,
    }
}

fn first_text_block_of(chunks: &Vec<JsonValue>) -> (r: Option<String>)
    ensures
        match r {
            Some(t) => first_text_block(chunks@) == Some(t@),
            None => first_text_block(chunks@) is None,
        },
{
    let mut i: usize = 0;
    assert(chunks@.skip(0) == chunks@);
    while i < chunks.len()
        invariant
            i <= chunks@.len(),
            first_text_block(chunks@) == first_text_block(chunks@.skip(i as int)),
        decreases chunks.len() - i,
    {
        assert(chunks@.skip(i as int).drop_first() == chunks@.skip(i + 1));
        assert(chunks@.skip(i as int)[0] == chunks@[i as int]);
        let chunk = &chunks[i];
        let is_text = match chunk.get("type").as_text() {
            Some(t) => compare_text(t.as_str(), "text") == 0,
            None => false,
        };
        proof {
            reveal_strlit("text");
        }
        if is_text {
            if let Some(text) = chunk.get("text").as_text() {
                return Some(text.clone());
            }
        }
        i = i + 1;
    }
    None
}

/// The reply text of a parsed chat answer (see `content_of`): an
/// `InvalidResponse` error naming what is missing when it has no reply text.
pub fn content_from_document(kind: LlmProviderKind, doc: &JsonValue) -> (r: Result<String, LlmProviderError>)
    ensures
        match content_of(kind, *doc) {
            Some(text) => r matches Ok(t) && t@ == text,
            None => r matches Err(LlmProviderError::InvalidResponse(t)) && t@ == missing_content_message(kind),
        },
{
    match kind {
        LlmProviderKind::Anthropic => {
            let found = match doc.get("content").as_items() {
                Some(chunks) => first_text_block_of(chunks),
                None => None,
            };
            match found {
                Some(t) => Ok(t),
                None => Err(
                    LlmProviderError::InvalidResponse(
                        String::from_str("Anthropic response did not include a text content block"),
                    ),
                ),
            }
        },
        _ => match doc.get("choices").at(0).get("message").get("content").as_text() {
            Some(t) => Ok(t.clone()),
            None => Err(
                LlmProviderError::InvalidResponse(
                    String::from_str(
                        "OpenAI-compatible response did not include choices[0].message.content",
                    ),
                ),
            ),
        },
    }
}

/// The reply text of a chat answer: an `InvalidResponse` error with
/// serde_json's message when the answer is not JSON; else what
/// `content_from_document` gives for the parsed answer.
pub fn extract_provider_content(kind: LlmProviderKind, raw: &str) -> (r: Result<String, LlmProviderError>)
    ensures
        match json_parse(raw@) {
            Err(m) => r matches Err(LlmProviderError::InvalidResponse(t)) && t@ == m,
            Ok(doc) => match content_of(kind, doc) {
                Some(text) => r matches Ok(t) && t@ == text,
                None => r matches Err(LlmProviderError::InvalidResponse(t)) && t@ == missing_content_message(kind),
            },
        },
{
    match parse_json(raw) {
        Ok(doc) => content_from_document(kind, &doc),
        Err(m) => Err(LlmProviderError::InvalidResponse(m)),
    }
}

/// The text of a provider error.
pub open spec fn provider_error_text(e: LlmProviderError) -> Seq<char> {
    match e {
        LlmProviderError::MissingConfig(m) => m@,
        LlmProviderError::Transport(m) => m@,
        LlmProviderError::Exhausted(m) => m@,
        LlmProviderError::InvalidResponse(m) => m@,
        LlmProviderError::Bot(b) => bot_error_text(b),
    }
}

impl LlmProviderError {
    /// The error as text.
    pub fn message(&self) -> (r: String)
        ensures
            r@ == provider_error_text(*self),
    {
        match self {
            LlmProviderError::MissingConfig(m) => m.clone(),
            LlmProviderError::Transport(m) => m.clone(),
            LlmProviderError::Exhausted(m) => m.clone(),
            LlmProviderError::InvalidResponse(m) => m.clone(),
            LlmProviderError::Bot(b) => b.message(),
        }
    }
}

/// HTTP methods the providers are called with.
#[derive(Debug, Clone, Copy, PartialEq, Eq, Structural)]
pub enum HttpMethod {
    Get,
    Post,
}

/// What a chat request carries: the chat-completions shape (OpenAI,
/// OpenRouter, asking for a JSON object reply) or the messages shape
/// (Anthropic, with a reply token budget).
#[derive(Debug, Clone, PartialEq, Eq)]
pub enum RequestBody {
    ChatCompletions { model: String, response_format: String, system: String, user: String },
    Messages { model: String, max_tokens: u32, system: String, user: String },
}

/// A request to a provider.
#[derive(Debug, Clone, PartialEq, Eq)]
pub struct HttpRequest {
    pub method: HttpMethod,
    pub url: String,
    pub headers: Vec<(String, String)>,
    pub body: Option<RequestBody>,
}

/// A provider's answer.
#[derive(Debug, Clone, PartialEq, Eq)]
pub struct HttpResponse {
    pub body: String,
}

/// OpenRouter's optional attribution values (referer and title), as set in
/// the environment.
#[derive(Debug, Clone, PartialEq, Eq)]
pub struct Attribution {
    pub referer: Option<String>,
    pub title: Option<String>,
}

/// The headers of a request, as texts.
pub open spec fn header_texts(headers: Seq<(String, String)>) -> Seq<(Seq<char>, Seq<char>)> {
    headers.map_values(|h: (String, String)| (h.0@, h.1@))
}

/// The headers of a chat request.
pub open spec fn chat_headers(config: ProviderConfig, attribution: Attribution) -> Seq<(Seq<char>, Seq<char>)> {
    match config.kind {
        LlmProviderKind::Anthropic => seq![
            ("x-api-key"@, config.api_key@),
            ("anthropic-version"@, "2023-06-01"@),
            ("content-type"@, "application/json"@),
        ],
        LlmProviderKind::OpenAi => seq![
            ("authorization"@, "Bearer "@ + config.api_key@),
            ("content-type"@, "application/json"@),
        ],
        LlmProviderKind::OpenRouter => seq![
            ("authorization"@, "Bearer "@ + config.api_key@),
            ("content-type"@, "application/json"@),
        ] + match attribution.referer {
            Some(r) => seq![("HTTP-Referer"@, r@)],
            None => Seq::empty(),
        } + seq![
            (
                "X-Title"@,
                match attribution.title {
                    Some(t) => t@,
                    None => "Baixada Truco"@,
                },
            ),
        ],
    }
}

/// The headers of a model-discovery request.
pub open spec fn models_headers(config: ProviderConfig) -> Seq<(Seq<char>, Seq<char>)> {
    match config.kind {
        LlmProviderKind::Anthropic => seq![("x-api-key"@, config.api_key@), ("anthropic-version"@, "2023-06-01"@)],
        _ => seq![("authorization"@, "Bearer "@ + config.api_key@)],
    }
}

fn header(name: &str, value: String) -> (r: (String, String))
    ensures
        r.0@ == name@,
        r.1 == value,
{
    (String::from_str(name), value)
}

fn bearer(key: &String) -> (r: String)
    ensures
        r@ == "Bearer "@ + key@,
{
    let mut s = String::from_str("Bearer ");
    s.append(key.as_str());
    s
}

/// The chat request for a turn: a POST to the chat endpoint with the
/// provider's headers (OpenRouter's attribution included) and body shape,
/// carrying the model, the system prompt and the user message.
pub fn build_provider_request(
    config: &ProviderConfig,
    system_prompt: &str,
    user_content: String,
    attribution: &Attribution,
) -> (r: HttpRequest)
    ensures
        r.method == HttpMethod::Post,
        r.url@ == config.chat_url@,
        header_texts(r.headers@) == chat_headers(*config, *attribution),
        r.body matches Some(b) && match (config.kind, b) {
            (LlmProviderKind::Anthropic, RequestBody::Messages { model, max_tokens, system, user }) =>
                model == config.model && max_tokens == 800 && system@ == system_prompt@ && user == user_content,
            (LlmProviderKind::OpenAi, RequestBody::ChatCompletions { model, response_format, system, user }) =>
                model == config.model && response_format@ == "json_object"@ && system@ == system_prompt@
                    && user == user_content,
            (LlmProviderKind::OpenRouter, RequestBody::ChatCompletions { model, response_format, system, user }) =>
                model == config.model && response_format@ == "json_object"@ && system@ == system_prompt@
                    && user == user_content,
            _ => false,
        },
{
    let mut headers: Vec<(String, String)> = Vec::new();
    let body = match config.kind {
        LlmProviderKind::Anthropic => {
            headers.push(header("x-api-key", config.api_key.clone()));
            headers.push(header("anthropic-version", String::from_str("2023-06-01")));
            headers.push(header("content-type", String::from_str("application/json")));
            RequestBody::Messages {
                model: config.model.clone(),
                max_tokens: 800,
                system: String::from_str(system_prompt),
                user: user_content,
            }
        },
        _ => {
            headers.push(header("authorization", bearer(&config.api_key)));
            headers.push(header("content-type", String::from_str("application/json")));
            if config.kind == LlmProviderKind::OpenRouter {
                if let Some(referer) = &attribution.referer {
                    headers.push(header("HTTP-Referer", referer.clone()));
                }
                let title = match &attribution.title {
                    Some(t) => t.clone(),
                    None => String::from_str(OPENROUTER_DEFAULT_TITLE),
                };
                headers.push(header("X-Title", title));
            }
            RequestBody::ChatCompletions {
                model: config.model.clone(),
                response_format: String::from_str("json_object"),
                system: String::from_str(system_prompt),
                user: user_content,
            }
        },
    };
    proof {
        reveal_strlit("Baixada Truco");
    }
    assert(header_texts(headers@) =~= chat_headers(*config, *attribution));
    HttpRequest { method: HttpMethod::Post, url: config.chat_url.clone(), headers, body: Some(body) }
}

/// The model-discovery request: a GET to the models endpoint with the
/// provider's authentication headers and no body.
pub fn build_models_request(config: &ProviderConfig) -> (r: HttpRequest)
    ensures
        r.method == HttpMethod::Get,
        r.url@ == config.models_url@,
        header_texts(r.headers@) == models_headers(*config),
        r.body is None,
{
    let mut headers: Vec<(String, String)> = Vec::new();
    match config.kind {
        LlmProviderKind::Anthropic => {
            headers.push(header("x-api-key", config.api_key.clone()));
            headers.push(header("anthropic-version", String::from_str("2023-06-01")));
        },
        _ => {
            headers.push(header("authorization", bearer(&config.api_key)));
        },
    }
    assert(header_texts(headers@) =~= models_headers(*config));
    HttpRequest { method: HttpMethod::Get, url: config.models_url.clone(), headers, body: None }
}

/// The environment variable listing a provider's fallback models.
pub open spec fn models_list_var_of(kind: LlmProviderKind) -> Seq<char> {
    match kind {
        LlmProviderKind::OpenAi => "TRUCO_OPENAI_MODELS"@,
        LlmProviderKind::Anthropic => "TRUCO_ANTHROPIC_MODELS"@,
        LlmProviderKind::OpenRouter => "TRUCO_OPENROUTER_MODELS"@,
    }
}

/// The environment variable listing a provider's fallback models.
pub fn models_list_var(kind: LlmProviderKind) -> (r: &'static str)
    ensures
        r@ == models_list_var_of(kind),
{
    match kind {
        LlmProviderKind::OpenAi => "TRUCO_OPENAI_MODELS",
        LlmProviderKind::Anthropic => "TRUCO_ANTHROPIC_MODELS",
        LlmProviderKind::OpenRouter => "TRUCO_OPENROUTER_MODELS",
    }
}

/// The non-empty trimmed pieces of a comma-separated list, in order.
pub open spec fn listed_models(pieces: Seq<Seq<char>>) -> Seq<Seq<char>>
    decreases pieces.len(),
{
    if pieces.len() == 0 {
        Seq::empty()
    } else {
        let rest = listed_models(pieces.drop_last());
        if trimmed(pieces.last()).len() > 0 {
            rest.push(trimmed(pieces.last()))
        } else {
            rest
        }
    }
}

/// The fallback model ids: the listed ones, with the configured default in
/// front when it is not among them.
pub open spec fn fallback_ids(list: Option<String>, default_model: Option<String>) -> Seq<Seq<char>> {
    let listed = match list {
        Some(l) => listed_models(split_commas(l@)),
        None => Seq::empty(),
    };
    match default_model {
        Some(d) => if listed.contains(d@) {
            listed
        } else {
            seq![d@] + listed
        },
        None => listed,
    }
}

fn model_of(id: &str) -> (r: LlmProviderModel)
    ensures
        r.id@ == id@,
{
    LlmProviderModel { id: String::from_str(id) }
}

fn has_model(models: &Vec<LlmProviderModel>, id: &String) -> (r: bool)
    ensures
        r == model_ids(models@).contains(id@),
{
    let mut i: usize = 0;
    while i < models.len()
        invariant
            i <= models@.len(),
            forall|j: int| 0 <= j < i ==> models@[j].id@ != id@,
        decreases models.len() - i,
    {
        if models[i].id.eq(id) {
            assert(model_ids(models@)[i as int] == id@);
            return true;
        }
        i = i + 1;
    }
    assert forall|j: int| 0 <= j < model_ids(models@).len() implies model_ids(models@)[j] != id@ by {}
    false
}

/// The models offered when discovery is unavailable: the comma-separated
/// `list` (the provider's models-list variable), trimmed, empty entries
/// dropped, and the configured default model in front when missing.
pub fn fallback_models_from_env(list: Option<String>, default_model: Option<String>) -> (r: Vec<
    LlmProviderModel,
>)
    ensures
        model_ids(r@) == fallback_ids(list, default_model),
{
    let mut models: Vec<LlmProviderModel> = Vec::new();
    let ghost listed: Seq<Seq<char>> = Seq::empty();
    if let Some(l) = &list {
        let pieces = split_commas_of(l.as_str());
        let ghost ps = pieces@.map_values(|p: &str| p@);
        let mut i: usize = 0;
        while i < pieces.len()
            invariant
                i <= pieces@.len(),
                ps == pieces@.map_values(|p: &str| p@),
                model_ids(models@) == listed_models(ps.take(i as int)),
            decreases pieces.len() - i,
        {
            assert(ps.take(i + 1).drop_last() == ps.take(i as int));
            assert(ps.take(i + 1).last() == pieces@[i as int]@);
            let t = trim(pieces[i]);
            if t.unicode_len() > 0 {
                let ghost before = model_ids(models@);
                models.push(model_of(t));
                assert(model_ids(models@) =~= before.push(t@));
            }
            i = i + 1;
        }
        assert(ps.take(pieces@.len() as int) == ps);
        proof {
            listed = listed_models(split_commas(l@));
        }
    }
    assert(model_ids(models@) == listed);
    if let Some(d) = &default_model {
        if !has_model(&models, d) {
            let ghost before = model_ids(models@);
            models.insert(0, LlmProviderModel { id: d.clone() });
            assert(model_ids(models@) =~= seq![d@] + before);
        }
    }
    models
}

/// The catalog of a provider that cannot be configured: disabled, offering
/// the fallback models, with the configuration error as its note.
pub fn catalog_without_config(
    provider: LlmProviderKind,
    default_model: Option<String>,
    error: &LlmProviderError,
    fallback: Vec<LlmProviderModel>,
) -> (r: LlmProviderCatalog)
    ensures
        r.provider == provider,
        !r.enabled,
        r.default_model == default_model,
        r.models == fallback,
        r.note matches Some(n) && n@ == provider_error_text(*error),
{
    LlmProviderCatalog {
        provider,
        enabled: false,
        default_model,
        models: fallback,
        note: Some(error.message()),
    }
}

pub open spec fn discovery_note() -> Seq<char> {
    "Using environment-configured model options because provider model discovery was unavailable."@
}

/// The catalog of a configured provider from its discovery outcome: the
/// discovered models when there are some, the configured model put in front
/// when discovery left it out; else the fallback models with a note saying
/// discovery was unavailable.
pub fn catalog_from_discovery(
    config: ProviderConfig,
    discovered: Result<Vec<LlmProviderModel>, LlmProviderError>,
    fallback: Vec<LlmProviderModel>,
) -> (r: LlmProviderCatalog)
    ensures
        r.provider == config.kind,
        r.enabled,
        r.default_model == Some(config.model),
        match discovered {
            Ok(models) if models@.len() > 0 => r.note is None && model_ids(r.models@) == if model_ids(
                models@,
            ).contains(config.model@) {
                model_ids(models@)
            } else {
                seq![config.model@] + model_ids(models@)
            },
            _ => r.models == fallback && (r.note matches Some(n) && n@ == discovery_note()),
        },
{
    match discovered {
        Ok(mut models) => {
            if models.len() > 0 {
                if !has_model(&models, &config.model) {
                    let ghost before = model_ids(models@);
                    models.insert(0, LlmProviderModel { id: config.model.clone() });
                    assert(model_ids(models@) =~= seq![config.model@] + before);
                }
                return LlmProviderCatalog {
                    provider: config.kind,
                    enabled: true,
                    default_model: Some(config.model),
                    models,
                    note: None,
                };
            }
        },
        Err(_) => {},
    }
    LlmProviderCatalog {
        provider: config.kind,
        enabled: true,
        default_model: Some(config.model),
        models: fallback,
        note: Some(
            String::from_str(
                "Using environment-configured model options because provider model discovery was unavailable.",
            ),
        ),
    }
}

/// The number of ids of family `f` in a whole list.
pub open spec fn family_count(d: Seq<Seq<char>>, f: int) -> nat {
    family_count_before(d, f, d.len() as int)
}

pub open spec fn min_nat(a: nat, b: nat) -> nat {
    if a <= b { a } else { b }
}

proof fn lemma_picks_split(d: Seq<Seq<char>>, n: int)
    requires
        0 <= n,
    ensures
        picks_before(d, n, true) + picks_before(d, n, false) == n,
    decreases n,
{
    if n > 0 {
        lemma_picks_split(d, n - 1);
    }
}

/// The family pass picks, per family, the first three ids of that family.
proof fn lemma_family_picks(d: Seq<Seq<char>>, n: int)
    requires
        0 <= n <= d.len(),
    ensures
        picks_before(d, n, true) == min_nat(family_count_before(d, 0, n), 3) + min_nat(
            family_count_before(d, 1, n),
            3,
        ) + min_nat(family_count_before(d, 2, n), 3) + min_nat(family_count_before(d, 3, n), 3)
            + min_nat(family_count_before(d, 4, n), 3),
    decreases n,
{
    if n > 0 {
        lemma_family_picks(d, n - 1);
        let f = family_of(d[n - 1]);
        assert(-1 <= f < 5);
    }
}

proof fn lemma_shortlist_len(d: Seq<Seq<char>>, n: int)
    requires
        0 <= n <= d.len(),
        picks_before(d, d.len() as int, true) <= OPENROUTER_MODEL_LIMIT,
    ensures
        shortlist(d, n).len() == picks_before(d, n, true) + min_nat(
            picks_before(d, n, false),
            (OPENROUTER_MODEL_LIMIT - picks_before(d, d.len() as int, true)) as nat,
        ),
    decreases n,
{
    if n > 0 {
        lemma_shortlist_len(d, n - 1);
    }
}

/// The curated OpenRouter shortlist holds every distinct id up to the cap:
/// its length is the number of distinct ids, at most 25.
pub proof fn lemma_shortlist_size(ids: Seq<Seq<char>>)
    ensures
        ({
            let d = dedup_first(ids);
            shortlist(d, d.len() as int).len() == min_nat(d.len(), OPENROUTER_MODEL_LIMIT as nat)
        }),
{
    let d = dedup_first(ids);
    let n = d.len() as int;
    lemma_family_picks(d, n);
    lemma_picks_split(d, n);
    lemma_shortlist_len(d, n);
}

proof fn lemma_family_count_push(s: Seq<Seq<char>>, x: Seq<char>, f: int, k: int)
    requires
        0 <= k <= s.len(),
    ensures
        family_count_before(s.push(x), f, k) == family_count_before(s, f, k),
    decreases k,
{
    if k > 0 {
        lemma_family_count_push(s, x, f, k - 1);
        assert(s.push(x)[k - 1] == s[k - 1]);
    }
}

proof fn lemma_family_kept(d: Seq<Seq<char>>, f: int, n: int)
    requires
        0 <= n <= d.len(),
        0 <= f < 5,
    ensures
        family_count(shortlist(d, n), f) >= min_nat(family_count_before(d, f, n), 3),
    decreases n,
{
    if n > 0 {
        lemma_family_kept(d, f, n - 1);
        let prev = shortlist(d, n - 1);
        let x = d[n - 1];
        if shortlisted(d, n - 1) {
            let cur = prev.push(x);
            assert(shortlist(d, n) == cur);
            lemma_family_count_push(prev, x, f, prev.len() as int);
            assert(cur[prev.len() as int] == x);
            assert(family_count(cur, f) == family_count(prev, f) + if family_of(x) == f { 1nat } else { 0nat });
        } else {
            assert(!is_family_pick(d, n - 1));
            assert(shortlist(d, n) == prev);
        }
    }
}

/// Family coverage: the shortlist keeps, of each major-lab family, at least
/// as many ids as the family has distinct ids, up to three.
pub proof fn lemma_shortlist_family_coverage(ids: Seq<Seq<char>>, f: int)
    requires
        0 <= f < 5,
    ensures
        ({
            let d = dedup_first(ids);
            family_count(shortlist(d, d.len() as int), f) >= min_nat(family_count(d, f), 3)
        }),
{
    let d = dedup_first(ids);
    lemma_family_kept(d, f, d.len() as int);
}

proof fn lemma_shortlist_from(d: Seq<Seq<char>>, n: int)
    requires
        0 <= n <= d.len(),
    ensures
        forall|i: int| 0 <= i < shortlist(d, n).len() ==> exists|j: int| 0 <= j < n && #[trigger] shortlist(d, n)[i] == d[j],
    decreases n,
{
    if n > 0 {
        lemma_shortlist_from(d, n - 1);
        let prev = shortlist(d, n - 1);
        assert forall|i: int| 0 <= i < shortlist(d, n).len() implies exists|j: int| 0 <= j < n && #[trigger] shortlist(d, n)[i] == d[j] by {
            if i < prev.len() {
                assert(shortlist(d, n)[i] == prev[i]);
                let j = choose|j: int| 0 <= j < n - 1 && prev[i] == d[j];
                assert(shortlist(d, n)[i] == d[j]);
            } else {
                assert(shortlist(d, n)[i] == d[n - 1]);
            }
        }
    }
}

/// The shortlist only offers listed ids.
pub proof fn lemma_shortlist_listed(ids: Seq<Seq<char>>)
    ensures
        ({
            let d = dedup_first(ids);
            forall|x: Seq<char>| shortlist(d, d.len() as int).contains(x) ==> ids.contains(x)
        }),
{
    let d = dedup_first(ids);
    lemma_shortlist_from(d, d.len() as int);
    lemma_dedup_listed(ids);
    assert forall|x: Seq<char>| shortlist(d, d.len() as int).contains(x) implies ids.contains(x) by {
        let i = choose|i: int| 0 <= i < shortlist(d, d.len() as int).len() && shortlist(d, d.len() as int)[i] == x;
        let j = choose|j: int| 0 <= j < d.len() && #[trigger] shortlist(d, d.len() as int)[i] == d[j];
        assert(d.contains(d[j]));
    }
}

proof fn lemma_dedup_listed(s: Seq<Seq<char>>)
    ensures
        forall|x: Seq<char>| dedup_first(s).contains(x) <==> s.contains(x),
    decreases s.len(),
{
    if s.len() > 0 {
        let rest = s.drop_last();
        let d = dedup_first(rest);
        lemma_dedup_listed(rest);
        assert forall|x: Seq<char>| dedup_first(s).contains(x) <==> s.contains(x) by {
            if s.contains(x) {
                let k = choose|k: int| 0 <= k < s.len() && s[k] == x;
                if k < s.len() - 1 {
                    assert(rest[k] == x);
                    assert(rest.contains(x));
                    let m = choose|m: int| 0 <= m < d.len() && d[m] == x;
                    if !d.contains(s.last()) {
                        assert(d.push(s.last())[m] == x);
                    }
                } else {
                    if !d.contains(s.last()) {
                        assert(d.push(s.last())[d.len() as int] == x);
                    }
                }
            }
            if dedup_first(s).contains(x) {
                let m = choose|m: int| 0 <= m < dedup_first(s).len() && dedup_first(s)[m] == x;
                if m < d.len() {
                    if !d.contains(s.last()) {
                        assert(d.push(s.last())[m] == d[m]);
                    }
                    assert(d[m] == x);
                    assert(d.contains(x));
                    assert(rest.contains(x));
                    let k = choose|k: int| 0 <= k < rest.len() && rest[k] == x;
                    assert(s[k] == x);
                } else {
                    assert(s[s.len() - 1] == x);
                }
            }
        }
    }
}

proof fn lemma_dedup_distinct(s: Seq<Seq<char>>)
    ensures
        dedup_first(s).no_duplicates(),
    decreases s.len(),
{
    if s.len() > 0 {
        let d = dedup_first(s.drop_last());
        lemma_dedup_distinct(s.drop_last());
        if !d.contains(s.last()) {
            let e = d.push(s.last());
            assert forall|i: int, j: int| 0 <= i < e.len() && 0 <= j < e.len() && i != j implies e[i] != e[j] by {
                if i < d.len() && j < d.len() {
                    assert(e[i] == d[i] && e[j] == d[j]);
                } else if i < d.len() {
                    assert(e[i] == d[i]);
                    assert(d.contains(d[i]));
                } else {
                    assert(e[j] == d[j]);
                    assert(d.contains(d[j]));
                }
            }
        }
    }
}

/// The positions, below `n`, of the shortlisted ids, in increasing order.
pub open spec fn shortlist_positions(d: Seq<Seq<char>>, n: int) -> Seq<int>
    decreases n,
{
    if n <= 0 {
        Seq::empty()
    } else if shortlisted(d, n - 1) {
        shortlist_positions(d, n - 1).push(n - 1)
    } else {
        shortlist_positions(d, n - 1)
    }
}

/// `s` is the subsequence of `d` at the strictly increasing positions `pos`,
/// which are exactly the shortlisted positions.
pub open spec fn is_shortlist_order(d: Seq<Seq<char>>, s: Seq<Seq<char>>, pos: Seq<int>) -> bool {
    &&& pos.len() == s.len()
    &&& forall|k: int| 0 <= k < pos.len() ==> 0 <= #[trigger] pos[k] < d.len() && s[k] == d[pos[k]]
        && shortlisted(d, pos[k])
    &&& forall|k1: int, k2: int| 0 <= k1 < k2 < pos.len() ==> #[trigger] pos[k1] < #[trigger] pos[k2]
    &&& forall|i: int| 0 <= i < d.len() && #[trigger] shortlisted(d, i) ==> pos.contains(i)
}

proof fn lemma_positions(d: Seq<Seq<char>>, n: int)
    requires
        0 <= n <= d.len(),
    ensures
        ({
            let pos = shortlist_positions(d, n);
            let s = shortlist(d, n);
            &&& pos.len() == s.len()
            &&& forall|k: int| 0 <= k < pos.len() ==> 0 <= #[trigger] pos[k] < n && s[k] == d[pos[k]]
                && shortlisted(d, pos[k])
            &&& forall|k1: int, k2: int| 0 <= k1 < k2 < pos.len() ==> #[trigger] pos[k1] < #[trigger] pos[k2]
            &&& forall|i: int| 0 <= i < n && #[trigger] shortlisted(d, i) ==> pos.contains(i)
        }),
    decreases n,
{
    if n > 0 {
        lemma_positions(d, n - 1);
        let p0 = shortlist_positions(d, n - 1);
        let s0 = shortlist(d, n - 1);
        let pos = shortlist_positions(d, n);
        let s = shortlist(d, n);
        if shortlisted(d, n - 1) {
            assert forall|k: int| 0 <= k < pos.len() implies 0 <= #[trigger] pos[k] < n && s[k] == d[pos[k]]
                && shortlisted(d, pos[k]) by {
                if k < p0.len() {
                    assert(pos[k] == p0[k] && s[k] == s0[k]);
                }
            }
            assert forall|k1: int, k2: int| 0 <= k1 < k2 < pos.len() implies #[trigger] pos[k1] < #[trigger] pos[k2] by {
                assert(pos[k1] == p0[k1]);
                if k2 < p0.len() {
                    assert(pos[k2] == p0[k2]);
                }
            }
            assert forall|i: int| 0 <= i < n && #[trigger] shortlisted(d, i) implies pos.contains(i) by {
                if i < n - 1 {
                    let k = choose|k: int| 0 <= k < p0.len() && p0[k] == i;
                    assert(pos[k] == i);
                } else {
                    assert(pos[p0.len() as int] == i);
                }
            }
        } else {
            assert forall|i: int| 0 <= i < n && #[trigger] shortlisted(d, i) implies pos.contains(i) by {
                assert(i < n - 1);
            }
        }
    }
}

proof fn lemma_shortlist_members(d: Seq<Seq<char>>)
    requires
        d.no_duplicates(),
    ensures
        is_shortlist_order(d, shortlist(d, d.len() as int), shortlist_positions(d, d.len() as int)),
        shortlist(d, d.len() as int).no_duplicates(),
        forall|i: int| 0 <= i < d.len() ==> (shortlist(d, d.len() as int).contains(#[trigger] d[i])
            <==> shortlisted(d, i)),
{
    let n = d.len() as int;
    lemma_positions(d, n);
    let pos = shortlist_positions(d, n);
    let s = shortlist(d, n);
    assert forall|k1: int, k2: int| 0 <= k1 < s.len() && 0 <= k2 < s.len() && k1 != k2 implies s[k1] != s[k2] by {
        assert(pos[k1] != pos[k2]) by {
            if k1 < k2 {
                assert(pos[k1] < pos[k2]);
            } else {
                assert(pos[k2] < pos[k1]);
            }
        }
        assert(s[k1] == d[pos[k1]] && s[k2] == d[pos[k2]]);
    }
    assert forall|i: int| 0 <= i < d.len() implies (s.contains(#[trigger] d[i]) <==> shortlisted(d, i)) by {
        if shortlisted(d, i) {
            assert(pos.contains(i));
            let k = choose|k: int| 0 <= k < pos.len() && pos[k] == i;
            assert(s[k] == d[i]);
        }
        if s.contains(d[i]) {
            let k = choose|k: int| 0 <= k < s.len() && s[k] == d[i];
            assert(s[k] == d[pos[k]]);
            assert(pos[k] == i);
        }
    }
}

/// No repeats: the curated OpenRouter shortlist offers each id once.
pub proof fn lemma_shortlist_distinct(ids: Seq<Seq<char>>)
    ensures
        ({
            let d = dedup_first(ids);
            shortlist(d, d.len() as int).no_duplicates()
        }),
{
    lemma_dedup_distinct(ids);
    lemma_shortlist_members(dedup_first(ids));
}

/// Order kept: the shortlist is the shortlisted ids of the first-occurrence
/// list, in that list's order.
pub proof fn lemma_shortlist_order(ids: Seq<Seq<char>>)
    ensures
        ({
            let d = dedup_first(ids);
            exists|pos: Seq<int>| #[trigger] is_shortlist_order(d, shortlist(d, d.len() as int), pos)
        }),
{
    let d = dedup_first(ids);
    lemma_dedup_distinct(ids);
    lemma_shortlist_members(d);
}

/// The first three distinct ids of each major-lab family are on the shortlist.
pub proof fn lemma_shortlist_family_picks(ids: Seq<Seq<char>>)
    ensures
        ({
            let d = dedup_first(ids);
            forall|i: int| 0 <= i < d.len() && #[trigger] is_family_pick(d, i) ==> shortlist(
                d,
                d.len() as int,
            ).contains(d[i])
        }),
{
    let d = dedup_first(ids);
    lemma_dedup_distinct(ids);
    lemma_shortlist_members(d);
    assert forall|i: int| 0 <= i < d.len() && #[trigger] is_family_pick(d, i) implies shortlist(
        d,
        d.len() as int,
    ).contains(d[i]) by {
        assert(shortlisted(d, i));
    }
}

proof fn lemma_picks_monotone(d: Seq<Seq<char>>, a: int, b: int, picked: bool)
    requires
        a <= b,
    ensures
        picks_before(d, a, picked) <= picks_before(d, b, picked),
    decreases b - a,
{
    if a < b {
        lemma_picks_monotone(d, a, b - 1, picked);
    }
}

/// Earliest fill: an id outside the family picks is on the shortlist only if
/// every earlier id outside the family picks is too.
pub proof fn lemma_shortlist_earliest_fill(ids: Seq<Seq<char>>)
    ensures
        ({
            let d = dedup_first(ids);
            let s = shortlist(d, d.len() as int);
            forall|i: int, j: int|
                0 <= i < j < d.len() && !is_family_pick(d, i) && !is_family_pick(d, j) && s.contains(
                    #[trigger] d[j],
                ) ==> s.contains(#[trigger] d[i])
        }),
{
    let d = dedup_first(ids);
    let s = shortlist(d, d.len() as int);
    lemma_dedup_distinct(ids);
    lemma_shortlist_members(d);
    assert forall|i: int, j: int|
        0 <= i < j < d.len() && !is_family_pick(d, i) && !is_family_pick(d, j) && s.contains(
            #[trigger] d[j],
        ) implies s.contains(#[trigger] d[i]) by {
        assert(shortlisted(d, j));
        lemma_picks_monotone(d, i, j, false);
        assert(shortlisted(d, i));
    }
}

} // verus!
