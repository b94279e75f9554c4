//! Settings (written by the user, read by the kernel): model endpoints and
//! keys, log level, English mode, and the checked patch the GUI submits.
use vstd::prelude::*;
use vstd::string::*;

use crate::text::{concat2, has_prefix, starts_with, trim, trim_str};

verus! {

/// Diagnostic log level.
#[derive(Debug, Clone, Copy, PartialEq, Eq, Structural)]
pub enum Level {
    Debug,
    Info,
    Warn,
    Error,
    Critical,
}

/// Wire protocol of the main model endpoint.
#[derive(Debug, Clone, Copy, PartialEq, Eq, Structural)]
pub enum Transport {
    Responses,
    ChatCompletions,
}

impl Transport {
    /// The transport used when none is configured.
    pub fn default_transport() -> (t: Transport)
        ensures
            t == Transport::Responses,
    {
        Transport::Responses
    }
}

/// The level used when none is configured.
pub fn default_log_level() -> (l: Level)
    ensures
        l == Level::Info,
{
    Level::Info
}

#[derive(Debug, Clone)]
pub struct ModelConfig {
    pub api_url: String,
    pub api_key: String,
    pub model: Option<String>,
    pub transport: Option<Transport>,
}

/// Patch submitted by the GUI; `None` leaves a field as it is.
#[derive(Debug, Clone)]
pub struct SettingsPatch {
    pub log_level: Option<Level>,
    pub english_mode: Option<bool>,
    pub main_model: Option<ModelConfigPatch>,
    pub vision_model: Option<ModelConfigPatch>,
}

/// Patch of one model configuration; an empty or blank key keeps the old key.
#[derive(Debug, Clone)]
pub struct ModelConfigPatch {
    pub api_url: Option<String>,
    pub api_key: Option<String>,
    pub model: Option<String>,
    pub transport: Option<Transport>,
}

#[derive(Debug, Clone)]
pub struct Settings {
    pub log_level: Level,
    pub english_mode: bool,
    pub main_model: ModelConfig,
    pub vision_model: ModelConfig,
}

pub open spec fn opt_view(o: Option<String>) -> Option<Seq<char>> {
    match o {
        Some(s) => Some(s@),
        None => None,
    }
}

/// An API address is accepted when it starts with `https://` or `http://`.
pub open spec fn valid_api_url(u: Seq<char>) -> bool {
    has_prefix(u, "https://"@) || has_prefix(u, "http://"@)
}

pub open spec fn url_accepted(p: ModelConfigPatch) -> bool {
    match p.api_url {
        Some(u) => valid_api_url(trim(u@)),
        None => true,
    }
}

pub open spec fn model_accepted(p: ModelConfigPatch) -> bool {
    match p.model {
        Some(m) => trim(m@).len() > 0,
        None => true,
    }
}

pub open spec fn patched_url(cfg: ModelConfig, p: ModelConfigPatch) -> Seq<char> {
    match p.api_url {
        Some(u) => trim(u@),
        None => cfg.api_url@,
    }
}

pub open spec fn patched_key(cfg: ModelConfig, p: ModelConfigPatch) -> Seq<char> {
    match p.api_key {
        Some(k) => if trim(k@).len() > 0 {
            trim(k@)
        } else {
            cfg.api_key@
        },
        None => cfg.api_key@,
    }
}

pub open spec fn patched_model(cfg: ModelConfig, p: ModelConfigPatch) -> Option<Seq<char>> {
    match p.model {
        Some(m) => Some(trim(m@)),
        None => opt_view(cfg.model),
    }
}

pub open spec fn patched_transport(cfg: ModelConfig, p: ModelConfigPatch) -> Option<Transport> {
    match p.transport {
        Some(t) => Some(t),
        None => cfg.transport,
    }
}

pub open spec fn bad_url_message(name: Seq<char>) -> Seq<char> {
    name + ".api_url 必须是 http(s) 地址"@
}

pub open spec fn empty_model_message(name: Seq<char>) -> Seq<char> {
    name + ".model 不能为空"@
}

/// The configuration is `cfg` as far as the views go.
pub open spec fn same_config(a: ModelConfig, b: ModelConfig) -> bool {
    &&& a.api_url@ == b.api_url@
    &&& a.api_key@ == b.api_key@
    &&& opt_view(a.model) == opt_view(b.model)
    &&& a.transport == b.transport
}

/// What applying a model patch does, field by field: the address is checked
/// and set first, the key next, then the model is checked and set, then the
/// transport.  A failed check stops there and leaves the later fields.
pub open spec fn model_patch_result(cfg: ModelConfig, p: ModelConfigPatch, name: Seq<char>, out: ModelConfig, r: Result<(), String>) -> bool {
    if !url_accepted(p) {
        &&& r matches Err(m) && m@ == bad_url_message(name)
        &&& same_config(out, cfg)
    } else if !model_accepted(p) {
        &&& r matches Err(m) && m@ == empty_model_message(name)
        &&& out.api_url@ == patched_url(cfg, p)
        &&& out.api_key@ == patched_key(cfg, p)
        &&& opt_view(out.model) == opt_view(cfg.model)
        &&& out.transport == cfg.transport
    } else {
        &&& r is Ok
        &&& out.api_url@ == patched_url(cfg, p)
        &&& out.api_key@ == patched_key(cfg, p)
        &&& opt_view(out.model) == patched_model(cfg, p)
        &&& out.transport == patched_transport(cfg, p)
    }
}

impl Settings {
    /// Applies one model patch; `name` names the configuration in errors.
    fn apply_model_patch(cfg: &mut ModelConfig, patch: Option<&ModelConfigPatch>, name: &str) -> (r: Result<(), String>)
        ensures
            match patch {
                None => r is Ok && same_config(*final(cfg), *old(cfg)),
                Some(p) => model_patch_result(*old(cfg), *p, name@, *final(cfg), r),
            },
    {
        let patch = match patch {
            None => return Ok(()),
            Some(p) => p,
        };
        if let Some(url) = &patch.api_url {
            let url = trim_str(url.as_str());
            if !(starts_with(url.as_str(), "https://") || starts_with(url.as_str(), "http://")) {
                return Err(concat2(name, ".api_url 必须是 http(s) 地址"));
            }
            cfg.api_url = url;
        }
        if let Some(key) = &patch.api_key {
            let key = trim_str(key.as_str());
            if key.unicode_len() > 0 {
                cfg.api_key = key;
            }
        }
        if let Some(model) = &patch.model {
            let model = trim_str(model.as_str());
            if model.unicode_len() == 0 {
                return Err(concat2(name, ".model 不能为空"));
            }
            cfg.model = Some(model);
        }
        if let Some(transport) = patch.transport {
            cfg.transport = Some(transport);
        }
        Ok(())
    }

    /// Applies a settings patch and checks it (addresses must be http(s),
    /// model names non-blank).  The log level and English mode are set first,
    /// then the main model patch, then the vision model patch; a failed check
    /// returns the error with the changes made before it kept.
    pub fn apply_patch(&mut self, patch: &SettingsPatch) -> (r: Result<(), String>)
        ensures
            final(self).log_level == match patch.log_level {
                Some(l) => l,
                None => old(self).log_level,
            },
            final(self).english_mode == match patch.english_mode {
                Some(e) => e,
                None => old(self).english_mode,
            },
            match patch.main_model {
                None => same_config(final(self).main_model, old(self).main_model),
                Some(p) => model_patch_result(
                    old(self).main_model,
                    p,
                    "main_model"@,
                    final(self).main_model,
                    if url_accepted(p) && model_accepted(p) {
                        Ok::<(), String>(())
                    } else {
                        r
                    },
                ),
            },
            match patch.main_model {
                Some(p) => !(url_accepted(p) && model_accepted(p)),
                None => false,
            } ==> r is Err && same_config(final(self).vision_model, old(self).vision_model),
            match patch.main_model {
                Some(p) => url_accepted(p) && model_accepted(p),
                None => true,
            } ==> match patch.vision_model {
                None => r is Ok && same_config(final(self).vision_model, old(self).vision_model),
                Some(p) => model_patch_result(old(self).vision_model, p, "vision_model"@, final(self).vision_model, r),
            },
    {
        if let Some(level) = patch.log_level {
            self.log_level = level;
        }
        if let Some(english_mode) = patch.english_mode {
            self.english_mode = english_mode;
        }
        let r = Self::apply_model_patch(&mut self.main_model, patch.main_model.as_ref(), "main_model");
        if r.is_err() {
            return r;
        }
        Self::apply_model_patch(&mut self.vision_model, patch.vision_model.as_ref(), "vision_model")
    }
}

// ---------- the view the GUI gets ----------

/// A model configuration as the GUI sees it: the key never, only whether
/// one is set.
#[derive(Debug)]
pub struct PublicModel {
    pub api_url: String,
    pub model: Option<String>,
    pub transport: Option<Transport>,
    pub key_set: bool,
}

/// The settings as the GUI sees them (no API key anywhere).
#[derive(Debug)]
pub struct PublicSettings {
    pub log_level: Level,
    pub english_mode: bool,
    pub main_model: PublicModel,
    pub vision_model: PublicModel,
}

pub open spec fn public_of(c: ModelConfig, p: PublicModel) -> bool {
    &&& p.api_url@ == c.api_url@
    &&& opt_view(p.model) == opt_view(c.model)
    &&& p.transport == c.transport
    &&& p.key_set == (c.api_key@.len() > 0)
}

fn public_model(c: &ModelConfig) -> (p: PublicModel)
    ensures
        public_of(*c, p),
{
    PublicModel {
        api_url: crate::text::owned(c.api_url.as_str()),
        model: match &c.model {
            Some(m) => Some(crate::text::owned(m.as_str())),
            None => None,
        },
        transport: c.transport,
        key_set: c.api_key.unicode_len() > 0,
    }
}

/// The configuration a connection test uses: the main or the vision model,
/// with the key under test in place of the saved one when one is given
/// (trimmed, and not blank).
pub open spec fn test_config_of(s: Settings, vision: bool, key: Option<Seq<char>>) -> (Seq<char>, Seq<char>, Option<Seq<char>>, Option<Transport>) {
    let c = if vision {
        s.vision_model
    } else {
        s.main_model
    };
    let k = match key {
        Some(k) => if trim(k).len() > 0 {
            trim(k)
        } else {
            c.api_key@
        },
        None => c.api_key@,
    };
    (c.api_url@, k, opt_view(c.model), c.transport)
}

impl Settings {
    pub fn test_config(&self, vision: bool, key: Option<&str>) -> (c: ModelConfig)
        ensures
            (c.api_url@, c.api_key@, opt_view(c.model), c.transport) == test_config_of(
                *self,
                vision,
                match key {
                    Some(k) => Some(k@),
                    None => None,
                },
            ),
    {
        let base = if vision {
            &self.vision_model
        } else {
            &self.main_model
        };
        let api_key = match key {
            Some(k) => {
                let t = trim_str(k);
                if t.unicode_len() > 0 {
                    t
                } else {
                    crate::text::owned(base.api_key.as_str())
                }
            },
            None => crate::text::owned(base.api_key.as_str()),
        };
        ModelConfig {
            api_url: crate::text::owned(base.api_url.as_str()),
            api_key,
            model: crate::message::copy_opt_string(&base.model),
            transport: base.transport,
        }
    }
}

impl Settings {
    /// The public view: everything but the keys, and whether each is set.
    pub fn public_view(&self) -> (v: PublicSettings)
        ensures
            v.log_level == self.log_level,
            v.english_mode == self.english_mode,
            public_of(self.main_model, v.main_model),
            public_of(self.vision_model, v.vision_model),
    {
        PublicSettings {
            log_level: self.log_level,
            english_mode: self.english_mode,
            main_model: public_model(&self.main_model),
            vision_model: public_model(&self.vision_model),
        }
    }
}

// ---------- settings from the environment ----------

/// The environment variables settings fall back to (absent ones `None`).
#[derive(Debug)]
pub struct EnvSettings {
    pub main_key: Option<String>,
    pub main_url: Option<String>,
    pub vision_key: Option<String>,
    pub vision_url: Option<String>,
    pub vision_model: Option<String>,
    pub log_level: Option<String>,
}

pub open spec fn main_default_url() -> Seq<char> {
    "https://api.deepseek.com"@
}

pub open spec fn vision_default_url() -> Seq<char> {
    "https://api.siliconflow.cn/v1"@
}

pub open spec fn vision_default_model() -> Seq<char> {
    "Qwen/Qwen3-VL-32B-Instruct"@
}

/// Log level named by the environment ("debug", "warn", "error",
/// "critical"; anything else is info).
pub open spec fn level_named(name: Option<Seq<char>>) -> Level {
    match name {
        Some(n) => if n == "debug"@ {
            Level::Debug
        } else if n == "warn"@ {
            Level::Warn
        } else if n == "error"@ {
            Level::Error
        } else if n == "critical"@ {
            Level::Critical
        } else {
            Level::Info
        },
        None => Level::Info,
    }
}

fn level_of(name: &Option<String>) -> (l: Level)
    ensures
        l == level_named(opt_view(*name)),
{
    match name {
        Some(n) => {
            if crate::text::str_eq(n.as_str(), "debug") {
                Level::Debug
            } else if crate::text::str_eq(n.as_str(), "warn") {
                Level::Warn
            } else if crate::text::str_eq(n.as_str(), "error") {
                Level::Error
            } else if crate::text::str_eq(n.as_str(), "critical") {
                Level::Critical
            } else {
                Level::Info
            }
        },
        None => Level::Info,
    }
}

fn or_text(o: &Option<String>, d: &str) -> (r: String)
    ensures
        r@ == match opt_view(*o) {
            Some(v) => v,
            None => d@,
        },
{
    match o {
        Some(v) => crate::text::owned(v.as_str()),
        None => crate::text::owned(d),
    }
}

/// Settings when no settings file exists: without a main key, empty keys
/// and the default endpoints and models (the first-run guide fills them);
/// with one, the environment's values over the defaults.
pub fn settings_from_env(env: &EnvSettings) -> (s: Settings)
    ensures
        match env.main_key {
            None => {
                &&& s.log_level == Level::Info
                &&& !s.english_mode
                &&& s.main_model.api_url@ == main_default_url()
                &&& s.main_model.api_key@ == Seq::<char>::empty()
                &&& opt_view(s.main_model.model) == Some("deepseek-v4-flash"@)
                &&& s.main_model.transport == Some(Transport::Responses)
                &&& s.vision_model.api_url@ == vision_default_url()
                &&& s.vision_model.api_key@ == Seq::<char>::empty()
                &&& opt_view(s.vision_model.model) == Some(vision_default_model())
                &&& s.vision_model.transport is None
            },
            Some(k) => {
                &&& s.log_level == level_named(opt_view(env.log_level))
                &&& !s.english_mode
                &&& s.main_model.api_url@ == (match opt_view(env.main_url) {
                    Some(u) => u,
                    None => main_default_url(),
                })
                &&& s.main_model.api_key@ == k@
                &&& s.main_model.model is None
                &&& s.main_model.transport == Some(Transport::Responses)
                &&& s.vision_model.api_url@ == (match opt_view(env.vision_url) {
                    Some(u) => u,
                    None => vision_default_url(),
                })
                &&& s.vision_model.api_key@ == (match opt_view(env.vision_key) {
                    Some(v) => v,
                    None => Seq::<char>::empty(),
                })
                &&& opt_view(s.vision_model.model) == Some(
                    match opt_view(env.vision_model) {
                        Some(m) => m,
                        None => vision_default_model(),
                    },
                )
                &&& s.vision_model.transport is None
            },
        },
{
    match &env.main_key {
        None => Settings {
            log_level: Level::Info,
            english_mode: false,
            main_model: ModelConfig {
                api_url: crate::text::owned("https://api.deepseek.com"),
                api_key: String::new(),
                model: Some(crate::text::owned("deepseek-v4-flash")),
                transport: Some(Transport::Responses),
            },
            vision_model: ModelConfig {
                api_url: crate::text::owned("https://api.siliconflow.cn/v1"),
                api_key: String::new(),
                model: Some(crate::text::owned("Qwen/Qwen3-VL-32B-Instruct")),
                transport: None,
            },
        },
        Some(k) => Settings {
            log_level: level_of(&env.log_level),
            english_mode: false,
            main_model: ModelConfig {
                api_url: or_text(&env.main_url, "https://api.deepseek.com"),
                api_key: crate::text::owned(k.as_str()),
                model: None,
                transport: Some(Transport::Responses),
            },
            vision_model: ModelConfig {
                api_url: or_text(&env.vision_url, "https://api.siliconflow.cn/v1"),
                api_key: match &env.vision_key {
                    Some(v) => crate::text::owned(v.as_str()),
                    None => String::new(),
                },
                model: Some(or_text(&env.vision_model, "Qwen/Qwen3-VL-32B-Instruct")),
                transport: None,
            },
        },
    }
}

} // verus!
