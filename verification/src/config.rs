//! User settings: defaults, and how the optional `config.toml` fields override them.
use vstd::prelude::*;
use vstd::string::*;

use crate::text::{chars_of, string_of_range, trim, trim_bounds};

verus! {

/// Launcher settings.
#[derive(Clone, Debug)]
pub struct Config {
    pub max_results: usize,
    pub hint: String,
    pub preferred_binding: String,
    pub enable_super_alone_extension: bool,
    pub bind_super_slash: bool,
    pub bind_xf86_search: bool,
}

/// The default bottom hint.
pub open spec fn default_hint() -> Seq<char> {
    "?/ddg/gs search · Alt+1-9 · ↑↓ · Enter · Esc"@
}

/// The default shortcut.
pub open spec fn default_binding() -> Seq<char> {
    "Super+backslash"@
}

impl Default for Config {
    /// Defaults match the lean Floresline experience (Super+\ recommended; Super alone opt-in).
    fn default() -> (r: Self)
        ensures
            r.max_results == 9,
            r.hint@ == default_hint(),
            r.preferred_binding@ == default_binding(),
            !r.enable_super_alone_extension,
            r.bind_super_slash,
            r.bind_xf86_search,
    {
        Config {
            max_results: 9,
            hint: String::from_str("?/ddg/gs search · Alt+1-9 · ↑↓ · Enter · Esc"),
            preferred_binding: String::from_str("Super+backslash"),
            enable_super_alone_extension: false,
            bind_super_slash: true,
            bind_xf86_search: true,
        }
    }
}

/// The fields a `config.toml` may set; absent ones are `None`.
#[derive(Clone, Debug)]
pub struct ConfigFile {
    pub max_results: Option<u32>,
    pub hint: Option<String>,
    pub preferred_binding: Option<String>,
    pub enable_super_alone_extension: Option<bool>,
    pub bind_super_slash: Option<bool>,
    pub bind_xf86_search: Option<bool>,
}

impl Default for ConfigFile {
    fn default() -> (r: Self)
        ensures
            r.max_results is None && r.hint is None && r.preferred_binding is None
                && r.enable_super_alone_extension is None && r.bind_super_slash is None
                && r.bind_xf86_search is None,
    {
        ConfigFile {
            max_results: None,
            hint: None,
            preferred_binding: None,
            enable_super_alone_extension: None,
            bind_super_slash: None,
            bind_xf86_search: None,
        }
    }
}

/// A text setting: the trimmed file value when it is not empty, else the default.
pub open spec fn text_setting(v: Option<String>, default: Seq<char>) -> Seq<char> {
    match v {
        Some(s) => if trim(s@).len() > 0 {
            trim(s@)
        } else {
            default
        },
        None => default,
    }
}

/// `n` clamped to `1..=50`.
pub open spec fn clamp_results(n: u32) -> int {
    if n < 1 {
        1
    } else if n > 50 {
        50
    } else {
        n as int
    }
}

fn text_or(v: Option<String>, default: &str) -> (r: String)
    ensures
        r@ == text_setting(v, default@),
{
    match v {
        Some(s) => {
            let c = chars_of(s.as_str());
            let (a, b) = trim_bounds(c.as_slice());
            if a < b {
                string_of_range(c.as_slice(), a, b)
            } else {
                String::from_str(default)
            }
        },
        None => String::from_str(default),
    }
}

/// Settings from a parsed `config.toml`: every field it sets overrides the default;
/// `max_results` is clamped to 1..=50, text fields are trimmed and ignored when empty.
pub fn from_file(file: ConfigFile) -> (r: Config)
    ensures
        r.max_results == match file.max_results {
            Some(n) => clamp_results(n),
            None => 9,
        },
        r.hint@ == text_setting(file.hint, default_hint()),
        r.preferred_binding@ == text_setting(file.preferred_binding, default_binding()),
        r.enable_super_alone_extension == match file.enable_super_alone_extension {
            Some(v) => v,
            None => false,
        },
        r.bind_super_slash == match file.bind_super_slash {
            Some(v) => v,
            None => true,
        },
        r.bind_xf86_search == match file.bind_xf86_search {
            Some(v) => v,
            None => true,
        },
{
    let mut cfg = Config::default();
    if let Some(n) = file.max_results {
        let m = n as usize;
        cfg.max_results = if m < 1 {
            1
        } else if m > 50 {
            50
        } else {
            m
        };
    }
    cfg.hint = text_or(file.hint, "?/ddg/gs search · Alt+1-9 · ↑↓ · Enter · Esc");
    cfg.preferred_binding = text_or(file.preferred_binding, "Super+backslash");
    if let Some(v) = file.enable_super_alone_extension {
        cfg.enable_super_alone_extension = v;
    }
    if let Some(v) = file.bind_super_slash {
        cfg.bind_super_slash = v;
    }
    if let Some(v) = file.bind_xf86_search {
        cfg.bind_xf86_search = v;
    }
    cfg
}

/// The number of rows shown is always between 1 and 50.
pub proof fn law_max_results_in_range(n: Option<u32>)
    ensures
        1 <= match n {
            Some(v) => clamp_results(v),
            None => 9,
        } <= 50,
{
}

} // verus!
