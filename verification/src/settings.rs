//! The persisted configuration entity: a versioned settings value with an
//! optional explicit database path and a theme name.

use vstd::prelude::*;
use vstd::string::StringExecFns;
use crate::json::{parse_settings, parse_settings_spec, ser_settings, lemma_settings_roundtrip};

verus! {

/// The persisted user configuration.
#[derive(Debug, Clone)]
pub struct Settings {
    pub version: u32,
    pub db_path: Option<String>,
    pub theme: String,
}

/// Mathematical model of a `Settings` value.
#[verifier::ext_equal]
pub struct SettingsView {
    pub version: u32,
    pub db_path: Option<Seq<char>>,
    pub theme: Seq<char>,
}

impl View for Settings {
    type V = SettingsView;

    open spec fn view(&self) -> SettingsView {
        SettingsView {
            version: self.version,
            db_path: match self.db_path {
                Some(p) => Some(p@),
                None => None,
            },
            theme: self.theme@,
        }
    }
}

/// The documented default construction: version one, no explicit database
/// path, and the "system" theme.
pub open spec fn default_view() -> SettingsView {
    SettingsView { version: 1, db_path: None, theme: "system"@ }
}

/// A settings value is well formed when its version is positive.
pub open spec fn wf_settings(v: SettingsView) -> bool {
    v.version >= 1
}

impl Default for Settings {
    fn default() -> (r: Settings)
        ensures
            r@ == default_view(),
    {
        let r = Settings { version: 1, db_path: None, theme: String::from_str("system") };
        proof {
            assert(r@ =~= default_view());
        }
        r
    }
}

/// The version migration chain applied on load: versions below the current
/// supported version are normalized upward to it; nothing is ever lowered.
pub open spec fn migrate_view(v: SettingsView) -> SettingsView {
    if v.version < 1 {
        SettingsView { version: 1, db_path: v.db_path, theme: v.theme }
    } else {
        v
    }
}

impl Settings {
    /// Apply the version migration chain: normalize a version below the
    /// current supported version up to it, leaving every other field alone.
    pub fn migrated(self) -> (r: Settings)
        ensures
            r@ == migrate_view(self@),
            wf_settings(r@),
    {
        let ghost v = self@;
        if self.version < 1 {
            let r = Settings { version: 1, db_path: self.db_path, theme: self.theme };
            proof {
                assert(r@ =~= migrate_view(v));
            }
            r
        } else {
            self
        }
    }
}

/// The message returned when the settings text cannot be parsed.
pub open spec fn parse_error_msg() -> Seq<char> {
    "Failed to parse settings file"@
}

impl Settings {
    /// The compute half of loading: `None` stands for an absent settings
    /// file and yields the defaults without touching anything; present text
    /// is parsed, the version migration applied, and malformed text reported
    /// as an error.
    pub fn load_from_content(content: Option<&str>) -> (r: Result<Settings, String>)
        ensures
            match content {
                None => r matches Ok(s) && s@ == default_view(),
                Some(c) => match parse_settings_spec(c@) {
                    Some(m) => r matches Ok(s) && s@ == migrate_view(m) && wf_settings(s@),
                    None => r matches Err(e) && e@ == parse_error_msg(),
                },
            },
    {
        match content {
            None => Ok(Settings::default()),
            Some(c) => match parse_settings(c) {
                Some(st) => Ok(st.migrated()),
                None => Err(String::from_str("Failed to parse settings file")),
            },
        }
    }
}

/// The persistence law: the canonical serialization of a well-formed
/// settings value parses back to that very value, and loading applies a
/// migration that leaves it unchanged — so a successful save followed by a
/// load returns an equal value, in this process or a later one.
pub proof fn lemma_save_load_roundtrip(v: SettingsView)
    requires
        wf_settings(v),
    ensures
        parse_settings_spec(ser_settings(v)) == Some(v),
        migrate_view(v) == v,
{
    lemma_settings_roundtrip(v);
}

} // verus!
