//! Resolution of the settings file location and the database location:
//! platform directories come from the `dirs` crate behind trusted wrappers,
//! and everything built on top of them is verified.

use vstd::prelude::*;
use vstd::string::StringExecFns;
use crate::settings::Settings;

verus! {

/// Relies on dirs::config_dir: the platform's per-user configuration
/// directory, or None where the platform defines none. The value depends on
/// the environment, so nothing more is promised of it.
#[verifier::external_body]
fn os_config_dir() -> (r: Option<String>) {
    dirs::config_dir().map(|d| d.to_string_lossy().to_string())
}

/// Relies on dirs::data_local_dir: the platform's per-user local-data
/// directory, or None where the platform defines none. The value depends on
/// the environment, so nothing more is promised of it.
#[verifier::external_body]
fn os_data_local_dir() -> (r: Option<String>) {
    dirs::data_local_dir().map(|d| d.to_string_lossy().to_string())
}

/// The settings file's fixed location below the configuration directory.
pub open spec fn config_rel_path() -> Seq<char> {
    "/RefForge/settings.json"@
}

/// The database file's fixed location below the data directory.
pub open spec fn db_rel_path() -> Seq<char> {
    "/RefForge/refforge.db"@
}

/// The storage engine's connection scheme prefix.
pub open spec fn scheme_prefix() -> Seq<char> {
    "sqlite:"@
}

pub open spec fn config_dir_error_msg() -> Seq<char> {
    "Failed to get config directory"@
}

pub open spec fn data_dir_error_msg() -> Seq<char> {
    "Failed to get data directory"@
}

/// The settings file location under a given configuration directory.
pub fn config_path_in(dir: &str) -> (r: String)
    ensures
        r@ == dir@ + config_rel_path(),
{
    let mut s = String::from_str(dir);
    s.append("/RefForge/settings.json");
    s
}

/// The default database location under a given data directory.
pub fn default_db_path_in(dir: &str) -> (r: String)
    ensures
        r@ == dir@ + db_rel_path(),
{
    let mut s = String::from_str(dir);
    s.append("/RefForge/refforge.db");
    s
}

/// The resolved connection string: an explicit database path is taken
/// verbatim behind the scheme prefix; without one, the platform default
/// location below the given data directory is used.
pub fn db_connection_string(db_path: &Option<String>, default_dir: &str) -> (r: String)
    ensures
        match db_path {
            Some(p) => r@ == scheme_prefix() + p@,
            None => r@ == scheme_prefix() + default_dir@ + db_rel_path(),
        },
{
    match db_path {
        Some(p) => {
            let mut s = String::from_str("sqlite:");
            s.append(p.as_str());
            s
        },
        None => {
            let mut s = String::from_str("sqlite:");
            s.append(default_dir);
            s.append("/RefForge/refforge.db");
            proof {
                assert(s@ =~= scheme_prefix() + default_dir@ + db_rel_path());
            }
            s
        },
    }
}

impl Settings {
    /// The settings file location: the platform configuration directory plus
    /// the fixed relative path. Fails exactly when the platform gives no
    /// configuration directory.
    pub fn get_config_path() -> (r: Result<String, String>)
        ensures
            r matches Ok(p) ==> exists|d: Seq<char>| p@ == d + config_rel_path(),
            r matches Err(e) ==> e@ == config_dir_error_msg(),
    {
        match os_config_dir() {
            Some(dir) => {
                let p = config_path_in(dir.as_str());
                proof {
                    assert(p@ == dir@ + config_rel_path());
                }
                Ok(p)
            },
            None => Err(String::from_str("Failed to get config directory")),
        }
    }

    /// The default database location: the platform data directory plus the
    /// fixed relative path. Fails exactly when the platform gives no data
    /// directory.
    pub fn get_default_db_path() -> (r: Result<String, String>)
        ensures
            r matches Ok(p) ==> exists|d: Seq<char>| p@ == d + db_rel_path(),
            r matches Err(e) ==> e@ == data_dir_error_msg(),
    {
        match os_data_local_dir() {
            Some(dir) => {
                let p = default_db_path_in(dir.as_str());
                proof {
                    assert(p@ == dir@ + db_rel_path());
                }
                Ok(p)
            },
            None => Err(String::from_str("Failed to get data directory")),
        }
    }

    /// The active connection string for these settings: an explicit path
    /// verbatim behind the scheme prefix, else the platform default. The
    /// caller ensures the containing directory exists before first use.
    pub fn get_db_path(&self) -> (r: Result<String, String>)
        ensures
            match self@.db_path {
                Some(p) => r matches Ok(cs) && cs@ == scheme_prefix() + p,
                None => {
                    &&& (r matches Ok(cs) ==> exists|d: Seq<char>|
                        cs@ == scheme_prefix() + d + db_rel_path())
                    &&& (r matches Err(e) ==> e@ == data_dir_error_msg())
                },
            },
    {
        if self.db_path.is_some() {
            Ok(db_connection_string(&self.db_path, ""))
        } else {
            match os_data_local_dir() {
                Some(dir) => {
                    let cs = db_connection_string(&self.db_path, dir.as_str());
                    proof {
                        assert(cs@ == scheme_prefix() + dir@ + db_rel_path());
                    }
                    Ok(cs)
                },
                None => Err(String::from_str("Failed to get data directory")),
            }
        }
    }
}

} // verus!
