use vstd::prelude::*;
use vstd::string::*;
use crate::text::{lower_of, lowercase};

verus! {

/// The directory that holds this tool's files, worked out from the two
/// environment values the process reads once at startup: a non-empty
/// XDG_CONFIG_HOME wins; otherwise a non-empty HOME gets `.config` appended;
/// otherwise there is no such place.
pub open spec fn spec_config_dir(xdg: Option<Seq<char>>, home: Option<Seq<char>>) -> Option<
    Seq<char>,
> {
    match xdg {
        Some(x) => if x.len() > 0 {
            Some(x + "/vault-hunter"@)
        } else {
            spec_home_config_dir(home)
        },
        None => spec_home_config_dir(home),
    }
}

/// The fallback under HOME.
pub open spec fn spec_home_config_dir(home: Option<Seq<char>>) -> Option<Seq<char>> {
    match home {
        Some(h) => if h.len() > 0 {
            Some(h + "/.config/vault-hunter"@)
        } else {
            None
        },
        None => None,
    }
}

/// Where the configuration directory lies, given the environment values.
#[allow(non_snake_case)]
pub fn findConfigDir(xdg: Option<String>, home: Option<String>) -> (r: Option<String>)
    ensures
        r.deep_view() == spec_config_dir(xdg.deep_view(), home.deep_view()),
{
    if let Some(x) = xdg {
        if !x.as_str().is_empty() {
            let mut d = x;
            d.append("/vault-hunter");
            return Some(d);
        }
    }
    if let Some(h) = home {
        if !h.as_str().is_empty() {
            let mut d = h;
            d.append("/.config/vault-hunter");
            return Some(d);
        }
    }
    None
}

/// Where the configuration file is expected: the configuration directory
/// plus the fixed file name.
pub open spec fn spec_config_file(xdg: Option<Seq<char>>, home: Option<Seq<char>>) -> Option<
    Seq<char>,
> {
    match spec_config_dir(xdg, home) {
        Some(d) => Some(d + "/config.toml"@),
        None => None,
    }
}

/// Where the configuration file is expected, given the environment values.
/// Whether a file actually sits there is for the process to check.
#[allow(non_snake_case)]
pub fn findConfigFile(xdg: Option<String>, home: Option<String>) -> (r: Option<String>)
    ensures
        r.deep_view() == spec_config_file(xdg.deep_view(), home.deep_view()),
{
    match findConfigDir(xdg, home) {
        Some(mut d) => {
            d.append("/config.toml");
            Some(d)
        },
        None => None,
    }
}

/// Where the runtime info (token cache) file belongs by default: the
/// configuration directory plus the fixed file name, whether or not a file
/// sits there yet.
pub open spec fn spec_runtime_info_file(xdg: Option<Seq<char>>, home: Option<Seq<char>>) -> Option<
    Seq<char>,
> {
    match spec_config_dir(xdg, home) {
        Some(d) => Some(d + "/runtime.json"@),
        None => None,
    }
}

/// The default place of the runtime info file, given the environment values.
#[allow(non_snake_case)]
pub fn findRuntimeInfoFile(xdg: Option<String>, home: Option<String>) -> (r: Option<String>)
    ensures
        r.deep_view() == spec_runtime_info_file(xdg.deep_view(), home.deep_view()),
{
    match findConfigDir(xdg, home) {
        Some(mut d) => {
            d.append("/runtime.json");
            Some(d)
        },
        None => None,
    }
}

/// How often the local encrypted export runs unless configured otherwise:
/// once a day, in seconds.
#[allow(non_snake_case)]
pub fn defaultXMLExportPeriod() -> (r: i64)
    ensures
        r == 86400,
{
    86400
}

/// The tool's settings. Every use of the username in a request goes through
/// `username()`, which lower-cases it, because the store's authentication
/// case-folds usernames while the object paths built from the username are
/// case-sensitive.
pub struct Config {
    /// CA certificate files to trust for HTTPS.
    pub ca_certs: Vec<String>,
    /// Base URL of the store's HTTP API.
    pub end_point: String,
    /// The username as written down; it enters requests only through
    /// `username()`, lower-cased.
    pub username: String,
    /// A program that copies its standard input to the clipboard.
    pub clipboard_prog: Option<String>,
    /// Where the token cache file sits, when configured explicitly.
    pub cache_path: Option<String>,
    /// Whether and where to keep a local encrypted export of all entries.
    pub local_xml: Option<String>,
    /// Whose public key encrypts the export.
    pub gpg_user: Option<String>,
    /// Seconds between exports.
    pub xml_export_period: i64,
}

impl Config {
    /// The configured username as it was written down.
    pub open spec fn spec_username(&self) -> Seq<char> {
        self.username@
    }

    /// Assemble a configuration from its settings.
    pub fn assemble(
        ca_certs: Vec<String>,
        end_point: String,
        username: String,
        clipboard_prog: Option<String>,
        cache_path: Option<String>,
        local_xml: Option<String>,
        gpg_user: Option<String>,
        xml_export_period: i64,
    ) -> (r: Config)
        ensures
            r.ca_certs == ca_certs,
            r.end_point == end_point,
            r.spec_username() == username@,
            r.clipboard_prog == clipboard_prog,
            r.cache_path == cache_path,
            r.local_xml == local_xml,
            r.gpg_user == gpg_user,
            r.xml_export_period == xml_export_period,
    {
        Config {
            ca_certs,
            end_point,
            username,
            clipboard_prog,
            cache_path,
            local_xml,
            gpg_user,
            xml_export_period,
        }
    }

    /// The username in lower case, the one form in which it may enter a URL
    /// or a login payload.
    pub fn username(&self) -> (r: String)
        ensures
            r@ == lower_of(self.spec_username()),
    {
        lowercase(self.username.as_str())
    }

    /// Which clipboard program to use: the configured one, else the platform
    /// default for the given operating-system name, else none.
    pub open spec fn spec_clipboard_prog(&self, os: Seq<char>) -> Option<Seq<char>> {
        match self.clipboard_prog {
            Some(p) => Some(p@),
            None => if os == "linux"@ {
                Some("xclip"@)
            } else if os == "macos"@ {
                Some("pbcopy"@)
            } else {
                None
            },
        }
    }

    /// The clipboard program for the given operating-system name.
    #[allow(non_snake_case)]
    pub fn clipboardProg(&self, os: &str) -> (r: Option<String>)
        ensures
            r.deep_view() == self.spec_clipboard_prog(os@),
    {
        if let Some(p) = &self.clipboard_prog {
            return Some(p.clone());
        }
        let o = String::from_str(os);
        if o == String::from_str("linux") {
            Some(String::from_str("xclip"))
        } else if o == String::from_str("macos") {
            Some(String::from_str("pbcopy"))
        } else {
            None
        }
    }

    /// Where the runtime info file sits: the configured place if one is
    /// given, else the default place.
    pub open spec fn spec_runtime_info_path(
        &self,
        xdg: Option<Seq<char>>,
        home: Option<Seq<char>>,
    ) -> Option<Seq<char>> {
        match self.cache_path {
            Some(p) => Some(p@),
            None => spec_runtime_info_file(xdg, home),
        }
    }

    /// The place of the runtime info file, given the environment values.
    #[allow(non_snake_case)]
    pub fn runtimeInfoPath(&self, xdg: Option<String>, home: Option<String>) -> (r: Option<String>)
        ensures
            r.deep_view() == self.spec_runtime_info_path(xdg.deep_view(), home.deep_view()),
    {
        if let Some(p) = &self.cache_path {
            return Some(p.clone());
        }
        findRuntimeInfoFile(xdg, home)
    }
}

impl Default for Config {
    /// The settings used when no configuration file exists.
    fn default() -> (r: Config)
        ensures
            r.ca_certs@.len() == 0,
            r.end_point@ == "https://localhost/"@,
            r.spec_username() == "metrowind"@,
            r.clipboard_prog is None,
            r.cache_path is None,
            r.local_xml is None,
            r.gpg_user is None,
            r.xml_export_period == 86400,
    {
        Config {
            ca_certs: Vec::new(),
            end_point: String::from_str("https://localhost/"),
            username: String::from_str("metrowind"),
            clipboard_prog: None,
            cache_path: None,
            local_xml: None,
            gpg_user: None,
            xml_export_period: 86400,
        }
    }
}

} // verus!
