use vstd::prelude::*;
use vstd::string::*;
use crate::config::Config;
use crate::path::{Path, render_comps};
use crate::text::lower_of;

verus! {

/// How long a freshly issued token is asked to live, in seconds.
pub const TOKEN_MAX_TTL_SECONDS: u64 = 86400;

/// URL of the health endpoint.
pub fn health_url(conf: &Config) -> (r: String)
    ensures
        r@ == conf.end_point@ + "v1/sys/health"@,
{
    let mut u = conf.end_point.clone();
    u.append("v1/sys/health");
    u
}

/// URL of the mount-listing endpoint.
pub fn mounts_url(conf: &Config) -> (r: String)
    ensures
        r@ == conf.end_point@ + "v1/sys/mounts"@,
{
    let mut u = conf.end_point.clone();
    u.append("v1/sys/mounts");
    u
}

/// URL of the token revocation endpoint.
pub fn revoke_url(conf: &Config) -> (r: String)
    ensures
        r@ == conf.end_point@ + "v1/auth/token/revoke-self"@,
{
    let mut u = conf.end_point.clone();
    u.append("v1/auth/token/revoke-self");
    u
}

/// URL of the token self-lookup endpoint.
pub fn lookup_url(conf: &Config) -> (r: String)
    ensures
        r@ == conf.end_point@ + "/v1/auth/token/lookup-self"@,
{
    let mut u = conf.end_point.clone();
    u.append("/v1/auth/token/lookup-self");
    u
}

/// URL of the login endpoint. The username enters in lower case only.
pub fn login_url(conf: &Config) -> (r: String)
    ensures
        r@ == conf.end_point@ + "v1/auth/userpass/login/"@ + lower_of(conf.spec_username()),
{
    let mut u = conf.end_point.clone();
    u.append("v1/auth/userpass/login/");
    let name = conf.username();
    u.append(name.as_str());
    u
}

/// URL that lists the immediate children of `path`. The username enters in
/// lower case only.
pub fn list_url(conf: &Config, path: &Path) -> (r: String)
    ensures
        r@ == conf.end_point@ + "/v1/passwords/metadata/"@ + lower_of(conf.spec_username())
            + "/"@ + render_comps(path@),
{
    let mut u = conf.end_point.clone();
    u.append("/v1/passwords/metadata/");
    let name = conf.username();
    u.append(name.as_str());
    u.append("/");
    let rendered = path.render();
    u.append(rendered.as_str());
    u
}

/// URL that fetches the record at leaf `path`. The username enters in lower
/// case only.
pub fn get_url(conf: &Config, path: &Path) -> (r: String)
    ensures
        r@ == conf.end_point@ + "/v1/passwords/data/"@ + lower_of(conf.spec_username()) + "/"@
            + render_comps(path@),
{
    let mut u = conf.end_point.clone();
    u.append("/v1/passwords/data/");
    let name = conf.username();
    u.append(name.as_str());
    u.append("/");
    let rendered = path.render();
    u.append(rendered.as_str());
    u
}

} // verus!
