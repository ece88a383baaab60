//! Application configuration values, and the connection string built
//! from them. Reading the environment is the caller's part.

use vstd::prelude::*;

verus! {

/// The configuration the application runs under.
#[derive(Debug)]
pub struct AppConfig {
    pub db_host: String,
    pub db_port: String,
    pub db_user: String,
    pub db_pwd: String,
    pub db_name: String,
    /// Signing secret for session tokens.
    pub auth_jwt_secret: String,
    /// Token time-to-live in hours.
    pub auth_jwt_ttl_hours: i64,
    /// Base64-encoded PKCS#8 private key for credential decryption.
    pub auth_rsa_private_key: String,
    /// Root directory for served files.
    pub file_storage_dir: String,
    /// Listening port.
    pub http_port: u16,
}

/// The connection string of a configuration.
pub open spec fn database_url_spec(c: AppConfig) -> Seq<char> {
    ("postgres://")@ + c.db_user@ + (":")@ + c.db_pwd@ + ("@")@ + c.db_host@ + (":")@ + c.db_port@
        + ("/")@ + c.db_name@
}

impl AppConfig {
    /// The connection string: scheme, credentials, host, port and
    /// database name in their places.
    pub fn database_url(&self) -> (r: String)
        ensures
            r@ == database_url_spec(*self),
    {
        let mut url = String::new();
        url.append("postgres://");
        url.append(self.db_user.as_str());
        url.append(":");
        url.append(self.db_pwd.as_str());
        url.append("@");
        url.append(self.db_host.as_str());
        url.append(":");
        url.append(self.db_port.as_str());
        url.append("/");
        url.append(self.db_name.as_str());
        proof {
            assert(url@ =~= database_url_spec(*self));
        }
        url
    }
}

} // verus!
