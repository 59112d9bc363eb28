//! Configuration records and the small data shapes of the service edge.
//! The embedding application parses its YAML into these plain records; the
//! engine's logic reads them.

use vstd::prelude::*;

use crate::ops::ServerRegion;

verus! {

/// Key-value cache settings for the authorization cache.
#[derive(Debug, PartialEq)]
pub struct RedisConfig {
    pub enabled: bool,
    pub host: String,
    pub port: u16,
    pub password: String,
}

impl Default for RedisConfig {
    /// Disabled, pointing at a local cache on the conventional port.
    fn default() -> (r: RedisConfig)
        ensures
            !r.enabled && r.host@ == "localhost"@ && r.port == 6379 && r.password@.len() == 0,
    {
        RedisConfig {
            enabled: false,
            host: "localhost".to_owned(),
            port: 6379,
            password: String::new(),
        }
    }
}

/// The HTTP front end's own settings.
#[derive(Debug, PartialEq)]
pub struct BackendConfig {
    pub host: String,
    pub port: u16,
    pub ssl: bool,
    pub ssl_cert: String,
    pub ssl_key: String,
    pub log_level: String,
    pub sekai_user_jwt_signing_key: String,
    pub enable_trust_proxy: bool,
    pub trusted_proxies: Vec<String>,
    pub proxy_header: String,
}

impl Default for BackendConfig {
    /// Listening on every interface at the conventional port, at the
    /// default log level.
    fn default() -> (r: BackendConfig)
        ensures
            r.host@ == "0.0.0.0"@ && r.port == 9999 && r.log_level@ == "info"@,
    {
        BackendConfig {
            host: "0.0.0.0".to_owned(),
            port: 9999,
            ssl: false,
            ssl_cert: String::new(),
            ssl_key: String::new(),
            log_level: "info".to_owned(),
            sekai_user_jwt_signing_key: String::new(),
            enable_trust_proxy: false,
            trusted_proxies: Vec::new(),
            proxy_header: String::new(),
        }
    }
}

/// Relational-store settings for the authorization records.
#[derive(Debug, PartialEq, Default)]
pub struct DatabaseConfig {
    pub enabled: bool,
    pub driver: String,
    pub dsn: String,
    pub max_connections: u32,
}

/// Credentials of the master-file push helper.
#[derive(Debug, PartialEq)]
pub struct GitConfig {
    pub enabled: bool,
    pub username: String,
    pub email: String,
    pub password: String,
}

impl Default for GitConfig {
    /// Disabled, with empty credentials.
    fn default() -> (r: GitConfig)
        ensures
            !r.enabled && r.username@.len() == 0 && r.email@.len() == 0 && r.password@.len()
                == 0,
    {
        GitConfig {
            enabled: false,
            username: String::new(),
            email: String::new(),
            password: String::new(),
        }
    }
}

/// One region's server settings.
#[derive(Debug, PartialEq, Default)]
pub struct ServerConfig {
    pub enabled: bool,
    pub master_dir: String,
    pub version_path: String,
    pub account_dir: String,
    pub api_url: String,
    pub nuverse_master_data_url: String,
    pub nuverse_structure_file_path: String,
    pub require_cookies: bool,
    pub headers: Vec<(String, String)>,
    pub aes_key_hex: String,
    pub aes_iv_hex: String,
    pub enable_master_updater: bool,
    pub master_updater_cron: String,
    pub enable_app_hash_updater: bool,
    pub app_hash_updater_cron: String,
}

/// One source of the auxiliary app version/hash pair.
#[derive(Debug, PartialEq)]
pub struct AppHashSource {
    pub source_type: String,
    pub dir: String,
    pub url: String,
}

/// One downstream service notified when the asset version advances.
#[derive(Debug, PartialEq)]
pub struct AssetUpdaterInfo {
    pub url: String,
    pub authorization: String,
}

/// The whole service configuration.
#[derive(Debug, PartialEq, Default)]
pub struct Config {
    pub proxy: String,
    pub jp_sekai_cookie_url: String,
    pub git: GitConfig,
    pub redis: RedisConfig,
    pub backend: BackendConfig,
    pub database: DatabaseConfig,
    pub apphash_sources: Vec<AppHashSource>,
    pub asset_updater_servers: Vec<AssetUpdaterInfo>,
    pub servers: Vec<(ServerRegion, ServerConfig)>,
}

/// The claims of a caller's bearer token at the service edge.
#[derive(Debug, PartialEq)]
pub struct Claims {
    pub uid: String,
    pub credential: String,
    pub exp: Option<u64>,
}

/// An authenticated caller, as the middleware hands it to the routes.
#[derive(Debug, PartialEq)]
pub struct AuthUser {
    pub id: String,
    pub credential: String,
}

/// The health endpoint's body.
#[derive(Debug, PartialEq)]
pub struct HealthResponse {
    pub status: String,
    pub version: String,
    pub uptime_secs: u64,
}

impl HealthResponse {
    /// A healthy report for the given build version and uptime.
    pub fn healthy(version: String, uptime_secs: u64) -> (r: HealthResponse)
        ensures
            r.status@ == "ok"@,
            r.version == version,
            r.uptime_secs == uptime_secs,
    {
        HealthResponse { status: "ok".to_owned(), version, uptime_secs }
    }
}

/// The app-hash synchronisation task of one region: its sources, in the
/// order they are consulted, and the manifest they rewrite.
#[derive(Debug, PartialEq)]
pub struct AppHashUpdater {
    pub region: ServerRegion,
    pub sources: Vec<AppHashSource>,
    pub version_path: String,
    pub proxy: Option<String>,
}

impl AppHashUpdater {
    /// Bind the task to its region, sources and manifest path.
    pub fn new(
        region: ServerRegion,
        sources: Vec<AppHashSource>,
        version_path: String,
        proxy: Option<String>,
    ) -> (r: AppHashUpdater)
        ensures
            r.region == region,
            r.sources == sources,
            r.version_path == version_path,
            r.proxy == proxy,
    {
        AppHashUpdater { region, sources, version_path, proxy }
    }
}

} // verus!
