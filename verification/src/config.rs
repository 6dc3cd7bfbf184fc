use vstd::prelude::*;
use vstd::string::StringExecFns;

verus! {

/// The daemon's configuration, as the configuration file carries it.
pub struct PiConfig {
    pub db_path: String,
    pub db_opt: String,
    pub db_pool: u32,
    pub dns_port: u32,
    pub web_port: u32,
    pub cloudflared_path: String,
    pub cloudflared_port: u32,
    pub log_config: String,
    pub block_list: String,
    pub dht22_pin: Option<u32>,
}

impl PiConfig {
    /// The configuration written when no file exists yet.
    pub fn default() -> (c: PiConfig)
        ensures
            c.db_path@ == "server.db"@,
            c.db_opt@ == "PRAGMA synchronous=OFF;"@,
            c.db_pool == 1,
            c.dns_port == 53,
            c.web_port == 8080,
            c.cloudflared_path@ == "cloudflared"@,
            c.cloudflared_port == 5053,
            c.log_config@ == "log4rs.yml"@,
            c.block_list@ == "block_list.txt"@,
            c.dht22_pin is None,
    {
        PiConfig {
            db_path: String::from_str("server.db"),
            db_opt: String::from_str("PRAGMA synchronous=OFF;"),
            db_pool: 1,
            dns_port: 53,
            web_port: 8080,
            cloudflared_path: String::from_str("cloudflared"),
            cloudflared_port: 5053,
            log_config: String::from_str("log4rs.yml"),
            block_list: String::from_str("block_list.txt"),
            dht22_pin: None,
        }
    }
}

} // verus!
