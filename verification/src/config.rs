use crate::error::ConfigError;
use vstd::prelude::*;

verus! {

/// The settings of a run.
#[derive(Clone, Debug)]
pub struct Config {
    /// Address of the JSON-RPC endpoint of an Ethereum node.
    pub rpc_url: String,
}

impl Config {
    /// The settings for the value of the endpoint variable: the value is
    /// the endpoint's address, and a variable that is not set is an error.
    pub fn from_value(value: Option<String>) -> (config: Result<Config, ConfigError>)
        ensures
            config is Ok == value is Some,
            config is Ok ==> config->Ok_0.rpc_url == value->0,
            config is Err ==> config->Err_0 == ConfigError::MissingRpcUrl,
    {
        match value {
            Some(rpc_url) => Ok(Config { rpc_url }),
            None => Err(ConfigError::MissingRpcUrl),
        }
    }
}

} // verus!
