//! The application-level configuration: which rendering the result
//! list gets and how verbose the logging is, next to the client's own
//! part.  Reading the configuration document and rendering the output
//! are the surrounding binary's work; the values decided there are
//! carried in these types.

use vstd::prelude::*;

use crate::weather_client::Config;

verus! {

/// How the result list is rendered.
#[derive(Clone, Copy, PartialEq, Eq, Structural, Debug)]
pub enum OutputType {
    Table,
    Simple,
    Json,
}

/// Everything the application is configured with: the client's
/// credentials and language, the chosen rendering, and an optional
/// log-verbosity name.
pub struct AppConfig {
    pub client: Config,
    pub output: OutputType,
    pub level: Option<String>,
}

impl AppConfig {
    pub fn new(client: Config, output: OutputType, level: Option<String>) -> (r: AppConfig)
        ensures
            r.client == client,
            r.output == output,
            r.level == level,
    {
        AppConfig { client, output, level }
    }

    pub fn client(&self) -> (r: &Config)
        ensures
            *r == self.client,
    {
        &self.client
    }

    pub fn output(&self) -> (r: OutputType)
        ensures
            r == self.output,
    {
        self.output
    }

    pub fn level(&self) -> (r: &Option<String>)
        ensures
            *r == self.level,
    {
        &self.level
    }
}

} // verus!
