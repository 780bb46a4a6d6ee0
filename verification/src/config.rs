//! Plain configuration records for the surrounding ingestion pipeline.
//! The storage layer owns their (de)serialization; here they are bare
//! data.
use vstd::prelude::*;

verus! {

/// A conversation state blob handed in by a client.
#[derive(Debug)]
pub struct SaveStateParams {
    /// The encoded state.
    pub state: String,
}

/// How the crawl archives are fetched.
#[derive(Debug)]
pub enum WarcSource {
    S3(S3Config),
    HTTP(HttpConfig),
}

/// What the process is asked to do.
#[derive(Debug)]
pub enum Mode {
    Indexer,
}

/// An S3 bucket holding crawl archives.
#[derive(Debug)]
pub struct S3Config {
    pub name: String,
    pub endpoint: String,
    pub bucket: String,
}

/// An HTTP endpoint serving crawl archives.
#[derive(Debug)]
pub struct HttpConfig {
    pub base_url: String,
}

/// The indexer's configuration.
#[derive(Debug)]
pub struct Config {
    pub mode: Mode,
    pub warc_source: Option<WarcSource>,
    pub warc_paths_file: String,
}

} // verus!
