//! The `remote` command's subcommands, and checking remote URLs.

use vstd::prelude::*;

verus! {

/// A `remote` subcommand.
#[derive(Debug, PartialEq, Eq)]
pub enum RemoteCommands {
    /// Add a new remote repository
    Add { name: String, url: String, path: Option<String> },
    /// Remove a remote repository
    Remove { name: String },
    /// Rename a remote repository
    Rename { old_name: String, new_name: String },
    /// Show info about a remote repository
    Show { name: String },
    /// List all remote repositories
    List,
}

impl RemoteCommands {
    /// Whether the subcommand changes the configuration, which is then written back.
    pub fn writes_config(&self) -> (b: bool)
        ensures
            b == (self is Add || self is Remove || self is Rename),
    {
        match self {
            RemoteCommands::Add { .. } => true,
            RemoteCommands::Remove { .. } => true,
            RemoteCommands::Rename { .. } => true,
            RemoteCommands::Show { .. } => false,
            RemoteCommands::List => false,
        }
    }
}

/// Whether `url::Url::parse` accepts `s`.
pub uninterp spec fn url_parses(s: Seq<char>) -> bool;

/// `url::Url::parse`: whether it accepts `s`. What it accepts is named
/// (`url_parses`), not stated.
#[verifier::external_body]
fn url_parse_ok(s: &str) -> (r: bool)
    ensures
        r == url_parses(s@),
{
    url::Url::parse(s).is_ok()
}

/// Whether `url` is a URL.
pub fn is_valid_url(url: &str) -> (r: bool)
    ensures
        r == url_parses(url@),
{
    url_parse_ok(url)
}

} // verus!
