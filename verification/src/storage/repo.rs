//! Repositories: a name, a working directory, and whether the repository is
//! local or kept at a remote URL.

use vstd::prelude::*;

verus! {

/// `url::Url`, carried as it is.
#[verifier::external_type_specification]
#[verifier::external_body]
pub struct ExUrl(url::Url);

/// Where a repository is kept.
#[derive(Debug)]
pub enum RepoType {
    Local,
    Remote { url: url::Url },
}

/// A repository: its name, its working directory, and where it is kept.
#[derive(Debug)]
pub struct Repository {
    pub name: String,
    pub workdir: String,
    pub repo_type: RepoType,
}

impl Repository {
    /// A local repository.
    pub fn new_local(name: String, workdir: String) -> (r: Self)
        ensures
            r.name == name,
            r.workdir == workdir,
            r.repo_type is Local,
    {
        Repository { name, workdir, repo_type: RepoType::Local }
    }

    /// A repository kept at `url`.
    pub fn new_remote(name: String, workdir: String, url: url::Url) -> (r: Self)
        ensures
            r.name == name,
            r.workdir == workdir,
            r.repo_type == (RepoType::Remote { url }),
    {
        Repository { name, workdir, repo_type: RepoType::Remote { url } }
    }

    /// The URL of a remote repository.
    pub fn url(&self) -> (u: Option<&url::Url>)
        ensures
            match self.repo_type {
                RepoType::Local => u is None,
                RepoType::Remote { url } => u == Some(&url),
            },
    {
        match &self.repo_type {
            RepoType::Local => None,
            RepoType::Remote { url } => Some(url),
        }
    }

    /// The repository's name.
    pub fn name(&self) -> (n: &str)
        ensures
            n@ == self.name@,
    {
        self.name.as_str()
    }

    /// The repository's working directory.
    pub fn workdir(&self) -> (w: &str)
        ensures
            w@ == self.workdir@,
    {
        self.workdir.as_str()
    }
}

} // verus!
