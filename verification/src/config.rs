//! The settings that `~/.lezeh` holds: phabricator and github access, the
//! repositories to merge and deploy, bitly access and database connections.
//! Maps of the file are held as lists of `(key, value)` entries in the order
//! the file gives them.

use vstd::prelude::*;

use crate::text::str_eq;

verus! {

/// Phabricator access.
#[derive(Debug, Clone)]
pub struct PhabConfig {
    pub host: String,
    pub api_token: String,
    pub pkcs12_path: String,
    pub pkcs12_password: String,
}

/// Github access.
#[derive(Debug, Clone)]
pub struct GhubConfig {
    pub api_token: String,
}

/// Bitly access.
#[derive(Debug)]
pub struct BitlyConfig {
    pub api_token: String,
}

impl Clone for BitlyConfig {
    fn clone(&self) -> (r: Self)
        ensures
            r.api_token@ == self.api_token@,
    {
        BitlyConfig { api_token: self.api_token.clone() }
    }
}

/// A database to connect to.
#[derive(Debug, Clone)]
pub struct DbConfig {
    pub host: String,
    pub port: u32,
    pub database: String,
    pub username: String,
    pub password: Option<String>,
}

/// How a repository is deployed: which branch is merged into which, under
/// which pull request title.
#[derive(Debug)]
pub struct DeploymentSchemeConfig {
    pub name: String,
    pub default_pull_request_title: String,
    pub merge_from_branch: String,
    pub merge_into_branch: String,
}

/// The view of a deployment scheme: name, pull request title, source branch,
/// target branch.
pub type SchemeModel = (Seq<char>, Seq<char>, Seq<char>, Seq<char>);

impl View for DeploymentSchemeConfig {
    type V = SchemeModel;

    open spec fn view(&self) -> SchemeModel {
        (
            self.name@,
            self.default_pull_request_title@,
            self.merge_from_branch@,
            self.merge_into_branch@,
        )
    }
}

impl Clone for DeploymentSchemeConfig {
    fn clone(&self) -> (r: Self)
        ensures
            r@ == self@,
    {
        DeploymentSchemeConfig {
            name: self.name.clone(),
            default_pull_request_title: self.default_pull_request_title.clone(),
            merge_from_branch: self.merge_from_branch.clone(),
            merge_into_branch: self.merge_into_branch.clone(),
        }
    }
}

/// A repository whose feature branches are merged and which is deployed.
#[derive(Debug)]
pub struct RepositoryConfig {
    pub key: String,
    pub path: String,
    /// The repository on github, for example `sendyhalim/foo`.
    pub github_path: String,
    pub deployment_scheme_by_key: Vec<(String, DeploymentSchemeConfig)>,
}

/// The views of `(key, scheme)` entries.
pub open spec fn scheme_entries(entries: Seq<(String, DeploymentSchemeConfig)>) -> Seq<
    (Seq<char>, SchemeModel),
> {
    entries.map_values(|e: (String, DeploymentSchemeConfig)| (e.0@, e.1@))
}

/// The view of a repository: key, local path, github path, schemes.
pub type RepositoryModel = (Seq<char>, Seq<char>, Seq<char>, Seq<(Seq<char>, SchemeModel)>);

impl View for RepositoryConfig {
    type V = RepositoryModel;

    open spec fn view(&self) -> RepositoryModel {
        (self.key@, self.path@, self.github_path@, scheme_entries(self.deployment_scheme_by_key@))
    }
}

impl Clone for RepositoryConfig {
    fn clone(&self) -> (r: Self)
        ensures
            r@ == self@,
    {
        let mut schemes: Vec<(String, DeploymentSchemeConfig)> = Vec::new();
        let mut i: usize = 0;
        while i < self.deployment_scheme_by_key.len()
            invariant
                i <= self.deployment_scheme_by_key@.len(),
                scheme_entries(schemes@) == scheme_entries(self.deployment_scheme_by_key@).take(
                    i as int,
                ),
            decreases self.deployment_scheme_by_key@.len() - i,
        {
            let entry = &self.deployment_scheme_by_key[i];
            let ghost before = scheme_entries(schemes@);
            schemes.push((entry.0.clone(), entry.1.clone()));
            assert(scheme_entries(schemes@) =~= before.push(
                (entry.0@, entry.1@),
            ));
            assert(scheme_entries(self.deployment_scheme_by_key@).take(i + 1) =~= scheme_entries(
                self.deployment_scheme_by_key@,
            ).take(i as int).push((entry.0@, entry.1@)));
            i = i + 1;
        }
        assert(scheme_entries(self.deployment_scheme_by_key@).take(i as int) =~= scheme_entries(
            self.deployment_scheme_by_key@,
        ));
        RepositoryConfig {
            key: self.key.clone(),
            path: self.path.clone(),
            github_path: self.github_path.clone(),
            deployment_scheme_by_key: schemes,
        }
    }
}

/// The index of the last entry of `keys` equal to `key`, if any: the entry
/// that a map built from the entries in order keeps for `key`.
pub open spec fn last_index_of(keys: Seq<Seq<char>>, key: Seq<char>) -> Option<int>
    decreases keys.len(),
{
    if keys.len() == 0 {
        None
    } else if keys.last() == key {
        Some(keys.len() - 1)
    } else {
        last_index_of(keys.drop_last(), key)
    }
}

/// Facts about `last_index_of`.
pub proof fn lemma_last_index_of(keys: Seq<Seq<char>>, key: Seq<char>)
    ensures
        last_index_of(keys, key) matches Some(i) ==> 0 <= i < keys.len() && keys[i] == key && (
        forall|j: int| i < j < keys.len() ==> keys[j] != key),
        last_index_of(keys, key) is None ==> forall|j: int| 0 <= j < keys.len() ==> keys[j] != key,
    decreases keys.len(),
{
    if keys.len() > 0 && keys.last() != key {
        let rest = keys.drop_last();
        lemma_last_index_of(rest, key);
        assert forall|j: int| 0 <= j < rest.len() implies keys[j] == rest[j] by {}
        if let Some(i) = last_index_of(keys, key) {
            assert forall|j: int| i < j < keys.len() implies keys[j] != key by {
                if j < rest.len() {
                    assert(keys[j] == rest[j]);
                }
            }
        } else {
            assert forall|j: int| 0 <= j < keys.len() implies keys[j] != key by {
                if j < rest.len() {
                    assert(keys[j] == rest[j]);
                }
            }
        }
    }
}

impl RepositoryConfig {
    /// The keys of the deployment schemes, in order.
    pub open spec fn scheme_keys(&self) -> Seq<Seq<char>> {
        self.deployment_scheme_by_key@.map_values(|e: (String, DeploymentSchemeConfig)| e.0@)
    }

    /// The scheme of `scheme_key` (the last entry with that key), or `None`
    /// when no scheme has that key.
    pub fn find_scheme(&self, scheme_key: &str) -> (r: Option<&DeploymentSchemeConfig>)
        ensures
            r is None <==> last_index_of(self.scheme_keys(), scheme_key@) is None,
            r matches Some(s) ==> *s == self.deployment_scheme_by_key@[last_index_of(
                self.scheme_keys(),
                scheme_key@,
            )->0].1,
    {
        let ghost keys = self.scheme_keys();
        let mut i: usize = self.deployment_scheme_by_key.len();
        assert(keys.take(i as int) =~= keys);
        while i > 0
            invariant
                i <= self.deployment_scheme_by_key@.len(),
                keys == self.scheme_keys(),
                last_index_of(keys, scheme_key@) == last_index_of(keys.take(i as int), scheme_key@),
            decreases i,
        {
            assert(keys.take(i as int).drop_last() =~= keys.take(i - 1));
            assert(keys.take(i as int).last() == self.deployment_scheme_by_key@[i - 1].0@);
            if str_eq(self.deployment_scheme_by_key[i - 1].0.as_str(), scheme_key) {
                return Some(&self.deployment_scheme_by_key[i - 1].1);
            }
            i = i - 1;
        }
        None
    }
}

/// Where the summary of a feature branch merge is rendered from.
#[derive(Debug)]
pub struct MergeFeatureBranchesConfig {
    pub output_template_path: Option<String>,
}

impl Clone for MergeFeatureBranchesConfig {
    fn clone(&self) -> (r: Self)
        ensures
            r.output_template_path == self.output_template_path,
    {
        match &self.output_template_path {
            Some(p) => MergeFeatureBranchesConfig { output_template_path: Some(p.clone()) },
            None => MergeFeatureBranchesConfig { output_template_path: None },
        }
    }
}

impl Default for MergeFeatureBranchesConfig {
    /// The template bundled with the tool.
    fn default() -> (c: Self)
        ensures
            c.output_template_path matches Some(p) && p@ == "merge_feature_branches_default.hbs"@,
    {
        MergeFeatureBranchesConfig {
            output_template_path: Some("merge_feature_branches_default.hbs".to_owned()),
        }
    }
}

/// The repositories to merge feature branches of and to deploy.
#[derive(Debug)]
pub struct DeploymentConfig {
    pub repositories: Vec<RepositoryConfig>,
    pub merge_feature_branches: Option<MergeFeatureBranchesConfig>,
}

/// Everything `~/.lezeh` holds.
#[derive(Debug)]
pub struct Config {
    pub phab: PhabConfig,
    pub ghub: GhubConfig,
    pub bitly: Option<BitlyConfig>,
    pub deployment: DeploymentConfig,
    pub db_by_name: Option<Vec<(String, DbConfig)>>,
}

impl Config {
    /// Fills what the file may leave out: without a `merge_feature_branches`
    /// setting the bundled template is used. Nothing else changes.
    pub fn fill_defaults(&mut self)
        ensures
            old(self).deployment.merge_feature_branches is Some ==> final(self).deployment.merge_feature_branches
                == old(self).deployment.merge_feature_branches,
            old(self).deployment.merge_feature_branches is None ==> (final(self).deployment.merge_feature_branches
                matches Some(m) && m.output_template_path matches Some(p)
                && p@ == "merge_feature_branches_default.hbs"@),
            final(self).phab == old(self).phab,
            final(self).ghub == old(self).ghub,
            final(self).bitly == old(self).bitly,
            final(self).deployment.repositories == old(self).deployment.repositories,
            final(self).db_by_name == old(self).db_by_name,
    {
        if self.deployment.merge_feature_branches.is_none() {
            self.deployment.merge_feature_branches = Some(MergeFeatureBranchesConfig::default());
        }
    }
}

} // verus!
