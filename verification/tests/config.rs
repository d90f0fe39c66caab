use lezeh::config::{
    Config, DeploymentConfig, DeploymentSchemeConfig, GhubConfig, MergeFeatureBranchesConfig,
    PhabConfig, RepositoryConfig,
};

fn config(merge: Option<MergeFeatureBranchesConfig>) -> Config {
    Config {
        phab: PhabConfig {
            host: "h".into(),
            api_token: "t".into(),
            pkcs12_path: "p".into(),
            pkcs12_password: "w".into(),
        },
        ghub: GhubConfig { api_token: "g".into() },
        bitly: None,
        deployment: DeploymentConfig { repositories: vec![], merge_feature_branches: merge },
        db_by_name: None,
    }
}

#[test]
fn the_bundled_template_is_the_default() {
    assert_eq!(
        MergeFeatureBranchesConfig::default().output_template_path,
        Some("merge_feature_branches_default.hbs".to_owned())
    );
    let mut c = config(None);
    c.fill_defaults();
    assert_eq!(
        c.deployment.merge_feature_branches.unwrap().output_template_path,
        Some("merge_feature_branches_default.hbs".to_owned())
    );
    let mut c = config(Some(MergeFeatureBranchesConfig { output_template_path: Some("mine.hbs".into()) }));
    c.fill_defaults();
    assert_eq!(
        c.deployment.merge_feature_branches.unwrap().output_template_path,
        Some("mine.hbs".to_owned())
    );
}

#[test]
fn schemes_are_found_by_their_last_key() {
    let scheme = |title: &str| DeploymentSchemeConfig {
        name: "n".into(),
        default_pull_request_title: title.into(),
        merge_from_branch: "master".into(),
        merge_into_branch: "stg".into(),
    };
    let repo = RepositoryConfig {
        key: "k".into(),
        path: "p".into(),
        github_path: "o/r".into(),
        deployment_scheme_by_key: vec![("stg".into(), scheme("first")), ("stg".into(), scheme("second"))],
    };
    assert_eq!(repo.find_scheme("stg").unwrap().default_pull_request_title, "second");
    assert!(repo.find_scheme("prod").is_none());
    let copy = repo.clone();
    assert_eq!(copy.deployment_scheme_by_key.len(), 2);
    assert_eq!(copy.github_path, "o/r");
}
