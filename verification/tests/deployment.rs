use lezeh::config::{DeploymentSchemeConfig, RepositoryConfig};
use lezeh::deployment::{
    assignee_phids, branch_name, distinct_tasks, branch_owner, deploy_input, find_repository, found_tasks,
    grep_command, merge_all_tasks_output, merge_result_summary_by_task_id, next_merge_step,
    pull_request_title, pull_request_url, task_merge_input, tasks_in_master_branch_by_task_id,
    ClientOperationError, FailedMergeOutput, GitError, MatchedTaskBranchMapping, MergeAllTasksOutput, MergeFailure, MergeMethod, MergeRemoteBranchAction,
    MergeRemoteBranchEvent, MergeRemoteBranchInput, MergeRemoteBranchState, PullRequestState,
    SuccesfulMergeOutput, SuccesfulMergeTaskOutput, Task, TaskUtil, User,
};

fn repo(key: &str) -> RepositoryConfig {
    RepositoryConfig {
        key: key.to_owned(),
        path: "/code/foo".to_owned(),
        github_path: "sendyhalim/foo".to_owned(),
        deployment_scheme_by_key: vec![(
            "stg".to_owned(),
            DeploymentSchemeConfig {
                name: "Deploy to stg".to_owned(),
                default_pull_request_title: "Merge into stg".to_owned(),
                merge_from_branch: "master".to_owned(),
                merge_into_branch: "stg".to_owned(),
            },
        )],
    }
}

fn task(id: &str, name: &str, phid: &str) -> Task {
    Task { id: id.to_owned(), name: name.to_owned(), assigned_phid: Some(phid.to_owned()) }
}

fn empty_output(mappings: Vec<MatchedTaskBranchMapping>) -> MergeAllTasksOutput {
    MergeAllTasksOutput {
        repo_path: String::from("/foo"),
        tasks_in_master_branch_by_task_id: Default::default(),
        matched_task_branch_mappings: mappings,
        successful_merge_task_output_by_task_id: vec![],
        failed_merge_task_output_by_task_id: vec![],
    }
}

#[test]
fn client_it_should_return_not_found_tasks() {
    let task_1 = task("1234", "first", "haha");
    let task_2 = task("3333", "second", "wut");
    let tasks = vec![task_1.clone(), task_2.clone()];

    let user_1 = User { phid: task_1.assigned_phid.clone().unwrap() };
    let user_2 = User { phid: "wut".into() };
    let task_assignees = vec![user_1, user_2];

    let successful_merge_task_output_by_task_id = vec![(
        "3333".to_owned(),
        SuccesfulMergeTaskOutput {
            repo_config: RepositoryConfig {
                key: "".to_owned(),
                path: "".to_owned(),
                github_path: "".to_owned(),
                deployment_scheme_by_key: vec![],
            },
            task_id: "3333".to_owned(),
            remote_branch: "origin/bar_T3333_foo".into(),
            pull_request_url: "https://example.com".into(),
        },
    )];

    let mut output = empty_output(vec![MatchedTaskBranchMapping(
        "3333".into(),
        "origin/bar_T3333_foo".into(),
    )]);
    output.successful_merge_task_output_by_task_id = successful_merge_task_output_by_task_id;
    let merge_results: Vec<MergeAllTasksOutput> = vec![output];

    let not_found_user_task_mappings =
        TaskUtil::find_not_found_tasks(&merge_results, &tasks, &task_assignees);

    assert_eq!(1, not_found_user_task_mappings.len());
    assert_eq!(not_found_user_task_mappings[0].1.id, "1234");
    assert_eq!(not_found_user_task_mappings[0].0.phid, "haha");
}

#[test]
fn client_it_should_create_matching_branch() {
    let matched_task_branch_mappings = TaskUtil::create_matching_task_and_branch(
        &vec!["1234", "444"],
        &vec!["hmm_123", "hey1234", "445"],
    );

    let expected_mappings = vec![MatchedTaskBranchMapping("1234".into(), "hey1234".into())];

    assert_eq!(1, matched_task_branch_mappings.len());

    for i in 0..expected_mappings.len() {
        let expected_mapping = expected_mappings.get(i).unwrap();
        let result_mapping = matched_task_branch_mappings.get(i).unwrap();

        assert_eq!(expected_mapping.0, result_mapping.0);
        assert_eq!(expected_mapping.1, result_mapping.1);
    }
}

#[test]
fn matching_trims_branches_and_keeps_their_order() {
    let mappings = TaskUtil::create_matching_task_and_branch(
        &vec!["12", "34"],
        &vec!["  origin/T34_fix", "  origin/T12_and_T34", ""],
    );
    let pairs: Vec<(String, String)> = mappings.into_iter().map(|m| (m.0, m.1)).collect();
    assert_eq!(
        pairs,
        vec![
            ("34".to_owned(), "origin/T34_fix".to_owned()),
            ("12".to_owned(), "origin/T12_and_T34".to_owned()),
            ("34".to_owned(), "origin/T12_and_T34".to_owned()),
        ]
    );
}

#[test]
fn tasks_with_a_t_prefix_are_found_through_their_clean_id() {
    let tasks = vec![task("77", "x", "p")];
    let output = empty_output(vec![MatchedTaskBranchMapping("T77".into(), "origin/T77".into())]);
    let not_found = TaskUtil::find_not_found_tasks(&vec![output], &tasks, &vec![]);
    assert!(not_found.is_empty());
}

#[test]
fn a_task_with_commits_in_master_is_found() {
    let tasks = vec![task("5", "x", "p"), task("6", "y", "q")];
    let mut output = empty_output(vec![]);
    output.tasks_in_master_branch_by_task_id = vec![("5".to_owned(), vec![])];
    let users = vec![User { phid: "q".into() }];
    let not_found = TaskUtil::find_not_found_tasks(&vec![output], &tasks, &users);
    assert_eq!(not_found.len(), 1);
    assert_eq!(not_found[0].1.id, "6");
}

#[test]
fn grep_command_joins_ids_with_escaped_bars() {
    assert_eq!(grep_command(&vec!["T1", "T2", "T3"]), "grep T1\\|T2\\|T3");
    assert_eq!(grep_command(&vec!["T1"]), "grep T1");
    assert_eq!(grep_command(&vec![]), "grep ");
}

#[test]
fn commits_in_master_are_grouped_by_task() {
    let repo_config = repo("foo");
    let grep_output = "abc123 T1 fix\r\nabc124 Merge pull request #3 T1\nabc125 T2 and T1\n";
    let by_id = tasks_in_master_branch_by_task_id(&repo_config, &vec!["T1", "T2", "T9"], grep_output);
    assert_eq!(by_id.len(), 2);
    let t1 = &by_id.iter().find(|(k, _)| k == "T1").unwrap().1;
    let messages: Vec<&str> = t1.iter().map(|c| c.commit_message.as_str()).collect();
    assert_eq!(messages, vec!["abc123 T1 fix", "abc125 T2 and T1"]);
    assert!(t1.iter().all(|c| c.task_id == "T1" && c.repo_config.key == "foo"));
    let t2 = &by_id.iter().find(|(k, _)| k == "T2").unwrap().1;
    assert_eq!(t2.len(), 1);
    assert!(by_id.iter().all(|(k, _)| k != "T9"));
}

#[test]
fn pull_request_title_uses_the_branch_after_the_remote() {
    assert_eq!(pull_request_title("origin/T12_fix", "12", "Fix it"), "[T12_fix] Fix it");
    assert_eq!(pull_request_title("T12_fix", "12", "Fix it"), "[12] Fix it");
}

#[test]
fn branch_name_and_owner_and_urls() {
    assert_eq!(branch_name("origin/feature/T1"), "T1");
    assert_eq!(branch_name("T1"), "T1");
    assert_eq!(branch_owner("sendyhalim/foo"), "sendyhalim");
    assert_eq!(pull_request_url("sendyhalim/foo", "42"), "https://github.com/sendyhalim/foo/pull/42");
}

fn input() -> MergeRemoteBranchInput {
    MergeRemoteBranchInput {
        merge_method: MergeMethod::Squash,
        repo_path: "sendyhalim/foo".to_owned(),
        pull_request_title: "[T1] x".to_owned(),
        source_branch_name: "T1".to_owned(),
        into_branch_name: "master".to_owned(),
    }
}

#[test]
fn merging_creates_a_missing_pull_request_then_merges_it() {
    let input = input();
    let (state, action) = next_merge_step(
        &input,
        MergeRemoteBranchState::Fetching,
        MergeRemoteBranchEvent::PullRequestFetched(None),
    );
    assert!(matches!(state, MergeRemoteBranchState::Creating));
    assert!(matches!(action, MergeRemoteBranchAction::CreatePullRequest));

    let (state, action) = next_merge_step(&input, state, MergeRemoteBranchEvent::PullRequestCreated);
    assert!(matches!(state, MergeRemoteBranchState::Refetching));
    assert!(matches!(action, MergeRemoteBranchAction::WaitThenRefetch));

    let (state, action) = next_merge_step(
        &input,
        state,
        MergeRemoteBranchEvent::PullRequestFetched(Some(PullRequestState {
            mergeable: None,
            number: "7".to_owned(),
        })),
    );
    match (&state, &action) {
        (
            MergeRemoteBranchState::Merging { pull_request_url },
            MergeRemoteBranchAction::MergePullRequest { pull_number, merge_method },
        ) => {
            assert_eq!(pull_request_url, "https://github.com/sendyhalim/foo/pull/7");
            assert_eq!(pull_number, "7");
            assert_eq!(*merge_method, MergeMethod::Squash);
        }
        _ => panic!("expected a merge"),
    }

    let (state, action) =
        next_merge_step(&input, state, MergeRemoteBranchEvent::MergeResponded(Ok(Some(true))));
    assert!(matches!(state, MergeRemoteBranchState::Finished));
    match action {
        MergeRemoteBranchAction::Finish(Ok(SuccesfulMergeOutput { remote_branch, pull_request_url })) => {
            assert_eq!(remote_branch, "T1");
            assert_eq!(pull_request_url, "https://github.com/sendyhalim/foo/pull/7");
        }
        _ => panic!("expected a success"),
    }
}

#[test]
fn a_pull_request_that_is_not_mergeable_fails_the_merge() {
    let (_, action) = next_merge_step(
        &input(),
        MergeRemoteBranchState::Fetching,
        MergeRemoteBranchEvent::PullRequestFetched(Some(PullRequestState {
            mergeable: Some(false),
            number: "9".to_owned(),
        })),
    );
    match action {
        MergeRemoteBranchAction::Finish(Err(MergeFailure::Git(e))) => {
            assert_eq!(
                e.to_string(),
                "Merge failed err: mergeable field is falsy (false). Please see https://github.com/sendyhalim/foo/pull/9"
            );
        }
        _ => panic!("expected a merge error"),
    }
}

#[test]
fn a_branch_behind_master_is_reported_with_its_page() {
    let (_, action) = next_merge_step(
        &input(),
        MergeRemoteBranchState::Creating,
        MergeRemoteBranchEvent::PullRequestCreateFailed(
            "No commits between master and T1".to_owned(),
        ),
    );
    match action {
        MergeRemoteBranchAction::Finish(Err(MergeFailure::Git(
            GitError::RemoteBranchIsBehindMasterError { remote_branch, debug_url },
        ))) => {
            assert_eq!(remote_branch, "T1");
            assert_eq!(debug_url, "https://github.com/sendyhalim/foo/tree/T1");
        }
        _ => panic!("expected the branch to be behind master"),
    }
    let (_, action) = next_merge_step(
        &input(),
        MergeRemoteBranchState::Creating,
        MergeRemoteBranchEvent::PullRequestCreateFailed("Validation failed".to_owned()),
    );
    assert!(matches!(action, MergeRemoteBranchAction::Finish(Err(MergeFailure::Other(m))) if m == "Validation failed"));
}

#[test]
fn merge_responses_decide_the_outcome() {
    let merging = || MergeRemoteBranchState::Merging { pull_request_url: "u".to_owned() };
    let (_, a) = next_merge_step(&input(), merging(), MergeRemoteBranchEvent::MergeResponded(Ok(None)));
    assert!(matches!(a, MergeRemoteBranchAction::Finish(Err(MergeFailure::Other(m)))
        if m == "Failed to parse merge pull request 'merged' to bool"));
    let (_, a) = next_merge_step(&input(), merging(), MergeRemoteBranchEvent::MergeResponded(Ok(Some(false))));
    assert!(matches!(a, MergeRemoteBranchAction::Finish(Err(MergeFailure::Git(GitError::MergeError { message, .. })))
        if message == "Not sure why"));
    let (_, a) = next_merge_step(&input(), merging(), MergeRemoteBranchEvent::MergeResponded(Err("409".to_owned())));
    assert!(matches!(a, MergeRemoteBranchAction::Finish(Err(MergeFailure::Git(GitError::MergeError { message, pull_request_url, .. })))
        if message == "409" && pull_request_url == "u"));
}

#[test]
fn git_error_messages() {
    let e = GitError::RemoteBranchIsBehindMasterError {
        remote_branch: "T1".to_owned(),
        debug_url: "d".to_owned(),
    };
    assert_eq!(
        e.to_string(),
        "Remote branch is behind master(no changes to master), remote branch T1"
    );
}

#[test]
fn merge_outputs_gather_outcomes_by_task_and_stop_on_other_errors() {
    let repo_config = repo("foo");
    let results = vec![
        ("1".to_owned(), Ok(SuccesfulMergeOutput { remote_branch: "a".into(), pull_request_url: "u1".into() })),
        ("2".to_owned(), Err(MergeFailure::Git(GitError::MergeError {
            message: "m".into(),
            remote_branch: "b".into(),
            pull_request_url: "u2".into(),
        }))),
        ("1".to_owned(), Ok(SuccesfulMergeOutput { remote_branch: "c".into(), pull_request_url: "u3".into() })),
    ];
    let out = merge_all_tasks_output(&repo_config, vec![], vec![], &results).unwrap();
    assert_eq!(out.repo_path, "sendyhalim/foo");
    assert_eq!(out.successful_merge_task_output_by_task_id.len(), 1);
    assert_eq!(out.successful_merge_task_output_by_task_id[0].1.remote_branch, "c");
    assert_eq!(out.failed_merge_task_output_by_task_id.len(), 1);
    let failed = &out.failed_merge_task_output_by_task_id[0].1;
    assert_eq!(failed.debug_url, "u2");
    assert_eq!(failed.message, "Merge failed err: m. Please see u2");

    let stopped = vec![
        ("1".to_owned(), Err(MergeFailure::Other("network down".into()))),
        ("2".to_owned(), Err(MergeFailure::Other("later".into()))),
    ];
    assert_eq!(
        merge_all_tasks_output(&repo_config, vec![], vec![], &stopped).err(),
        Some("network down".to_owned())
    );
}

#[test]
fn repositories_and_schemes_are_found_by_key() {
    let repos = vec![repo("a"), repo("b")];
    assert_eq!(find_repository(&repos, "b").unwrap().key, "b");
    assert_eq!(find_repository(&repos, "c").err(), Some("Invalid repo key c".to_owned()));
    let deploy = deploy_input(&repos[0], "stg").unwrap();
    assert_eq!(deploy.source_branch_name, "master");
    assert_eq!(deploy.into_branch_name, "stg");
    assert_eq!(deploy.pull_request_title, "Merge into stg");
    assert_eq!(deploy.merge_method, MergeMethod::Merge);
    assert_eq!(deploy_input(&repos[0], "prod").err(), Some("Invalid scheme key prod".to_owned()));
}

#[test]
fn task_merge_input_merges_the_branch_into_master() {
    let tasks = vec![task("12", "Fix login", "p")];
    let mapping = MatchedTaskBranchMapping("12".into(), "origin/T12_login".into());
    let input = task_merge_input(&repo("foo"), &tasks, &mapping);
    assert_eq!(input.pull_request_title, "[T12_login] Fix login");
    assert_eq!(input.source_branch_name, "T12_login");
    assert_eq!(input.into_branch_name, "master");
    assert_eq!(input.repo_path, "sendyhalim/foo");
    assert_eq!(input.merge_method, MergeMethod::Squash);
}

#[test]
fn assignees_and_found_tasks() {
    let tasks = vec![task("1", "a", "p1"), task("2", "b", "p2")];
    assert_eq!(assignee_phids(&tasks), vec!["p1".to_owned(), "p2".to_owned()]);
    let not_found = TaskUtil::find_not_found_tasks(
        &vec![empty_output(vec![MatchedTaskBranchMapping("2".into(), "x2".into())])],
        &tasks,
        &vec![User { phid: "p1".into() }],
    );
    let found = found_tasks(&tasks, &not_found);
    assert_eq!(found.len(), 1);
    assert_eq!(found[0].id, "2");
    assert_eq!(not_found.len(), 1);
    assert_eq!(not_found[0].1.id, "1");
    assert_eq!(found.len() + not_found.len(), tasks.len());
}

#[test]
fn summaries_collect_what_each_repository_did_with_a_task() {
    let repo_config = repo("foo");
    let results = vec![(
        "1".to_owned(),
        Ok(SuccesfulMergeOutput { remote_branch: "a".into(), pull_request_url: "u1".into() }),
    )];
    let in_master = tasks_in_master_branch_by_task_id(&repo_config, &vec!["1"], "h 1 done\n");
    let out = merge_all_tasks_output(&repo_config, in_master, vec![], &results).unwrap();
    let tasks = vec![task("1", "a", "p1"), task("2", "b", "p2")];
    let summaries = merge_result_summary_by_task_id(&tasks, &vec![out]);
    assert_eq!(summaries.len(), 2);
    assert_eq!(summaries[0].0, "1");
    assert_eq!(summaries[0].1.success_merge_results.len(), 1);
    assert_eq!(summaries[0].1.already_in_master_branch_related_commits.len(), 1);
    assert_eq!(summaries[0].1.failed_merge_results.len(), 0);
    assert_eq!(summaries[1].1.success_merge_results.len(), 0);
}

#[test]
fn a_later_task_of_an_id_replaces_an_earlier_one() {
    let tasks = vec![task("1", "a", "p1"), task("2", "b", "p2"), task("1", "c", "p3")];
    let kept = distinct_tasks(&tasks);
    assert_eq!(kept.len(), 2);
    assert_eq!((kept[0].id.as_str(), kept[0].name.as_str()), ("2", "b"));
    assert_eq!((kept[1].id.as_str(), kept[1].name.as_str()), ("1", "c"));
}

#[test]
fn a_merge_error_reads_as_a_failed_merge() {
    let err = ClientOperationError::MergeError {
        remote_branch: "origin/feature/T1".to_owned(),
        pull_request_url: "https://github.com/o/r/pull/3".to_owned(),
    };
    assert_eq!(err.to_string(), "Merge failed, please see https://github.com/o/r/pull/3");
    let failed = FailedMergeOutput::from_merge_error(&err);
    assert_eq!(failed.remote_branch, "origin/feature/T1");
    assert_eq!(failed.pull_request_url, "https://github.com/o/r/pull/3");
}
