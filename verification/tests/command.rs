use lezeh::command::{handle_command_output, CommandError, PresetCommand};

#[test]
fn it_should_parse_string_params_containing_space() {
    // 1 space
    let command_parts = PresetCommand::create_command_parts_from_string(
        "git log --oneline --pretty='format:%h %s'",
    );

    assert_eq!(
        vec![
            "git".to_owned(),
            "log".to_owned(),
            "--oneline".to_owned(),
            "--pretty='format:%h %s'".to_owned()
        ],
        command_parts.into_iter().collect::<Vec<String>>()
    );

    // 2 spaces
    let command_parts =
        PresetCommand::create_command_parts_from_string("grep 'Merge pull request' --invert-match");

    assert_eq!(
        vec![
            "grep".to_owned(),
            "'Merge pull request'".to_owned(),
            "--invert-match".to_owned(),
        ],
        command_parts.into_iter().collect::<Vec<String>>()
    );
}

#[test]
fn it_should_parse_string_params() {
    let command_parts =
        PresetCommand::create_command_parts_from_string("git log --oneline --pretty=format:%s");

    assert_eq!(
        vec![
            "git".to_owned(),
            "log".to_owned(),
            "--oneline".to_owned(),
            "--pretty=format:%s".to_owned()
        ],
        command_parts.into_iter().collect::<Vec<String>>()
    );
}

#[test]
fn command_parts_joined_by_spaces_give_the_command_back() {
    for command in [
        "git log --oneline --pretty='format:%h %s'",
        "grep 'Merge pull request' --invert-match",
        "a  b",
        "",
        "echo 'unclosed quote here",
    ] {
        let parts: Vec<String> =
            PresetCommand::create_command_parts_from_string(command).into_iter().collect();
        assert!(!parts.is_empty());
        assert_eq!(parts.join(" "), command);
    }
}

#[test]
fn invocation_splits_program_and_arguments() {
    let preset = PresetCommand { working_dir: "/repo".to_owned() };
    let invocation = preset.invocation("git pull origin master").unwrap();
    assert_eq!(invocation.program, "git");
    assert_eq!(invocation.args, vec!["pull".to_owned(), "origin".to_owned(), "master".to_owned()]);
    assert_eq!(invocation.working_dir, "/repo");
}

#[test]
fn command_output_with_stderr_is_an_error() {
    assert_eq!(
        handle_command_output(b"out".to_vec(), b"boom".to_vec()),
        Err(CommandError::Stderr("boom".to_owned()))
    );
    assert_eq!(handle_command_output(b"out".to_vec(), vec![]), Ok("out".to_owned()));
    assert_eq!(handle_command_output(vec![0xff, 0xfe], vec![]), Err(CommandError::InvalidUtf8));
    assert_eq!(handle_command_output(vec![], vec![0xff]), Err(CommandError::InvalidUtf8));
}

#[test]
fn a_command_without_quotes_splits_at_every_space() {
    for command in ["git  push origin", " leading", "trailing ", "", "a \"b c\" d"] {
        let parts: Vec<String> = PresetCommand::create_command_parts_from_string(command).into_iter().collect();
        let words: Vec<String> = command.split(' ').map(|w| w.to_owned()).collect();
        assert_eq!(parts, words);
    }
}
