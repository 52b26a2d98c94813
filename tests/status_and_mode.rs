use task_tracker_lib::{
    CLIInvalidArgumentsError, TaskStatus, TaskTrackerCreationError, TaskTrackerMode,
    TaskTrackerModeParseError, CLI,
};

#[test]
fn status_texts() {
    assert_eq!(TaskStatus::ToDo.to_string(), "todo");
    assert_eq!(TaskStatus::InProgress.to_string(), "in-progress");
    assert_eq!(TaskStatus::Done.to_string(), "done");
}

#[test]
fn status_parsing_ignores_case_and_defaults_to_todo() {
    assert_eq!(TaskStatus::from_text("DONE"), TaskStatus::Done);
    assert_eq!(TaskStatus::from_text("In-Progress"), TaskStatus::InProgress);
    assert_eq!(TaskStatus::from_text("todo"), TaskStatus::ToDo);
    assert_eq!(TaskStatus::from_text("in-progess"), TaskStatus::ToDo);
    assert_eq!(TaskStatus::from_lowered("done"), TaskStatus::Done);
    assert_eq!(TaskStatus::from_lowered("DONE"), TaskStatus::ToDo);
    assert_eq!(TaskStatus::default(), TaskStatus::ToDo);
}

#[test]
fn modes_parse_in_any_case() {
    assert_eq!(TaskTrackerMode::from_text("ADD").ok(), Some(TaskTrackerMode::Add));
    assert_eq!(TaskTrackerMode::from_text("update").ok(), Some(TaskTrackerMode::Update));
    assert_eq!(TaskTrackerMode::from_text("Delete").ok(), Some(TaskTrackerMode::Delete));
    assert_eq!(TaskTrackerMode::from_text("list").ok(), Some(TaskTrackerMode::List));
    assert_eq!(
        TaskTrackerMode::from_text("mark-in-progress").ok(),
        Some(TaskTrackerMode::MarkInProgress)
    );
    assert_eq!(TaskTrackerMode::from_text("MARK-DONE").ok(), Some(TaskTrackerMode::MarkDone));
    assert_eq!(TaskTrackerMode::from_lowered("list").ok(), Some(TaskTrackerMode::List));
    assert!(TaskTrackerMode::from_lowered("LIST").is_err());
}

#[test]
fn unknown_mode_is_an_error_holding_the_lowered_text() {
    match TaskTrackerMode::from_text("Mark-In-Progess") {
        Err(e) => assert_eq!(e.0, "mark-in-progess"),
        Ok(_) => panic!("accepted an unknown mode"),
    }
}

#[test]
fn too_few_arguments_are_refused() {
    match CLI::new(vec!["task-cli".to_string()]) {
        Err(e) => assert_eq!(e.0, "Invalid arguments: task-cli"),
        Ok(_) => panic!("accepted one argument"),
    }
    match CLI::new(vec![]) {
        Err(e) => assert_eq!(e.0, "Invalid arguments: "),
        Ok(_) => panic!("accepted no argument"),
    }
    let cli = CLI::new(vec!["task-cli".to_string(), "list".to_string()]).ok().unwrap();
    assert_eq!(cli.arguments().len(), 2);
}

#[test]
fn from_str_parses_like_from_text() {
    assert_eq!("Done".parse::<TaskStatus>().ok(), Some(TaskStatus::Done));
    assert_eq!("nothing".parse::<TaskStatus>().ok(), Some(TaskStatus::ToDo));
    assert_eq!("Mark-Done".parse::<TaskTrackerMode>().ok(), Some(TaskTrackerMode::MarkDone));
    assert!("nope".parse::<TaskTrackerMode>().is_err());
    assert_eq!(TaskTrackerMode::default(), TaskTrackerMode::Add);
    let t: task_tracker_lib::DateTime = "2024/02/29 12:30:45".parse().ok().unwrap();
    assert_eq!(t.to_string(), "2024/02/29 12:30:45");
}

#[test]
fn creation_errors_wrap_their_causes() {
    match TaskTrackerCreationError::from(CLIInvalidArgumentsError("bad".to_string())) {
        TaskTrackerCreationError::CLIInvalidArgumentsError(e) => assert_eq!(e.0, "bad"),
        _ => panic!("wrong variant"),
    }
    match TaskTrackerCreationError::from(TaskTrackerModeParseError("zap".to_string())) {
        TaskTrackerCreationError::TaskTrackerModeParseError(e) => assert_eq!(e.0, "zap"),
        _ => panic!("wrong variant"),
    }
}
