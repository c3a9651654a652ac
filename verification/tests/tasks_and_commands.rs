use todo::{Command, Task, TodoError};

#[test]
fn task_from_string_has_no_description() {
    let t = Task::from("name".to_string());
    assert_eq!(t.name(), "name");
    assert!(t.description().is_none());
}

#[test]
fn with_description_sets_description() {
    let t = Task::from("n".to_string()).with_description("d".to_string());
    assert_eq!(t.name(), "n");
    assert_eq!(t.description().map(|d| d.clone()), Some("d".to_string()));
}

#[test]
fn set_description_only_replaces_existing() {
    let mut bare = Task::from("n".to_string());
    bare.set_description("ignored".to_string());
    assert!(bare.description().is_none());
    let mut described = Task::from("n".to_string()).with_description("old".to_string());
    described.set_description("new".to_string());
    assert_eq!(described.description().map(|d| d.clone()), Some("new".to_string()));
}

#[test]
fn set_name_replaces_name() {
    let mut t = Task::from("old".to_string()).with_description("d".to_string());
    t.set_name("new".to_string());
    assert_eq!(t.name(), "new");
    assert_eq!(t.description().map(|d| d.clone()), Some("d".to_string()));
}

#[test]
fn display_line_shows_name_and_description() {
    let plain = Task::from("milk".to_string());
    assert_eq!(plain.display_line(), "* milk");
    let described = Task::from("milk".to_string()).with_description("two bottles".to_string());
    assert_eq!(described.display_line(), "* milk: two bottles.");
}

#[test]
fn commands_match_by_prefix() {
    assert_eq!(Command::from_str("add").unwrap(), Command::Add);
    assert_eq!(Command::from_str("a").unwrap(), Command::Add);
    assert_eq!(Command::from_str("ADD").unwrap(), Command::Add);
    assert_eq!(Command::from_str("d").unwrap(), Command::Finish);
    assert_eq!(Command::from_str("done").unwrap(), Command::Finish);
    assert_eq!(Command::from_str("finish").unwrap(), Command::Finish);
    assert_eq!(Command::from_str("l").unwrap(), Command::List);
    assert_eq!(Command::from_str("c").unwrap(), Command::Clear);
    assert_eq!(Command::from_str("reset").unwrap(), Command::Clear);
    assert_eq!(Command::from_str("rem").unwrap(), Command::Remove);
    assert_eq!(Command::from_str("rest").unwrap(), Command::Restore);
    assert_eq!(Command::from_str("s").unwrap(), Command::Sort);
    assert_eq!(Command::from_str("ra").unwrap(), Command::Raw);
    assert_eq!(Command::from_str("h").unwrap(), Command::Help);
}

#[test]
fn first_matching_name_wins_on_ambiguous_prefix() {
    // "r" and "re" are prefixes of reset, remove and restore alike; the names
    // are tried in a fixed order and reset comes first.
    assert_eq!(Command::from_str("r").unwrap(), Command::Clear);
    assert_eq!(Command::from_str("re").unwrap(), Command::Clear);
    assert_eq!(Command::from_str("res").unwrap(), Command::Clear);
}

#[test]
fn unknown_commands_are_rejected() {
    assert_eq!(Command::from_str("").unwrap_err(), TodoError::NoMatchingCommand);
    assert_eq!(Command::from_str("x").unwrap_err(), TodoError::NoMatchingCommand);
    assert_eq!(Command::from_str("addx").unwrap_err(), TodoError::NoMatchingCommand);
    assert_eq!(Command::from_str("adds").unwrap_err(), TodoError::NoMatchingCommand);
}

#[test]
fn default_command_is_help() {
    assert_eq!(Command::default(), Command::Help);
}

#[test]
fn error_messages_name_each_failure() {
    assert_eq!(TodoError::IoError.message(), "FILE-ERROR");
    assert_eq!(TodoError::ParseError.message(), "PARSE-ERROR");
    assert_eq!(TodoError::SerializeError.message(), "SERIALIZE-ERROR");
    assert_eq!(TodoError::InvalidArgument.message(), "INVALID-ARGUMENT");
    assert_eq!(TodoError::NoMatchingCommand.message(), "NO-MATCHING-COMMAND");
}
