use stfg::command::{command_of, invalid_command, invalid_command_with, Command};

#[test]
fn each_command_has_two_names() {
    assert_eq!(command_of("to-git"), Some(Command::ToGit));
    assert_eq!(command_of("from-sql"), Some(Command::ToGit));
    assert_eq!(command_of("from-git"), Some(Command::FromGit));
    assert_eq!(command_of("to-sql"), Some(Command::FromGit));
    assert_eq!(command_of("to_git"), None);
    assert_eq!(command_of("TO-GIT"), None);
    assert_eq!(command_of(""), None);
    assert_eq!(command_of("git"), None);
}

#[test]
fn a_word_close_to_a_command_is_pointed_to_it() {
    assert_eq!(
        invalid_command("to-gti"),
        "`to-gti` is an invalid command. There is a similar command: `to-git`."
    );
    assert_eq!(
        invalid_command("form-git"),
        "`form-git` is an invalid command. There is a similar command: `from-git`."
    );
}

#[test]
fn a_word_far_from_every_command_gets_no_hint() {
    assert_eq!(invalid_command("xyzzy"), "`xyzzy` is an invalid command. ");
    assert_eq!(invalid_command(""), "`` is an invalid command. ");
}

#[test]
fn the_message_names_the_word_and_the_hint() {
    assert_eq!(
        invalid_command_with("a", Some("b")),
        "`a` is an invalid command. There is a similar command: `b`."
    );
    assert_eq!(invalid_command_with("a", None), "`a` is an invalid command. ");
}
