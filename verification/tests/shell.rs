use mos_rust::shell::{command_word, first_word, parse_command, parse_u64, Command, CommandWord};

#[test]
fn blank_lines_ask_for_nothing() {
    assert!(matches!(parse_command(""), Command::Empty));
    assert!(matches!(parse_command("   \t  "), Command::Empty));
}

#[test]
fn plain_commands_are_recognised() {
    assert!(matches!(parse_command("help"), Command::Help));
    assert!(matches!(parse_command("  ver  "), Command::Ver));
    assert!(matches!(parse_command("clear"), Command::Clear));
    assert!(matches!(parse_command("shutdown"), Command::Shutdown));
    assert!(matches!(parse_command("reboot"), Command::Reboot));
    assert!(matches!(parse_command("shellver"), Command::ShellVer));
    assert!(matches!(parse_command("pwd"), Command::Pwd));
    assert!(matches!(parse_command("yustupid"), Command::Yustupid));
    assert!(matches!(parse_command("mfetch"), Command::Mfetch));
    assert!(matches!(parse_command("prompt"), Command::Prompt));
}

#[test]
fn commands_are_case_sensitive() {
    assert!(matches!(parse_command("HELP"), Command::Unknown(ref w) if w == "HELP"));
}

#[test]
fn unknown_command_keeps_its_word() {
    assert!(matches!(parse_command("frobnicate now"), Command::Unknown(ref w) if w == "frobnicate"));
}

#[test]
fn ls_takes_an_optional_path() {
    assert!(matches!(parse_command("ls"), Command::Ls(ref p) if p.is_empty()));
    assert!(matches!(parse_command("ls  docs extra"), Command::Ls(ref p) if p == "docs"));
}

#[test]
fn single_argument_commands() {
    assert!(matches!(parse_command("create a.txt"), Command::Create(Some(ref n)) if n == "a.txt"));
    assert!(matches!(parse_command("create"), Command::Create(None)));
    assert!(matches!(parse_command("cat  a.txt"), Command::Cat(Some(ref n)) if n == "a.txt"));
    assert!(matches!(parse_command("cat"), Command::Cat(None)));
    assert!(matches!(parse_command("rm a.txt b.txt"), Command::Rm(Some(ref n)) if n == "a.txt"));
    assert!(matches!(parse_command("rm"), Command::Rm(None)));
    assert!(matches!(parse_command("mkdir d"), Command::Mkdir(Some(ref n)) if n == "d"));
    assert!(matches!(parse_command("mkdir"), Command::Mkdir(None)));
    assert!(matches!(parse_command("cd /"), Command::Cd(Some(ref n)) if n == "/"));
    assert!(matches!(parse_command("cd"), Command::Cd(None)));
}

#[test]
fn write_joins_the_data_words_with_single_spaces() {
    match parse_command("write note.txt hello   big\tworld") {
        Command::Write(Some(name), data) => {
            assert_eq!(name, "note.txt");
            assert_eq!(data, b"hello big world".to_vec());
        }
        _ => panic!("expected write"),
    }
}

#[test]
fn write_without_data_or_name() {
    match parse_command("write note.txt") {
        Command::Write(Some(name), data) => {
            assert_eq!(name, "note.txt");
            assert!(data.is_empty());
        }
        _ => panic!("expected write"),
    }
    assert!(matches!(parse_command("write"), Command::Write(None, ref d) if d.is_empty()));
}

#[test]
fn write_keeps_non_ascii_words() {
    match parse_command("write f é ü") {
        Command::Write(Some(name), data) => {
            assert_eq!(name, "f");
            assert_eq!(data, "é ü".as_bytes().to_vec());
        }
        _ => panic!("expected write"),
    }
}

#[test]
fn sleep_argument_is_parsed() {
    assert!(matches!(parse_command("sleep"), Command::Sleep(None)));
    assert!(matches!(parse_command("sleep 5"), Command::Sleep(Some(Some(5)))));
    assert!(matches!(parse_command("sleep five"), Command::Sleep(Some(None))));
    assert!(matches!(parse_command("sleep -1"), Command::Sleep(Some(None))));
}

#[test]
fn parse_u64_matches_std() {
    for s in ["0", "7", "+5", "0012", "18446744073709551615"] {
        assert_eq!(parse_u64(s), s.parse::<u64>().ok());
    }
    assert_eq!(parse_u64("+5"), Some(5));
    assert_eq!(parse_u64("18446744073709551615"), Some(u64::MAX));
    for s in ["", "+", "-5", "-0", "1_000", " 1", "1.5", "18446744073709551616", "99999999999999999999"] {
        assert_eq!(parse_u64(s), None);
        assert!(s.parse::<u64>().is_err());
    }
}

#[test]
fn command_words() {
    assert!(command_word("help") == CommandWord::Help);
    assert!(command_word("write") == CommandWord::Write);
    assert!(command_word("sleep") == CommandWord::Sleep);
    assert!(command_word("help ") == CommandWord::Other);
    assert!(command_word("") == CommandWord::Other);
}

#[test]
fn first_word_is_the_new_prompt() {
    assert_eq!(first_word("  root#  ignored"), Some(String::from("root#")));
    assert_eq!(first_word("\t"), None);
    assert_eq!(first_word(""), None);
}
