use minesweeper::command::{parse_command, Command, InvalidCommand};
use minesweeper::pos::Pos;

#[test]
fn test_parse() {
    let open = "o 1 1".parse::<Command>().unwrap();
    assert_eq!(open, Command::Open(Pos::new(1, 1)));
    let flag = "f 1 1".parse::<Command>().unwrap();
    assert_eq!(flag, Command::Flag(Pos::new(1, 1)));
    let quit = "q".parse::<Command>().unwrap();
    assert_eq!(quit, Command::Quit);
    let invalid = "abc".parse::<Command>();
    assert!(matches!(invalid, Err(InvalidCommand::Command(s)) if s == "abc"));
    let overflow = "o 260 2".parse::<Command>();
    assert!(matches!(overflow, Err(InvalidCommand::Dimension)));
}

#[test]
fn parse_rejects_malformed_lines() {
    assert!(matches!(
        parse_command("o 1"),
        Err(InvalidCommand::Command(s)) if s == "o 1"
    ));
    assert!(matches!(
        parse_command("o 1 1 1"),
        Err(InvalidCommand::Command(s)) if s == "o 1 1 1"
    ));
    assert!(matches!(
        parse_command("q extra"),
        Err(InvalidCommand::Command(s)) if s == "q extra"
    ));
    assert!(matches!(parse_command(""), Err(InvalidCommand::Command(s)) if s.is_empty()));
}

#[test]
fn parse_rejects_bad_coordinates() {
    assert!(matches!(parse_command("o 0 1"), Err(InvalidCommand::Dimension)));
    assert!(matches!(parse_command("f 1 x"), Err(InvalidCommand::Dimension)));
    assert!(matches!(parse_command("o  1"), Err(InvalidCommand::Dimension)));
    assert!(matches!(parse_command("f + 2"), Err(InvalidCommand::Dimension)));
}

#[test]
fn parse_accepts_the_full_coordinate_range() {
    assert_eq!(
        parse_command("o 255 255"),
        Ok(Command::Open(Pos::new(255, 255)))
    );
    assert_eq!(parse_command("f 007 12"), Ok(Command::Flag(Pos::new(7, 12))));
}
