use kernel::command::{parse_command, starts_with, Command};

#[test]
fn commands_are_recognised_by_prefix() {
    assert_eq!(parse_command(b"\0\0\0"), Command::Empty);
    assert_eq!(parse_command(b"hello\0"), Command::Hello);
    assert_eq!(parse_command(b"help\0"), Command::Help);
    assert_eq!(parse_command(b"reboot"), Command::Reboot);
    assert_eq!(parse_command(b"ls -l"), Command::Ls);
    assert_eq!(parse_command(b"cat file.txt"), Command::Cat);
    assert_eq!(parse_command(b"exec program.img"), Command::Exec);
    assert_eq!(parse_command(b"echo hi"), Command::Echo);
    assert_eq!(parse_command(b"setTimeOut hi 3"), Command::SetTimeOut);
    assert_eq!(parse_command(b"buddy"), Command::Buddy);
    assert_eq!(parse_command(b"hel"), Command::Unknown);
    assert_eq!(parse_command(b""), Command::Unknown);
}

#[test]
fn prefix_test() {
    assert!(starts_with(b"abc", b"ab"));
    assert!(starts_with(b"abc", b""));
    assert!(!starts_with(b"ab", b"abc"));
    assert!(!starts_with(b"abc", b"ac"));
}
