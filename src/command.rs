//! Recognising shell commands by their first bytes.
use vstd::prelude::*;

verus! {

/// The shell commands.
#[derive(Clone, Copy, PartialEq, Eq, Structural, Debug)]
pub enum Command {
    /// An empty line.
    Empty,
    Hello,
    Help,
    Reboot,
    Ls,
    Cat,
    Exec,
    Echo,
    SetTimeOut,
    Buddy,
    Unknown,
}

/// `s` begins with `p`.
pub open spec fn has_prefix(s: Seq<u8>, p: Seq<u8>) -> bool {
    p.len() <= s.len() && s.take(p.len() as int) == p
}

/// Whether `s` begins with `p`.
pub fn starts_with(s: &[u8], p: &[u8]) -> (r: bool)
    ensures
        r == has_prefix(s@, p@),
{
    if p.len() > s.len() {
        return false;
    }
    let mut i: usize = 0;
    while i < p.len()
        invariant
            p@.len() <= s@.len(),
            i <= p@.len(),
            forall|j: int| 0 <= j < i ==> s@[j] == p@[j],
        decreases p@.len() - i,
    {
        if s[i] != p[i] {
            proof {
                assert(s@.take(p@.len() as int)[i as int] != p@[i as int]);
            }
            return false;
        }
        i = i + 1;
    }
    proof {
        assert(s@.take(p@.len() as int) =~= p@);
    }
    true
}

/// The command that a line names, by the first of these prefixes that it starts
/// with: NUL, `hello`, `help`, `reboot`, `ls`, `cat`, `exec`, `echo`,
/// `setTimeOut`, `buddy`.
pub open spec fn command_of(s: Seq<u8>) -> Command {
    if has_prefix(s, seq![0u8]) {
        Command::Empty
    } else if has_prefix(s, seq![104u8, 101, 108, 108, 111]) {
        Command::Hello
    } else if has_prefix(s, seq![104u8, 101, 108, 112]) {
        Command::Help
    } else if has_prefix(s, seq![114u8, 101, 98, 111, 111, 116]) {
        Command::Reboot
    } else if has_prefix(s, seq![108u8, 115]) {
        Command::Ls
    } else if has_prefix(s, seq![99u8, 97, 116]) {
        Command::Cat
    } else if has_prefix(s, seq![101u8, 120, 101, 99]) {
        Command::Exec
    } else if has_prefix(s, seq![101u8, 99, 104, 111]) {
        Command::Echo
    } else if has_prefix(s, seq![115u8, 101, 116, 84, 105, 109, 101, 79, 117, 116]) {
        Command::SetTimeOut
    } else if has_prefix(s, seq![98u8, 117, 100, 100, 121]) {
        Command::Buddy
    } else {
        Command::Unknown
    }
}

/// Recognises the command on a shell line.
pub fn parse_command(command: &[u8]) -> (r: Command)
    ensures
        r == command_of(command@),
{
    let empty: [u8; 1] = [0];
    let hello: [u8; 5] = [104, 101, 108, 108, 111];
    let help: [u8; 4] = [104, 101, 108, 112];
    let reboot: [u8; 6] = [114, 101, 98, 111, 111, 116];
    let ls: [u8; 2] = [108, 115];
    let cat: [u8; 3] = [99, 97, 116];
    let exec: [u8; 4] = [101, 120, 101, 99];
    let echo: [u8; 4] = [101, 99, 104, 111];
    let set_time_out: [u8; 10] = [115, 101, 116, 84, 105, 109, 101, 79, 117, 116];
    let buddy: [u8; 5] = [98, 117, 100, 100, 121];
    proof {
        assert(empty@ =~= seq![0u8]);
        assert(hello@ =~= seq![104u8, 101, 108, 108, 111]);
        assert(help@ =~= seq![104u8, 101, 108, 112]);
        assert(reboot@ =~= seq![114u8, 101, 98, 111, 111, 116]);
        assert(ls@ =~= seq![108u8, 115]);
        assert(cat@ =~= seq![99u8, 97, 116]);
        assert(exec@ =~= seq![101u8, 120, 101, 99]);
        assert(echo@ =~= seq![101u8, 99, 104, 111]);
        assert(set_time_out@ =~= seq![115u8, 101, 116, 84, 105, 109, 101, 79, 117, 116]);
        assert(buddy@ =~= seq![98u8, 117, 100, 100, 121]);
    }
    if starts_with(command, empty.as_slice()) {
        Command::Empty
    } else if starts_with(command, hello.as_slice()) {
        Command::Hello
    } else if starts_with(command, help.as_slice()) {
        Command::Help
    } else if starts_with(command, reboot.as_slice()) {
        Command::Reboot
    } else if starts_with(command, ls.as_slice()) {
        Command::Ls
    } else if starts_with(command, cat.as_slice()) {
        Command::Cat
    } else if starts_with(command, exec.as_slice()) {
        Command::Exec
    } else if starts_with(command, echo.as_slice()) {
        Command::Echo
    } else if starts_with(command, set_time_out.as_slice()) {
        Command::SetTimeOut
    } else if starts_with(command, buddy.as_slice()) {
        Command::Buddy
    } else {
        Command::Unknown
    }
}

} // verus!
