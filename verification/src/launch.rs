//! Handing the display over to a game: which command to launch, and the
//! shell script that waits for the launcher to exit before running it.

use vstd::prelude::*;

use crate::entries::GameEntry;
use crate::text::push_char;

verus! {

/// The decimal digits of `n`, without leading zeros.
pub open spec fn decimal(n: nat) -> Seq<char>
    decreases n,
{
    if n < 10 {
        seq![digit_char(n)]
    } else {
        decimal(n / 10).push(digit_char(n % 10))
    }
}

pub open spec fn digit_char(d: nat) -> char {
    (0x30 + d) as char
}

/// Appends the decimal digits of `n`.
fn push_decimal(s: &mut String, n: u32)
    ensures
        final(s)@ == old(s)@ + decimal(n as nat),
    decreases n,
{
    if n >= 10 {
        push_decimal(s, n / 10);
    }
    let d = (n % 10) as u8;
    push_char(s, (0x30u8 + d) as char);
    proof {
        assert(old(s)@ + decimal(n as nat) =~= if n >= 10 {
            old(s)@ + decimal((n / 10) as nat)
        } else {
            old(s)@
        }.push(digit_char((n % 10) as nat)));
    }
}

/// The script run in a detached shell: it waits until the launcher process
/// has exited, then runs the game's command.
pub open spec fn spec_handoff_script(launcher_pid: u32, command: Seq<char>) -> Seq<char> {
    "while kill -0 "@ + decimal(launcher_pid as nat) + " 2>/dev/null; do sleep 0.2; done\n"@
        + command
}

/// The script that waits for the launcher (`launcher_pid`) to exit and then
/// runs `command`.
pub fn handoff_script(launcher_pid: u32, command: &str) -> (script: String)
    ensures
        script@ == spec_handoff_script(launcher_pid, command@),
{
    let mut s = String::from_str("while kill -0 ");
    push_decimal(&mut s, launcher_pid);
    s.append(" 2>/dev/null; do sleep 0.2; done\n");
    s.append(command);
    s
}

/// The command to launch when the UI asks for game `index`: the game's
/// command, where the index names a game and that game has one.
pub open spec fn spec_launch_command(games: Seq<GameEntry>, index: i32) -> Option<Seq<char>> {
    if 0 <= index < games.len() && games[index as int].command@.len() > 0 {
        Some(games[index as int].command@)
    } else {
        None
    }
}

/// Every game of the list that has a command can be launched, the last one
/// included: asking for it gives its command. An index outside the list, or a
/// game without a command, gives nothing.
pub proof fn lemma_launch_command(games: Seq<GameEntry>, index: i32)
    ensures
        0 <= index < games.len() && games[index as int].command@.len() > 0 ==> spec_launch_command(
            games,
            index,
        ) == Some(games[index as int].command@),
        0 <= index < games.len() && games[index as int].command@.len() == 0 ==> spec_launch_command(
            games,
            index,
        ) is None,
        index < 0 || index >= games.len() ==> spec_launch_command(games, index) is None,
{
}

/// The command to launch when the UI asks for game `index`.
pub fn launch_command(games: &[GameEntry], index: i32) -> (c: Option<String>)
    ensures
        c matches Some(s) ==> spec_launch_command(games@, index) == Some(s@),
        c is None ==> spec_launch_command(games@, index) is None,
        c matches Some(s) ==> s@.len() > 0,
        0 <= index < games@.len() && games@[index as int].command@.len() > 0 ==> (c matches Some(
            s,
        ) && s@ == games@[index as int].command@),
        index < 0 || index >= games@.len() ==> c is None,
{
    if index >= 0 && (index as usize) < games.len() {
        let game = &games[index as usize];
        if !game.command.as_str().is_empty() {
            return Some(game.command.clone());
        }
    }
    None
}

} // verus!
