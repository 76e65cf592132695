//! The settings drawer: its fixed list of entries and what selecting one does.

use vstd::prelude::*;

use crate::text::{chars_of, decode_lossy, trim, trim_bounds, utf8_lossy};

verus! {

/// What a settings entry controls.
#[derive(Copy, Clone, Debug, PartialEq, Eq, Structural)]
pub enum SettingKind {
    Command,
    Volume,
    Brightness,
}

/// One entry of the settings drawer.
pub struct SettingsEntry {
    pub id: u32,
    pub title: &'static str,
    /// Shell command run when the entry is chosen; empty for entries that
    /// the UI handles itself.
    pub command: &'static str,
    /// The command runs in the interactive terminal.
    pub interactive: bool,
    pub kind: SettingKind,
}

pub struct SettingView {
    pub id: u32,
    pub title: Seq<char>,
    pub command: Seq<char>,
    pub interactive: bool,
    pub kind: SettingKind,
}

impl View for SettingsEntry {
    type V = SettingView;

    open spec fn view(&self) -> SettingView {
        SettingView {
            id: self.id,
            title: self.title@,
            command: self.command@,
            interactive: self.interactive,
            kind: self.kind,
        }
    }
}

/// The settings drawer, in display order.
pub open spec fn settings_table() -> Seq<SettingView> {
    seq![
        SettingView {
            id: 1,
            title: "Power Off"@,
            command: "poweroff"@,
            interactive: false,
            kind: SettingKind::Command,
        },
        SettingView {
            id: 2,
            title: "Reboot"@,
            command: "reboot"@,
            interactive: false,
            kind: SettingKind::Command,
        },
        SettingView {
            id: 3,
            title: "IP Info"@,
            command: "ip a"@,
            interactive: false,
            kind: SettingKind::Command,
        },
        SettingView {
            id: 4,
            title: "Input Test"@,
            command: "evtest"@,
            interactive: true,
            kind: SettingKind::Command,
        },
        SettingView {
            id: 5,
            title: "Volume"@,
            command: ""@,
            interactive: false,
            kind: SettingKind::Volume,
        },
        SettingView {
            id: 6,
            title: "Brightness"@,
            command: ""@,
            interactive: false,
            kind: SettingKind::Brightness,
        },
    ]
}

/// The first entry of `table` with the given id.
pub open spec fn find_setting(table: Seq<SettingView>, id: u32) -> Option<SettingView>
    decreases table.len(),
{
    if table.len() == 0 {
        None
    } else if table[0].id == id {
        Some(table[0])
    } else {
        find_setting(table.drop_first(), id)
    }
}

/// The settings entry with the given id.
pub open spec fn lookup(id: u32) -> Option<SettingView> {
    find_setting(settings_table(), id)
}

pub open spec fn spec_is_interactive(id: u32) -> bool {
    match lookup(id) {
        Some(s) => s.interactive,
        None => false,
    }
}

pub open spec fn spec_is_ui_only(id: u32) -> bool {
    match lookup(id) {
        Some(s) => s.kind != SettingKind::Command,
        None => false,
    }
}

pub open spec fn spec_find_command(id: u32) -> Option<Seq<char>> {
    match lookup(id) {
        Some(s) if s.command.len() > 0 => Some(s.command),
        _ => None,
    }
}

/// The entries of the settings drawer, in display order.
pub fn get_settings() -> (v: Vec<SettingsEntry>)
    ensures
        v@.map_values(|e: SettingsEntry| e@) == settings_table(),
{
    let v = vec![
        SettingsEntry {
            id: 1,
            title: "Power Off",
            command: "poweroff",
            interactive: false,
            kind: SettingKind::Command,
        },
        SettingsEntry {
            id: 2,
            title: "Reboot",
            command: "reboot",
            interactive: false,
            kind: SettingKind::Command,
        },
        SettingsEntry {
            id: 3,
            title: "IP Info",
            command: "ip a",
            interactive: false,
            kind: SettingKind::Command,
        },
        SettingsEntry {
            id: 4,
            title: "Input Test",
            command: "evtest",
            interactive: true,
            kind: SettingKind::Command,
        },
        SettingsEntry {
            id: 5,
            title: "Volume",
            command: "",
            interactive: false,
            kind: SettingKind::Volume,
        },
        SettingsEntry {
            id: 6,
            title: "Brightness",
            command: "",
            interactive: false,
            kind: SettingKind::Brightness,
        },
    ];
    proof {
        assert(v@.map_values(|e: SettingsEntry| e@) =~= settings_table());
    }
    v
}

/// Position of the first entry with the given id.
fn find_index(entries: &Vec<SettingsEntry>, id: u32) -> (r: Option<usize>)
    ensures
        r matches Some(i) ==> i < entries@.len() && find_setting(
            entries@.map_values(|e: SettingsEntry| e@),
            id,
        ) == Some(entries@[i as int]@),
        r is None ==> find_setting(entries@.map_values(|e: SettingsEntry| e@), id) is None,
{
    let ghost t = entries@.map_values(|e: SettingsEntry| e@);
    let mut i: usize = 0;
    proof {
        assert(t.skip(0) =~= t);
    }
    while i < entries.len()
        invariant
            0 <= i <= entries@.len(),
            t == entries@.map_values(|e: SettingsEntry| e@),
            find_setting(t, id) == find_setting(t.skip(i as int), id),
        decreases entries@.len() - i,
    {
        proof {
            assert(t.skip(i as int).drop_first() =~= t.skip(i + 1));
            assert(t.skip(i as int)[0] == entries@[i as int]@);
        }
        if entries[i].id == id {
            return Some(i);
        }
        i = i + 1;
    }
    proof {
        assert(t.skip(i as int).len() == 0);
    }
    None
}

/// Whether the entry runs its command in the interactive terminal.
pub fn is_interactive(id: u32) -> (r: bool)
    ensures
        r == spec_is_interactive(id),
{
    let settings = get_settings();
    match find_index(&settings, id) {
        Some(i) => settings[i].interactive,
        None => false,
    }
}

/// Whether the entry is handled by the UI itself rather than by a command.
pub fn is_ui_only(id: u32) -> (r: bool)
    ensures
        r == spec_is_ui_only(id),
{
    let settings = get_settings();
    match find_index(&settings, id) {
        Some(i) => match settings[i].kind {
            SettingKind::Command => false,
            _ => true,
        },
        None => false,
    }
}

/// The entry's shell command, where it has a non-empty one.
pub fn find_command(id: u32) -> (r: Option<&'static str>)
    ensures
        r matches Some(c) ==> spec_find_command(id) == Some(c@),
        r is None ==> spec_find_command(id) is None,
{
    let settings = get_settings();
    match find_index(&settings, id) {
        Some(i) => {
            let c = settings[i].command;
            if c.is_empty() {
                None
            } else {
                Some(c)
            }
        },
        None => None,
    }
}

/// The number the UI uses for a kind of entry.
pub fn setting_kind_code(kind: SettingKind) -> (code: i32)
    ensures
        code == match kind {
            SettingKind::Command => 0i32,
            SettingKind::Volume => 1i32,
            SettingKind::Brightness => 2i32,
        },
{
    match kind {
        SettingKind::Command => 0,
        SettingKind::Volume => 1,
        SettingKind::Brightness => 2,
    }
}

/// The command that running an entry executes in a shell: its own command
/// with standard error joined to standard output. Only entries of kind
/// `Command` with a non-empty command run anything.
pub open spec fn spec_shell_command(id: u32) -> Option<Seq<char>> {
    match lookup(id) {
        Some(s) if s.kind == SettingKind::Command && s.command.len() > 0 => Some(
            s.command + " 2>&1"@,
        ),
        _ => None,
    }
}

/// The shell command line that running the entry executes, or `None` where
/// the entry runs nothing.
pub fn shell_command(id: u32) -> (r: Option<String>)
    ensures
        r matches Some(c) ==> spec_shell_command(id) == Some(c@),
        r is None ==> spec_shell_command(id) is None,
{
    let settings = get_settings();
    let i = match find_index(&settings, id) {
        Some(i) => i,
        None => {
            return None;
        },
    };
    let entry = &settings[i];
    let is_command = match entry.kind {
        SettingKind::Command => true,
        _ => false,
    };
    if !is_command || entry.command.is_empty() {
        return None;
    }
    let mut line = String::from_str(entry.command);
    line.append(" 2>&1");
    Some(line)
}

/// The text shown for a command's output: its standard output decoded as
/// UTF-8 (invalid sequences replaced), or a failure note where the command
/// could not be run.
pub fn command_output_text(stdout: Option<&[u8]>) -> (text: String)
    ensures
        stdout matches Some(b) ==> text@ == utf8_lossy(b@),
        stdout is None ==> text@ == "(command failed)"@,
{
    match stdout {
        Some(b) => decode_lossy(b),
        None => String::from_str("(command failed)"),
    }
}

/// What choosing an entry in the settings drawer does.
pub enum SettingsAction {
    /// Nothing: the UI handles the entry, or it has no command to run.
    Ignore,
    /// Run this command in the interactive terminal.
    Spawn(&'static str),
    /// Run the entry's command and show its output.
    Run,
}

/// What choosing the entry does: entries the UI handles do nothing,
/// interactive ones start their command in the terminal, and the others run
/// their command and show its output.
pub fn settings_action(id: u32) -> (a: SettingsAction)
    ensures
        a matches SettingsAction::Ignore ==> spec_is_ui_only(id) || (spec_is_interactive(id)
            && spec_find_command(id) is None),
        a matches SettingsAction::Spawn(c) ==> !spec_is_ui_only(id) && spec_is_interactive(id)
            && spec_find_command(id) == Some(c@),
        a matches SettingsAction::Run ==> !spec_is_ui_only(id) && !spec_is_interactive(id),
{
    if is_ui_only(id) {
        return SettingsAction::Ignore;
    }
    if is_interactive(id) {
        match find_command(id) {
            Some(c) => SettingsAction::Spawn(c),
            None => SettingsAction::Ignore,
        }
    } else {
        SettingsAction::Run
    }
}

/// Setting ids are distinct, so looking one up finds the only entry with it.
pub proof fn lemma_setting_ids_distinct()
    ensures
        forall|i: int, j: int|
            0 <= i < j < settings_table().len() ==> settings_table()[i].id
                != settings_table()[j].id,
{
}

/// Which entries do what: 4 is the only interactive entry, 5 and 6 are
/// handled by the UI, 1 to 4 have a command, and no other id names an entry.
pub proof fn lemma_setting_lookup(id: u32)
    ensures
        spec_is_interactive(id) <==> id == 4,
        spec_is_ui_only(id) <==> (id == 5 || id == 6),
        spec_find_command(id) is Some <==> (1 <= id <= 4),
        lookup(id) is Some <==> (1 <= id <= 6),
{
    reveal_with_fuel(find_setting, 7);
    reveal_strlit("poweroff");
    reveal_strlit("reboot");
    reveal_strlit("ip a");
    reveal_strlit("evtest");
    reveal_strlit("");
}

/// An entry the UI handles has no command, and an interactive entry is not
/// handled by the UI and has a command: the drawer never asks to spawn
/// nothing nor to run a UI entry.
pub proof fn lemma_setting_roles(id: u32)
    ensures
        spec_is_ui_only(id) ==> spec_find_command(id) is None && spec_shell_command(id) is None,
        spec_is_interactive(id) ==> !spec_is_ui_only(id) && spec_find_command(id) is Some,
{
    lemma_setting_lookup(id);
    reveal_with_fuel(find_setting, 7);
}

pub open spec fn is_digit_char(c: char) -> bool {
    '0' <= c <= '9'
}

/// The value of a run of decimal digits.
pub open spec fn digits_value(d: Seq<char>) -> int
    decreases d.len(),
{
    if d.len() == 0 {
        0
    } else {
        digits_value(d.drop_last()) * 10 + (d.last() as int - 0x30)
    }
}

pub open spec fn all_digits(d: Seq<char>) -> bool {
    d.len() > 0 && forall|i: int| 0 <= i < d.len() ==> is_digit_char(#[trigger] d[i])
}

/// The number a string spells as `i32::from_str` reads it: an optional `+`
/// or `-` followed by one or more decimal digits (the value is not bounded
/// here).
pub open spec fn signed_decimal(t: Seq<char>) -> Option<int> {
    if t.len() > 0 && (t[0] == '+' || t[0] == '-') {
        if all_digits(t.drop_first()) {
            Some(
                if t[0] == '-' {
                    -digits_value(t.drop_first())
                } else {
                    digits_value(t.drop_first())
                },
            )
        } else {
            None
        }
    } else if all_digits(t) {
        Some(digits_value(t))
    } else {
        None
    }
}

/// The battery level a capacity file holds: its trimmed contents read as
/// an `i32`, kept only within 0..=100.
pub open spec fn spec_battery_level(content: Seq<char>) -> Option<int> {
    match signed_decimal(trim(content)) {
        Some(v) if 0 <= v <= 100 => Some(v),
        _ => None,
    }
}

proof fn lemma_digits_value_nonneg(d: Seq<char>)
    requires
        forall|i: int| 0 <= i < d.len() ==> is_digit_char(#[trigger] d[i]),
    ensures
        digits_value(d) >= 0,
    decreases d.len(),
{
    if d.len() > 0 {
        lemma_digits_value_nonneg(d.drop_last());
    }
}

/// Reads the digits `v[lo..hi]`: their value where it is at most 100,
/// otherwise 101; `None` where some character is not a digit.
fn capped_digits(v: &[char], lo: usize, hi: usize) -> (r: Option<u32>)
    requires
        lo <= hi <= v@.len(),
    ensures
        r is Some <==> forall|i: int| lo <= i < hi ==> is_digit_char(#[trigger] v@[i]),
        r matches Some(x) ==> (if digits_value(v@.subrange(lo as int, hi as int)) <= 100 {
            x == digits_value(v@.subrange(lo as int, hi as int))
        } else {
            x == 101
        }),
{
    let mut acc: u32 = 0;
    let mut i = lo;
    proof {
        assert(v@.subrange(lo as int, lo as int) =~= Seq::<char>::empty());
    }
    while i < hi
        invariant
            lo <= i <= hi <= v@.len(),
            forall|j: int| lo <= j < i ==> is_digit_char(#[trigger] v@[j]),
            if digits_value(v@.subrange(lo as int, i as int)) <= 100 {
                acc == digits_value(v@.subrange(lo as int, i as int))
            } else {
                acc == 101
            },
        decreases hi - i,
    {
        let c = v[i];
        if !('0' <= c && c <= '9') {
            return None;
        }
        proof {
            assert(v@.subrange(lo as int, i + 1).drop_last() =~= v@.subrange(lo as int, i as int));
            lemma_digits_value_nonneg(v@.subrange(lo as int, i as int));
        }
        let d = (c as u32) - 0x30;
        if acc > 100 || acc * 10 + d > 100 {
            acc = 101;
        } else {
            acc = acc * 10 + d;
        }
        i = i + 1;
    }
    Some(acc)
}

/// The battery level a capacity file holds, where it holds a number from 0
/// to 100.
pub fn parse_battery_level(content: &str) -> (level: Option<i32>)
    ensures
        level matches Some(x) ==> spec_battery_level(content@) == Some(x as int),
        level is None ==> spec_battery_level(content@) is None,
        level matches Some(x) ==> 0 <= x <= 100,
{
    let v = chars_of(content);
    let (a, b) = trim_bounds(v.as_slice(), 0, v.len());
    let ghost t = v@.subrange(a as int, b as int);
    proof {
        assert(v@.subrange(0, v@.len() as int) =~= v@);
    }
    if a == b {
        return None;
    }
    let negative = v[a] == '-';
    let start = if v[a] == '+' || v[a] == '-' { a + 1 } else { a };
    proof {
        if start == a + 1 {
            assert(t.drop_first() =~= v@.subrange(start as int, b as int));
        } else {
            assert(t =~= v@.subrange(start as int, b as int));
        }
    }
    if start == b {
        return None;
    }
    match capped_digits(v.as_slice(), start, b) {
        None => {
            proof {
                let d = v@.subrange(start as int, b as int);
                let k = choose|k: int| start <= k < b && !is_digit_char(#[trigger] v@[k]);
                assert(!is_digit_char(d[k - start]));
            }
            None
        },
        Some(x) => {
            proof {
                let d = v@.subrange(start as int, b as int);
                assert forall|i: int| 0 <= i < d.len() implies is_digit_char(#[trigger] d[i]) by {
                    assert(d[i] == v@[start + i]);
                }
                lemma_digits_value_nonneg(d);
            }
            if x > 100 {
                None
            } else if negative {
                if x == 0 {
                    Some(0)
                } else {
                    None
                }
            } else {
                Some(x as i32)
            }
        },
    }
}

} // verus!
