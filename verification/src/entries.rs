//! Game descriptors: one small `key = value` file per game, and the list of
//! games built from all of them.

use vstd::prelude::*;

use crate::text::{chars_of, find_char, first_index, range_eq, string_of, trim, trim_bounds};

verus! {

/// One game of the library.
#[derive(Clone, Debug)]
pub struct GameEntry {
    pub id: u32,
    pub name: String,
    pub command: String,
    pub cover: Option<String>,
}

/// The fields a descriptor sets, as a TOML parser reads them.
#[derive(Debug)]
pub struct TomlGame {
    pub name: Option<String>,
    pub command: Option<String>,
    pub cover: Option<String>,
}

pub struct GameEntryView {
    pub id: u32,
    pub name: Seq<char>,
    pub command: Seq<char>,
    pub cover: Option<Seq<char>>,
}

pub struct TomlGameView {
    pub name: Option<Seq<char>>,
    pub command: Option<Seq<char>>,
    pub cover: Option<Seq<char>>,
}

pub open spec fn opt_view(o: Option<String>) -> Option<Seq<char>> {
    match o {
        Some(s) => Some(s@),
        None => None,
    }
}

impl View for GameEntry {
    type V = GameEntryView;

    open spec fn view(&self) -> GameEntryView {
        GameEntryView {
            id: self.id,
            name: self.name@,
            command: self.command@,
            cover: opt_view(self.cover),
        }
    }
}

impl View for TomlGame {
    type V = TomlGameView;

    open spec fn view(&self) -> TomlGameView {
        TomlGameView {
            name: opt_view(self.name),
            command: opt_view(self.command),
            cover: opt_view(self.cover),
        }
    }
}

pub open spec fn no_fields() -> TomlGameView {
    TomlGameView { name: None, command: None, cover: None }
}

/// `v` without one pair of surrounding double quotes.
pub open spec fn unquote(v: Seq<char>) -> Seq<char> {
    if v.len() >= 2 && v[0] == '"' && v.last() == '"' {
        v.subrange(1, v.len() - 1)
    } else {
        v
    }
}

/// The fields after one line: blank lines and lines starting with `#` or
/// `[` are skipped; otherwise the text before the first `=` is the key and
/// the text after it the value (both trimmed, the value unquoted), and the
/// keys `name`, `exec` and `cover` set their field.
pub open spec fn spec_apply_line(f: TomlGameView, raw: Seq<char>) -> TomlGameView {
    let line = trim(raw);
    if line.len() == 0 || line[0] == '#' || line[0] == '[' {
        f
    } else {
        match first_index(line, '=') {
            None => f,
            Some(k) => {
                let key = trim(line.subrange(0, k));
                let value = unquote(trim(line.subrange(k + 1, line.len() as int)));
                if key == "name"@ {
                    TomlGameView { name: Some(value), ..f }
                } else if key == "exec"@ {
                    TomlGameView { command: Some(value), ..f }
                } else if key == "cover"@ {
                    TomlGameView { cover: Some(value), ..f }
                } else {
                    f
                }
            },
        }
    }
}

/// Reading `s` line by line: the fields set by the complete lines and the
/// start of the line being read.
pub open spec fn scan_lines(s: Seq<char>) -> (TomlGameView, Seq<char>)
    decreases s.len(),
{
    if s.len() == 0 {
        (no_fields(), Seq::empty())
    } else {
        let (f, cur) = scan_lines(s.drop_last());
        if s.last() == '\n' {
            (spec_apply_line(f, cur), Seq::empty())
        } else {
            (f, cur.push(s.last()))
        }
    }
}

/// The fields that the lines of `s` set, later lines overriding earlier ones.
/// (A `\r` before a line break is white space, so it is trimmed away.)
pub open spec fn line_fields(s: Seq<char>) -> TomlGameView {
    let (f, cur) = scan_lines(s);
    spec_apply_line(f, cur)
}

pub open spec fn entry_from(f: TomlGameView) -> Option<GameEntryView> {
    match (f.name, f.command) {
        (Some(name), Some(command)) => Some(GameEntryView { id: 0, name, command, cover: f.cover }),
        _ => None,
    }
}

/// The game a descriptor describes: what the TOML parser read, where it read
/// both a name and a command; otherwise what the line reader finds, where it
/// finds both.
pub open spec fn spec_parse_game(contents: Seq<char>, parsed: Option<TomlGameView>) -> Option<
    GameEntryView,
> {
    match parsed {
        Some(tg) if tg.name is Some && tg.command is Some => entry_from(tg),
        _ => entry_from(line_fields(contents)),
    }
}

/// Applies one line (`v[lo..hi]`) to the fields read so far.
fn apply_line(
    fields: &mut TomlGame,
    v: &[char],
    lo: usize,
    hi: usize,
    keys: &(Vec<char>, Vec<char>, Vec<char>),
)
    requires
        lo <= hi <= v@.len(),
        keys.0@ == "name"@,
        keys.1@ == "exec"@,
        keys.2@ == "cover"@,
    ensures
        final(fields)@ == spec_apply_line(old(fields)@, v@.subrange(lo as int, hi as int)),
{
    let (a, b) = trim_bounds(v, lo, hi);
    let ghost line = v@.subrange(a as int, b as int);
    if a == b || v[a] == '#' || v[a] == '[' {
        return;
    }
    let eq = find_char(v, a, b, '=');
    let k = match eq {
        None => {
            return;
        },
        Some(k) => k,
    };
    proof {
        assert(line.subrange(0, k - a) =~= v@.subrange(a as int, k as int));
        assert(line.subrange(k - a + 1, line.len() as int) =~= v@.subrange(k + 1, b as int));
    }
    let (ka, kb) = trim_bounds(v, a, k);
    let (va, vb) = trim_bounds(v, k + 1, b);
    let ghost trimmed_value = v@.subrange(va as int, vb as int);
    let (va, vb) = if vb - va >= 2 && v[va] == '"' && v[vb - 1] == '"' {
        proof {
            assert(trimmed_value.subrange(1, trimmed_value.len() - 1) =~= v@.subrange(
                va + 1,
                vb - 1,
            ));
        }
        (va + 1, vb - 1)
    } else {
        (va, vb)
    };
    if range_eq(v, ka, kb, keys.0.as_slice()) {
        fields.name = Some(string_of(v, va, vb));
    } else if range_eq(v, ka, kb, keys.1.as_slice()) {
        fields.command = Some(string_of(v, va, vb));
    } else if range_eq(v, ka, kb, keys.2.as_slice()) {
        fields.cover = Some(string_of(v, va, vb));
    }
}

/// The fields that the lines of `contents` set.
fn read_lines(contents: &str) -> (f: TomlGame)
    ensures
        f@ == line_fields(contents@),
{
    let v = chars_of(contents);
    let keys = (chars_of("name"), chars_of("exec"), chars_of("cover"));
    let mut fields = TomlGame { name: None, command: None, cover: None };
    let mut start: usize = 0;
    let mut i: usize = 0;
    proof {
        assert(v@.take(0) =~= Seq::<char>::empty());
        assert(v@.subrange(0, 0) =~= Seq::<char>::empty());
    }
    while i < v.len()
        invariant
            0 <= start <= i <= v@.len(),
            keys.0@ == "name"@,
            keys.1@ == "exec"@,
            keys.2@ == "cover"@,
            scan_lines(v@.take(i as int)) == (fields@, v@.subrange(start as int, i as int)),
        decreases v@.len() - i,
    {
        proof {
            assert(v@.take(i + 1).drop_last() =~= v@.take(i as int));
        }
        if v[i] == '\n' {
            apply_line(&mut fields, v.as_slice(), start, i, &keys);
            start = i + 1;
            proof {
                assert(v@.subrange(start as int, i + 1) =~= Seq::<char>::empty());
            }
        } else {
            proof {
                assert(v@.subrange(start as int, i + 1) =~= v@.subrange(
                    start as int,
                    i as int,
                ).push(v@[i as int]));
            }
        }
        i = i + 1;
    }
    proof {
        assert(v@.take(v@.len() as int) =~= v@);
    }
    apply_line(&mut fields, v.as_slice(), start, v.len(), &keys);
    fields
}

/// Reads a game descriptor. `parsed` is what a TOML parser made of
/// `contents`, where it could parse it; when it has both a name and a
/// command it is taken as it is, and otherwise the contents are read line by
/// line as `key = value` pairs.
pub fn parse_game_contents(contents: &str, parsed: Option<TomlGame>) -> (r: Option<GameEntry>)
    ensures
        r matches Some(g) ==> spec_parse_game(contents@, opt_toml_view(parsed)) == Some(g@),
        r is None ==> spec_parse_game(contents@, opt_toml_view(parsed)) is None,
{
    if let Some(tg) = parsed {
        if tg.name.is_some() && tg.command.is_some() {
            let TomlGame { name, command, cover } = tg;
            if let (Some(name), Some(command)) = (name, command) {
                return Some(GameEntry { id: 0, name, command, cover });
            }
        }
    }
    let f = read_lines(contents);
    let TomlGame { name, command, cover } = f;
    match (name, command) {
        (Some(name), Some(command)) => Some(GameEntry { id: 0, name, command, cover }),
        _ => None,
    }
}

pub open spec fn opt_toml_view(o: Option<TomlGame>) -> Option<TomlGameView> {
    match o {
        Some(t) => Some(t@),
        None => None,
    }
}

/// The games kept from the descriptors found, numbered in order: those that
/// were read and have a non-empty command.
pub open spec fn kept_games(found: Seq<Option<GameEntryView>>) -> Seq<GameEntryView>
    decreases found.len(),
{
    if found.len() == 0 {
        Seq::empty()
    } else {
        let kept = kept_games(found.drop_last());
        match found.last() {
            Some(g) if g.command.len() > 0 => kept.push(
                GameEntryView { id: kept.len() as u32, ..g },
            ),
            _ => kept,
        }
    }
}

/// The entry shown when no game was found.
pub open spec fn fallback_game() -> GameEntryView {
    GameEntryView { id: 0, name: "Howdy!"@, command: Seq::empty(), cover: None }
}

/// The game list: the kept games, or the fallback entry alone when there
/// are none.
pub open spec fn spec_load_games(found: Seq<Option<GameEntryView>>) -> Seq<GameEntryView> {
    let kept = kept_games(found);
    if kept.len() == 0 {
        seq![fallback_game()]
    } else {
        kept
    }
}

pub open spec fn opt_entry_view(o: Option<GameEntry>) -> Option<GameEntryView> {
    match o {
        Some(g) => Some(g@),
        None => None,
    }
}

pub proof fn lemma_kept_games(found: Seq<Option<GameEntryView>>)
    requires
        kept_games(found).len() <= u32::MAX + 1,
    ensures
        kept_games(found).len() <= found.len(),
        forall|i: int|
            0 <= i < kept_games(found).len() ==> #[trigger] kept_games(found)[i].id == i
                && kept_games(found)[i].command.len() > 0,
    decreases found.len(),
{
    if found.len() > 0 {
        assert(kept_games(found.drop_last()).len() <= kept_games(found).len());
        lemma_kept_games(found.drop_last());
    }
}

/// Builds the game list from the descriptors found, in the order found
/// (`None` for one that could not be read or parsed).
pub fn load_games(found: Vec<Option<GameEntry>>) -> (games: Vec<GameEntry>)
    requires
        kept_games(found@.map_values(|o: Option<GameEntry>| opt_entry_view(o))).len() <= u32::MAX,
    ensures
        games@.map_values(|g: GameEntry| g@) == spec_load_games(
            found@.map_values(|o: Option<GameEntry>| opt_entry_view(o)),
        ),
        games@.len() >= 1,
        forall|i: int| 0 <= i < games@.len() ==> #[trigger] games@[i].id == i,
{
    let ghost fv = found@.map_values(|o: Option<GameEntry>| opt_entry_view(o));
    let mut games: Vec<GameEntry> = Vec::new();
    let mut next_id: u32 = 0;
    let ghost n = fv.len();
    proof {
        lemma_kept_games(fv);
    }
    for item in it: found
        invariant
            n == fv.len(),
            it.seq().len() == n,
            forall|j: int| 0 <= j < n ==> opt_entry_view(#[trigger] it.seq()[j]) == fv[j],
            games@.map_values(|g: GameEntry| g@) == kept_games(fv.take(it.index())),
            next_id == games@.len(),
            kept_games(fv).len() <= u32::MAX,
    {
        let ghost i = it.index();
        proof {
            assert(fv.take(i + 1).drop_last() =~= fv.take(i));
            lemma_kept_prefix(fv, i + 1);
        }
        match item {
            Some(mut game) => {
                if !game.command.as_str().is_empty() {
                    game.id = next_id;
                    next_id += 1;
                    games.push(game);
                }
            },
            None => {},
        }
        proof {
            assert(games@.map_values(|g: GameEntry| g@) =~= kept_games(fv.take(i + 1)));
        }
    }
    proof {
        assert(fv.take(n as int) =~= fv);
    }
    if games.len() == 0 {
        games.push(
            GameEntry {
                id: 0,
                name: String::from_str("Howdy!"),
                command: String::new(),
                cover: None,
            },
        );
        proof {
            assert(games@.map_values(|g: GameEntry| g@) =~= seq![fallback_game()]);
        }
    }
    proof {
        assert forall|i: int| 0 <= i < games@.len() implies #[trigger] games@[i].id == i by {
            assert(games@.map_values(|g: GameEntry| g@)[i] == games@[i]@);
            if kept_games(fv).len() > 0 {
                assert(kept_games(fv)[i].id == i);
            }
        }
    }
    games
}

proof fn lemma_kept_prefix(found: Seq<Option<GameEntryView>>, k: int)
    requires
        0 <= k <= found.len(),
    ensures
        kept_games(found.take(k)).len() <= kept_games(found).len(),
    decreases found.len(),
{
    if k < found.len() {
        assert(found.drop_last().take(k) =~= found.take(k));
        lemma_kept_prefix(found.drop_last(), k);
    } else {
        assert(found.take(k) =~= found);
    }
}

/// A descriptor that yields a game: it was read, and its command is not
/// empty.
pub open spec fn is_kept(o: Option<GameEntryView>) -> bool {
    o matches Some(g) && g.command.len() > 0
}

/// How many of the descriptors found yield a game.
pub open spec fn kept_count(found: Seq<Option<GameEntryView>>) -> nat
    decreases found.len(),
{
    if found.len() == 0 {
        0
    } else {
        kept_count(found.drop_last()) + if is_kept(found.last()) {
            1nat
        } else {
            0nat
        }
    }
}

proof fn lemma_kept_count_prefix(found: Seq<Option<GameEntryView>>, k: int)
    requires
        0 <= k <= found.len(),
    ensures
        kept_count(found.take(k)) <= kept_count(found),
        k < found.len() ==> kept_count(found.take(k + 1)) == kept_count(found.take(k)) + if is_kept(
            found[k],
        ) {
            1nat
        } else {
            0nat
        },
    decreases found.len(),
{
    if k < found.len() {
        assert(found.take(k + 1).drop_last() =~= found.take(k));
        assert(found.drop_last().take(k) =~= found.take(k));
        lemma_kept_count_prefix(found.drop_last(), k);
    } else {
        assert(found.take(k) =~= found);
    }
}

/// Every descriptor that was read and names a command yields a game, whatever
/// else it sets (a cover or not), and no other one does: the `k`-th game kept
/// is the `k`-th such descriptor, numbered `k`, with its name, command and
/// cover as read, and there are as many games as such descriptors.
pub proof fn lemma_kept_games_exact(found: Seq<Option<GameEntryView>>)
    ensures
        kept_games(found).len() == kept_count(found),
        forall|j: int|
            0 <= j < found.len() && is_kept(#[trigger] found[j]) ==> {
                let k = kept_count(found.take(j));
                let g = kept_games(found)[k as int];
                &&& k < kept_games(found).len()
                &&& g.id == k as u32
                &&& g.name == found[j]->0.name
                &&& g.command == found[j]->0.command
                &&& g.cover == found[j]->0.cover
            },
    decreases found.len(),
{
    if found.len() > 0 {
        let p = found.drop_last();
        lemma_kept_games_exact(p);
        assert forall|j: int| 0 <= j < found.len() && is_kept(#[trigger] found[j]) implies {
            let k = kept_count(found.take(j));
            let g = kept_games(found)[k as int];
            &&& k < kept_games(found).len()
            &&& g.id == k as u32
            &&& g.name == found[j]->0.name
            &&& g.command == found[j]->0.command
            &&& g.cover == found[j]->0.cover
        } by {
            if j < found.len() - 1 {
                assert(found.take(j) =~= p.take(j));
                assert(p[j] == found[j]);
                lemma_kept_count_prefix(p, j);
                lemma_kept_count_prefix(p, j + 1);
            } else {
                assert(found.take(j) =~= p);
            }
        }
    }
}

/// The game list holds the kept games where there is one, and the fallback
/// entry alone otherwise.
pub proof fn lemma_load_games_list(found: Seq<Option<GameEntryView>>)
    ensures
        kept_count(found) > 0 ==> spec_load_games(found) == kept_games(found),
        kept_count(found) == 0 ==> spec_load_games(found) == seq![fallback_game()],
{
    lemma_kept_games_exact(found);
}

/// Byte strings in lexicographic order: the order of `[u8]`, `OsStr` and of
/// paths that differ only in their last component.
pub open spec fn lex_le(a: Seq<u8>, b: Seq<u8>) -> bool
    decreases a.len(),
{
    if a.len() == 0 {
        true
    } else if b.len() == 0 {
        false
    } else if a[0] != b[0] {
        a[0] < b[0]
    } else {
        lex_le(a.drop_first(), b.drop_first())
    }
}

pub proof fn lemma_lex_total(a: Seq<u8>, b: Seq<u8>)
    ensures
        lex_le(a, b) || lex_le(b, a),
    decreases a.len(),
{
    if a.len() > 0 && b.len() > 0 && a[0] == b[0] {
        lemma_lex_total(a.drop_first(), b.drop_first());
    }
}

pub proof fn lemma_lex_transitive(a: Seq<u8>, b: Seq<u8>, c: Seq<u8>)
    requires
        lex_le(a, b),
        lex_le(b, c),
    ensures
        lex_le(a, c),
    decreases a.len(),
{
    if a.len() > 0 && b.len() > 0 && c.len() > 0 && a[0] == b[0] && b[0] == c[0] {
        lemma_lex_transitive(a.drop_first(), b.drop_first(), c.drop_first());
    }
}

pub proof fn lemma_lex_antisymmetric(a: Seq<u8>, b: Seq<u8>)
    requires
        lex_le(a, b),
        lex_le(b, a),
    ensures
        a == b,
    decreases a.len(),
{
    if a.len() > 0 {
        lemma_lex_antisymmetric(a.drop_first(), b.drop_first());
        assert(a =~= seq![a[0]] + a.drop_first());
        assert(b =~= seq![b[0]] + b.drop_first());
    } else {
        assert(a =~= b);
    }
}

/// Whether `a` comes no later than `b` in lexicographic order.
fn bytes_le(a: &Vec<u8>, b: &Vec<u8>) -> (r: bool)
    ensures
        r == lex_le(a@, b@),
{
    let mut i: usize = 0;
    proof {
        assert(a@.skip(0) =~= a@);
        assert(b@.skip(0) =~= b@);
    }
    while i < a.len() && i < b.len()
        invariant
            0 <= i <= a@.len(),
            i <= b@.len(),
            lex_le(a@, b@) == lex_le(a@.skip(i as int), b@.skip(i as int)),
        decreases a@.len() - i,
    {
        proof {
            assert(a@.skip(i as int).drop_first() =~= a@.skip(i + 1));
            assert(b@.skip(i as int).drop_first() =~= b@.skip(i + 1));
        }
        if a[i] != b[i] {
            return a[i] < b[i];
        }
        i = i + 1;
    }
    a.len() <= b.len()
}

/// A sequence in ascending lexicographic order.
pub open spec fn lex_sorted(s: Seq<Seq<u8>>) -> bool {
    forall|i: int, j: int| 0 <= i < j < s.len() ==> lex_le(s[i], s[j])
}

/// A file name whose extension, as `Path::extension` reads it, is `toml`:
/// it ends in `.toml` and something comes before that dot.
pub open spec fn is_toml_name(name: Seq<u8>) -> bool {
    &&& name.len() >= 6
    &&& name.subrange(name.len() - 5, name.len() as int) == seq![0x2eu8, 0x74u8, 0x6fu8, 0x6du8, 0x6cu8]
}

/// The names of `names` that are `.toml` files, in their order.
pub open spec fn toml_names(names: Seq<Seq<u8>>) -> Seq<Seq<u8>>
    decreases names.len(),
{
    if names.len() == 0 {
        Seq::empty()
    } else if is_toml_name(names.last()) {
        toml_names(names.drop_last()).push(names.last())
    } else {
        toml_names(names.drop_last())
    }
}

fn name_is_toml(name: &Vec<u8>) -> (r: bool)
    ensures
        r == is_toml_name(name@),
{
    let n = name.len();
    if n < 6 {
        return false;
    }
    let r = name[n - 5] == 0x2e && name[n - 4] == 0x74 && name[n - 3] == 0x6f && name[n - 2]
        == 0x6d && name[n - 1] == 0x6c;
    proof {
        let t = name@.subrange(n - 5, n as int);
        let lit = seq![0x2eu8, 0x74u8, 0x6fu8, 0x6du8, 0x6cu8];
        if r {
            assert(t =~= lit);
        } else {
            assert(t != lit) by {
                if t == lit {
                    assert(t[0] == lit[0] && t[1] == lit[1] && t[2] == lit[2] && t[3] == lit[3]
                        && t[4] == lit[4]);
                }
            }
        }
    }
    r
}

/// The descriptor files of one directory, given the names of its regular
/// files: the names with the extension `toml`, in ascending order.
pub fn descriptor_names(names: Vec<Vec<u8>>) -> (kept: Vec<Vec<u8>>)
    ensures
        lex_sorted(kept@.map_values(|v: Vec<u8>| v@)),
        kept@.map_values(|v: Vec<u8>| v@).to_multiset() == toml_names(
            names@.map_values(|v: Vec<u8>| v@),
        ).to_multiset(),
{
    let ghost nv = names@.map_values(|v: Vec<u8>| v@);
    let ghost n = nv.len();
    let mut kept: Vec<Vec<u8>> = Vec::new();
    proof {
        assert(nv.take(0) =~= Seq::<Seq<u8>>::empty());
        assert(kept@.map_values(|v: Vec<u8>| v@) =~= Seq::<Seq<u8>>::empty());
    }
    for name in it: names
        invariant
            n == nv.len(),
            it.seq().len() == n,
            forall|j: int| 0 <= j < n ==> (#[trigger] it.seq()[j])@ == nv[j],
            lex_sorted(kept@.map_values(|v: Vec<u8>| v@)),
            kept@.map_values(|v: Vec<u8>| v@).to_multiset() == toml_names(
                nv.take(it.index()),
            ).to_multiset(),
    {
        let ghost i = it.index();
        let ghost before = kept@.map_values(|v: Vec<u8>| v@);
        proof {
            assert(nv.take(i + 1).drop_last() =~= nv.take(i));
            assert(nv.take(i + 1).last() == name@);
        }
        if name_is_toml(&name) {
            let mut pos: usize = 0;
            while pos < kept.len() && bytes_le(&kept[pos], &name)
                invariant
                    0 <= pos <= kept@.len(),
                    before == kept@.map_values(|v: Vec<u8>| v@),
                    forall|k: int| 0 <= k < pos ==> lex_le(before[k], name@),
                decreases kept@.len() - pos,
            {
                pos = pos + 1;
            }
            proof {
                if pos < kept@.len() {
                    lemma_lex_total(before[pos as int], name@);
                    assert forall|k: int| pos <= k < before.len() implies lex_le(
                        name@,
                        before[k],
                    ) by {
                        if k > pos {
                            lemma_lex_transitive(name@, before[pos as int], before[k]);
                        }
                    }
                }
            }
            let ghost nm = name@;
            kept.insert(pos, name);
            proof {
                let after = kept@.map_values(|v: Vec<u8>| v@);
                assert(after =~= before.insert(pos as int, nm));
                let t = toml_names(nv.take(i));
                assert(toml_names(nv.take(i + 1)) == t.push(nm));
                vstd::seq_lib::to_multiset_build(t, nm);
                vstd::seq_lib::to_multiset_insert(before, pos as int, nm);
                assert(lex_sorted(after)) by {
                    assert forall|a: int, b: int| 0 <= a < b < after.len() implies lex_le(
                        after[a],
                        after[b],
                    ) by {
                        if b < pos {
                        } else if a < pos && b == pos {
                        } else if a < pos {
                            assert(after[b] == before[b - 1]);
                        } else if a == pos {
                            assert(after[b] == before[b - 1]);
                        } else {
                            assert(after[a] == before[a - 1]);
                            assert(after[b] == before[b - 1]);
                        }
                    }
                }
            }
        } else {
            proof {
                assert(toml_names(nv.take(i + 1)) == toml_names(nv.take(i)));
            }
        }
    }
    proof {
        assert(nv.take(n as int) =~= nv);
    }
    kept
}

/// Reading a `:`-separated list: the non-empty parts completed so far and
/// the part being read.
pub open spec fn scan_dirs(s: Seq<char>) -> (Seq<Seq<char>>, Seq<char>)
    decreases s.len(),
{
    if s.len() == 0 {
        (Seq::empty(), Seq::empty())
    } else {
        let (done, cur) = scan_dirs(s.drop_last());
        if s.last() == ':' {
            (if cur.len() > 0 { done.push(cur) } else { done }, Seq::empty())
        } else {
            (done, cur.push(s.last()))
        }
    }
}

/// The non-empty `:`-separated parts of `s`, in order.
pub open spec fn colon_parts(s: Seq<char>) -> Seq<Seq<char>> {
    let (done, cur) = scan_dirs(s);
    if cur.len() > 0 {
        done.push(cur)
    } else {
        done
    }
}

/// The game directories named by a `:`-separated list (as in `GAME_DIRS`),
/// empty entries skipped.
pub fn game_dirs(list: &str) -> (dirs: Vec<String>)
    ensures
        dirs@.map_values(|d: String| d@) == colon_parts(list@),
{
    let v = chars_of(list);
    let mut dirs: Vec<String> = Vec::new();
    let mut start: usize = 0;
    let mut i: usize = 0;
    proof {
        assert(v@.take(0) =~= Seq::<char>::empty());
        assert(v@.subrange(0, 0) =~= Seq::<char>::empty());
        assert(dirs@.map_values(|d: String| d@) =~= Seq::<Seq<char>>::empty());
    }
    while i < v.len()
        invariant
            0 <= start <= i <= v@.len(),
            scan_dirs(v@.take(i as int)) == (
                dirs@.map_values(|d: String| d@),
                v@.subrange(start as int, i as int),
            ),
        decreases v@.len() - i,
    {
        proof {
            assert(v@.take(i + 1).drop_last() =~= v@.take(i as int));
        }
        if v[i] == ':' {
            if start < i {
                let part = string_of(v.as_slice(), start, i);
                dirs.push(part);
            }
            start = i + 1;
            proof {
                assert(v@.subrange(start as int, i + 1) =~= Seq::<char>::empty());
                assert(dirs@.map_values(|d: String| d@) =~= scan_dirs(v@.take(i + 1)).0);
            }
        } else {
            proof {
                assert(v@.subrange(start as int, i + 1) =~= v@.subrange(
                    start as int,
                    i as int,
                ).push(v@[i as int]));
            }
        }
        i = i + 1;
    }
    proof {
        assert(v@.take(v@.len() as int) =~= v@);
    }
    if start < v.len() {
        let part = string_of(v.as_slice(), start, v.len());
        dirs.push(part);
    }
    proof {
        assert(dirs@.map_values(|d: String| d@) =~= colon_parts(v@));
    }
    dirs
}

} // verus!
