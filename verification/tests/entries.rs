use arkana::entries::{load_games, parse_game_contents, GameEntry, TomlGame};

/// What a TOML parser makes of a descriptor with optional string fields
/// `name`, `exec` and `cover` (other keys ignored).
fn toml_game(contents: &str) -> Option<TomlGame> {
    let table: toml::Table = contents.parse().ok()?;
    let field = |key: &str| -> Result<Option<String>, ()> {
        match table.get(key) {
            None => Ok(None),
            Some(toml::Value::String(s)) => Ok(Some(s.clone())),
            Some(_) => Err(()),
        }
    };
    Some(TomlGame {
        name: field("name").ok()?,
        command: field("exec").ok()?,
        cover: field("cover").ok()?,
    })
}

fn parse(contents: &str) -> Option<GameEntry> {
    parse_game_contents(contents, toml_game(contents))
}

#[test]
fn test_parse_standard_toml() {
    let toml_str = r#"
            name = "Sonic Adventure"
            exec = "sonic-adventure"
            cover = "/games/sonic/cover.png"
        "#;
    let game = parse(toml_str).unwrap();
    assert_eq!(game.name, "Sonic Adventure");
    assert_eq!(game.command, "sonic-adventure");
    assert_eq!(game.cover, Some("/games/sonic/cover.png".to_string()));
}

#[test]
fn test_parse_unquoted() {
    let toml_str = "name = Sonic\nexec = sonic\n";
    let game = parse(toml_str).unwrap();
    assert_eq!(game.name, "Sonic");
    assert_eq!(game.command, "sonic");
    assert_eq!(game.cover, None);
}

#[test]
fn toml_values_are_taken_as_parsed() {
    let contents = "name = \"Tab\\tName\"\nexec = 'run --fast'\n";
    let game = parse(contents).unwrap();
    assert_eq!(game.name, "Tab\tName");
    assert_eq!(game.command, "run --fast");
}

#[test]
fn missing_command_gives_nothing() {
    assert!(parse("name = \"Only a name\"\n").is_none());
    assert!(parse("exec = run\n").is_none());
    assert!(parse("").is_none());
}

#[test]
fn line_reader_skips_comments_sections_and_junk() {
    let contents = "# a comment\n[game]\nno equals sign\n  name  =  \"Quoted\"  \r\nexec=go\nother = x\n";
    let game = parse_game_contents(contents, None).unwrap();
    assert_eq!(game.name, "Quoted");
    assert_eq!(game.command, "go");
    assert_eq!(game.cover, None);
}

#[test]
fn line_reader_later_lines_override_and_split_at_first_equals() {
    let contents = "name = first\nname = second\nexec = a=b\ncover=\"\"\n";
    let game = parse_game_contents(contents, None).unwrap();
    assert_eq!(game.name, "second");
    assert_eq!(game.command, "a=b");
    assert_eq!(game.cover, Some(String::new()));
}

#[test]
fn line_reader_keeps_a_lone_quote() {
    let game = parse_game_contents("name = \"\nexec = x", None).unwrap();
    assert_eq!(game.name, "\"");
    assert_eq!(game.command, "x");
}

#[test]
fn line_reader_trims_unicode_white_space() {
    let game = parse_game_contents("name =\u{3000}Wide\u{a0}\nexec = x", None).unwrap();
    assert_eq!(game.name, "Wide");
}

#[test]
fn toml_result_without_a_command_falls_back_to_lines() {
    let parsed = TomlGame { name: Some("Parsed".to_string()), command: None, cover: None };
    let game = parse_game_contents("name = Line\nexec = run", Some(parsed)).unwrap();
    assert_eq!(game.name, "Line");
    assert_eq!(game.command, "run");
}

fn entry(name: &str, command: &str) -> GameEntry {
    GameEntry { id: 77, name: name.to_string(), command: command.to_string(), cover: None }
}

#[test]
fn load_games_numbers_the_games_with_a_command() {
    let games = load_games(vec![
        Some(entry("A", "a")),
        None,
        Some(entry("Empty", "")),
        Some(entry("B", "b")),
    ]);
    assert_eq!(games.len(), 2);
    assert_eq!((games[0].id, games[0].name.as_str()), (0, "A"));
    assert_eq!((games[1].id, games[1].name.as_str()), (1, "B"));
}

#[test]
fn load_games_falls_back_to_a_greeting() {
    let games = load_games(vec![None, Some(entry("Empty", ""))]);
    assert_eq!(games.len(), 1);
    assert_eq!(games[0].id, 0);
    assert_eq!(games[0].name, "Howdy!");
    assert_eq!(games[0].command, "");
    assert_eq!(games[0].cover, None);
    assert_eq!(load_games(Vec::new())[0].name, "Howdy!");
}

use arkana::entries::descriptor_names;

fn names(list: &[&str]) -> Vec<Vec<u8>> {
    list.iter().map(|s| s.as_bytes().to_vec()).collect()
}

#[test]
fn descriptor_names_keeps_toml_files_in_ascending_order() {
    let kept = descriptor_names(names(&[
        "zelda.toml",
        "readme.txt",
        "Abc.toml",
        ".toml",
        "..toml",
        "archive.toml.bak",
        "mario.TOML",
        "b.toml",
        "toml",
        "a.b.toml",
    ]));
    assert_eq!(kept, names(&["..toml", "Abc.toml", "a.b.toml", "b.toml", "zelda.toml"]));
}

#[test]
fn descriptor_names_orders_by_bytes() {
    let kept = descriptor_names(vec![
        b"ab.toml".to_vec(),
        b"a.toml".to_vec(),
        vec![0xff, b'.', b't', b'o', b'm', b'l'],
        b"a_.toml".to_vec(),
    ]);
    assert_eq!(
        kept,
        vec![
            b"a.toml".to_vec(),
            b"a_.toml".to_vec(),
            b"ab.toml".to_vec(),
            vec![0xff, b'.', b't', b'o', b'm', b'l'],
        ]
    );
    assert!(descriptor_names(Vec::new()).is_empty());
}

use arkana::entries::game_dirs;

#[test]
fn game_dirs_splits_on_colons_and_skips_empty_parts() {
    assert_eq!(game_dirs("/games:/opt/arkana/roms"), vec!["/games", "/opt/arkana/roms"]);
    assert_eq!(game_dirs("::/a::b:"), vec!["/a", "b"]);
    assert_eq!(game_dirs(""), Vec::<String>::new());
    assert_eq!(game_dirs(":"), Vec::<String>::new());
    assert_eq!(game_dirs("/only"), vec!["/only"]);
}
