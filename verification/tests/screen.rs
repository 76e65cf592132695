use arkana::terminal::Screen;

#[test]
fn test_screen_basic() {
    let mut screen = Screen::new();
    screen.feed(b"Hello World");
    let text = screen.as_text();
    assert!(text.starts_with("Hello World"));
}

#[test]
fn test_screen_cursor_and_newlines() {
    let mut screen = Screen::new();
    screen.feed(b"Line 1\r\nLine 2");
    let text = screen.as_text();
    let lines: Vec<&str> = text.lines().collect();
    assert!(lines[0].starts_with("Line 1"));
    assert!(lines[1].starts_with("Line 2"));
}

#[test]
fn test_screen_ansi_cursor() {
    let mut screen = Screen::new();
    // CSI 2;5H -> move to row 2 (index 1), col 5 (index 4)
    screen.feed(b"\x1b[2;5HTest");
    let text = screen.as_text();
    let lines: Vec<&str> = text.lines().collect();
    assert_eq!(&lines[1][4..8], "Test");
}

use arkana::terminal::terminal_key_to_bytes;

fn screen_lines(screen: &Screen) -> Vec<String> {
    screen.as_text().split('\n').map(|l| l.to_string()).collect()
}

#[test]
fn blank_screen_has_full_rows_of_spaces() {
    let screen = Screen::new();
    let lines = screen_lines(&screen);
    assert_eq!(lines.len(), 22);
    for line in &lines {
        assert_eq!(line.as_str(), " ".repeat(80));
    }
}

#[test]
fn printed_text_fills_the_first_row() {
    let mut screen = Screen::new();
    screen.feed(b"Hello World");
    let lines = screen_lines(&screen);
    assert_eq!(lines[0], format!("Hello World{}", " ".repeat(69)));
}

#[test]
fn long_line_wraps_to_next_row() {
    let mut screen = Screen::new();
    let data: Vec<u8> = (0..85).map(|i| b'a' + (i % 26) as u8).collect();
    screen.feed(&data);
    let lines = screen_lines(&screen);
    assert_eq!(lines[0].as_bytes(), &data[..80]);
    assert!(lines[1].starts_with("cdefg"));
}

#[test]
fn newline_on_last_row_scrolls_up() {
    let mut screen = Screen::new();
    screen.feed(b"top");
    for _ in 0..21 {
        screen.feed(b"\n");
    }
    screen.feed(b"\rbottom");
    let lines = screen_lines(&screen);
    assert!(lines[0].starts_with("top"));
    assert!(lines[21].starts_with("bottom"));
    screen.feed(b"\n");
    let lines = screen_lines(&screen);
    assert_eq!(lines[0], " ".repeat(80));
    assert!(lines[20].starts_with("bottom"));
    assert_eq!(lines[21], " ".repeat(80));
}

#[test]
fn tab_moves_to_next_stop_and_backspace_moves_back() {
    let mut screen = Screen::new();
    screen.feed(b"ab\tX");
    let lines = screen_lines(&screen);
    assert_eq!(&lines[0][..9], "ab      X");
    screen.feed(b"\x08\x08Y");
    let lines = screen_lines(&screen);
    assert_eq!(&lines[0][..9], "ab     YX");
}

#[test]
fn tab_stops_at_last_column() {
    let mut screen = Screen::new();
    screen.feed(b"\x1b[1;78H\tZ");
    let lines = screen_lines(&screen);
    assert_eq!(&lines[0][79..80], "Z");
}

#[test]
fn cursor_moves_relative_and_absolute() {
    let mut screen = Screen::new();
    screen.feed(b"\x1b[5;10H\x1b[2AU\x1b[3BD\x1b[4CR\x1b[20DL\x1b[7GG\x1b[9dV");
    let lines = screen_lines(&screen);
    // row 3 (index 2), col 10 (index 9): U
    assert_eq!(&lines[2][9..10], "U");
    // down 3 from row index 2 -> 5, col index 10: D
    assert_eq!(&lines[5][10..11], "D");
    // forward 4 from col 11 -> 15: R
    assert_eq!(&lines[5][15..16], "R");
    // back 20 from col 16 -> 0: L
    assert_eq!(&lines[5][0..1], "L");
    // column 7 -> index 6: G
    assert_eq!(&lines[5][6..7], "G");
    // row 9 -> index 8, col stays 7: V
    assert_eq!(&lines[8][7..8], "V");
}

#[test]
fn cursor_position_is_clamped_and_zero_counts_as_one() {
    let mut screen = Screen::new();
    screen.feed(b"\x1b[99;999HE");
    // E lands in the last cell; the cursor then wraps and the grid scrolls
    let lines = screen_lines(&screen);
    assert_eq!(&lines[20][79..80], "E");
    screen.feed(b"\x1b[0;0HS");
    let lines = screen_lines(&screen);
    assert_eq!(&lines[0][0..1], "S");
}

#[test]
fn erase_line_modes() {
    let erased = |seq: &[u8]| {
        let mut screen = Screen::new();
        screen.feed(b"0123456789\x1b[1;5H");
        screen.feed(seq);
        screen_lines(&screen)[0].clone()
    };
    assert_eq!(&erased(b"\x1b[0K")[..10], "0123      ");
    assert_eq!(&erased(b"\x1b[1K")[..10], "     56789");
    // a missing parameter reads as 1
    assert_eq!(&erased(b"\x1b[K")[..10], "     56789");
    assert_eq!(erased(b"\x1b[2K"), " ".repeat(80));
}

#[test]
fn erase_screen_modes() {
    let erased = |seq: &[u8]| {
        let mut screen = Screen::new();
        screen.feed(b"aaaa\r\nbbbb\r\ncccc\x1b[2;3H");
        screen.feed(seq);
        screen_lines(&screen)
    };
    let lines = erased(b"\x1b[0J");
    assert!(lines[0].starts_with("aaaa"));
    assert!(lines[1].starts_with("bb  "));
    assert_eq!(lines[2], " ".repeat(80));

    let lines = erased(b"\x1b[1J");
    assert_eq!(lines[0], " ".repeat(80));
    assert!(lines[1].starts_with("   b"));
    assert!(lines[2].starts_with("cccc"));

    // a missing parameter reads as 1
    assert_eq!(erased(b"\x1b[J"), erased(b"\x1b[1J"));

    let mut screen = Screen::new();
    screen.feed(b"aaaa\r\nbbbb\x1b[2JX");
    let lines = screen_lines(&screen);
    assert_eq!(lines[0], " ".repeat(80));
    // the cursor stayed at row 2, col 5
    assert_eq!(&lines[1][..5], "    X");
}

#[test]
fn ignored_and_unknown_sequences_change_nothing() {
    let mut screen = Screen::new();
    screen.feed(b"\x1b[1;31mred\x1b[0m\x1b[?25l\x1bcX\x1b[5q");
    assert!(screen_lines(&screen)[0].starts_with("redX"));
}

#[test]
fn control_bytes_are_not_shown() {
    let mut screen = Screen::new();
    screen.feed(b"a\x00\x07b");
    assert!(screen_lines(&screen)[0].starts_with("ab "));
}

#[test]
fn invalid_utf8_is_replaced() {
    let mut screen = Screen::new();
    screen.feed(b"\xffA");
    let lines = screen_lines(&screen);
    assert!(lines[0].starts_with("\u{fffd}A"));
}

#[test]
fn utf8_sequences_are_decoded() {
    let mut screen = Screen::new();
    screen.feed("é".as_bytes());
    assert!(screen_lines(&screen)[0].starts_with("é "));
}

#[test]
fn feeding_in_pieces_gives_the_same_screen() {
    let data = b"ab\x1b[3;4Hcd\r\nef\x1b[2Kgh";
    let mut whole = Screen::new();
    whole.feed(data);
    for split in 0..data.len() {
        let mut parts = Screen::new();
        parts.feed(&data[..split]);
        parts.feed(&data[split..]);
        assert_eq!(parts.as_text(), whole.as_text());
    }
}

#[test]
fn try_feed_stops_at_an_overflowing_parameter() {
    let mut screen = Screen::new();
    assert!(screen.try_feed(b"\x1b[2147483647;1Hok"));
    let mut screen = Screen::new();
    assert!(!screen.try_feed(b"ab\x1b[99999999999Hcd"));
    assert!(screen_lines(&screen)[0].starts_with("ab  "));
    // an ignored final byte never reads its parameters
    let mut screen = Screen::new();
    assert!(screen.try_feed(b"\x1b[99999999999mok"));
    assert!(screen_lines(&screen)[0].starts_with("ok"));
}

#[test]
fn terminal_keys_become_sequences() {
    assert_eq!(terminal_key_to_bytes("ArrowUp"), "\x1b[A");
    assert_eq!(terminal_key_to_bytes("ArrowDown"), "\x1b[B");
    assert_eq!(terminal_key_to_bytes("ArrowRight"), "\x1b[C");
    assert_eq!(terminal_key_to_bytes("ArrowLeft"), "\x1b[D");
    assert_eq!(terminal_key_to_bytes("\r"), "\r");
    assert_eq!(terminal_key_to_bytes("\x7f"), "\x7f");
    assert_eq!(terminal_key_to_bytes("\x08"), "\x7f");
    assert_eq!(terminal_key_to_bytes("q"), "q");
    assert_eq!(terminal_key_to_bytes("Arrow"), "Arrow");
}

#[test]
fn text_update_reports_only_changes() {
    let mut screen = Screen::new();
    let mut last = String::new();
    let first = screen.text_update(&mut last).unwrap();
    assert_eq!(first, screen.as_text());
    assert_eq!(last, first);
    assert!(screen.text_update(&mut last).is_none());
    screen.feed(b"\x1b[1;31m");
    assert!(screen.text_update(&mut last).is_none());
    screen.feed(b"x");
    let second = screen.text_update(&mut last).unwrap();
    assert!(second.starts_with("x "));
    assert_eq!(last, second);
}
