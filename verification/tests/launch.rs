use arkana::entries::GameEntry;
use arkana::launch::{handoff_script, launch_command};

#[test]
fn handoff_script_waits_for_the_launcher() {
    assert_eq!(
        handoff_script(4242, "sonic --fullscreen"),
        "while kill -0 4242 2>/dev/null; do sleep 0.2; done\nsonic --fullscreen"
    );
    assert_eq!(
        handoff_script(0, "x"),
        "while kill -0 0 2>/dev/null; do sleep 0.2; done\nx"
    );
    assert_eq!(
        handoff_script(u32::MAX, ""),
        "while kill -0 4294967295 2>/dev/null; do sleep 0.2; done\n"
    );
}

#[test]
fn launch_command_checks_the_index() {
    let games = vec![
        GameEntry { id: 0, name: "A".into(), command: "run-a".into(), cover: None },
        GameEntry { id: 1, name: "Howdy!".into(), command: String::new(), cover: None },
    ];
    assert_eq!(launch_command(&games, 0), Some("run-a".to_string()));
    assert_eq!(launch_command(&games, 1), None);
    assert_eq!(launch_command(&games, 2), None);
    assert_eq!(launch_command(&games, -1), None);
}
