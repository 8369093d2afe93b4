use smash::readline::{command, EditCmd, ReadLine};

#[test]
fn append() {
    let mut rl = ReadLine::new();
    rl.insert("a");
    assert_eq!("a", rl.get());
    rl.insert("bc");
    assert_eq!("abc", rl.get());
}

#[test]
fn forward_word() {
    let mut rl = ReadLine::new();
    rl.key("M-f");
    assert_eq!(rl.ofs, 0);

    rl.insert("012 456  9");
    rl.ofs = 3;
    rl.key("M-f");
    assert_eq!(rl.ofs, 7);
    rl.key("M-f");
    assert_eq!(rl.ofs, 10);
    rl.key("M-f");
    assert_eq!(rl.ofs, 10);
}

#[test]
fn backward_word() {
    let mut rl = ReadLine::new();
    rl.key("M-b");
    assert_eq!(rl.ofs, 0);

    rl.insert("012 456  9");
    rl.ofs = 10;
    rl.key("M-b");
    assert_eq!(rl.ofs, 9);
    rl.key("M-b");
    assert_eq!(rl.ofs, 4);
    rl.key("M-b");
    assert_eq!(rl.ofs, 0);
    rl.key("M-b");
    assert_eq!(rl.ofs, 0);
}

#[test]
fn insert_at_cursor() {
    let mut rl = ReadLine::new();
    rl.insert("hello");
    rl.key("C-a");
    assert_eq!(rl.ofs, 0);
    rl.insert("say ");
    assert_eq!("say hello", rl.get());
    assert_eq!(rl.ofs, 4);
}

#[test]
fn kill_line() {
    let mut rl = ReadLine::new();
    rl.insert("hello world");
    rl.ofs = 5;
    assert!(rl.key("C-k"));
    assert_eq!("hello", rl.get());
}

#[test]
fn unix_line_discard() {
    let mut rl = ReadLine::new();
    rl.insert("hello");
    assert!(rl.key("C-u"));
    assert_eq!("", rl.get());
    assert_eq!(rl.ofs, 0);
}

#[test]
fn backward_delete_char() {
    let mut rl = ReadLine::new();
    rl.insert("ab");
    assert!(rl.key("BackSpace"));
    assert_eq!("a", rl.get());
    assert_eq!(rl.ofs, 1);
}

#[test]
fn backward_kill_word() {
    let mut rl = ReadLine::new();
    rl.insert("one two");
    assert!(rl.key("M-BackSpace"));
    assert_eq!("one ", rl.get());
    assert_eq!(rl.ofs, 4);
}

#[test]
fn char_movement() {
    let mut rl = ReadLine::new();
    rl.insert("ab");
    rl.key("Left");
    assert_eq!(rl.ofs, 1);
    rl.key("C-b");
    assert_eq!(rl.ofs, 0);
    rl.key("C-b");
    assert_eq!(rl.ofs, 0);
    rl.key("Right");
    assert_eq!(rl.ofs, 1);
    rl.key("C-e");
    assert_eq!(rl.ofs, 2);
    rl.key("C-f");
    assert_eq!(rl.ofs, 2);
}

#[test]
fn accept_line_sets_flag() {
    let mut rl = ReadLine::new();
    rl.insert("echo hi");
    assert!(!rl.accepted);
    assert!(rl.key("Return"));
    assert!(rl.accepted);
    assert_eq!("echo hi", rl.get());
}

#[test]
fn unknown_key_ignored() {
    let mut rl = ReadLine::new();
    rl.insert("x");
    assert!(!rl.key("F12"));
    assert_eq!("x", rl.get());
    assert_eq!(rl.ofs, 1);
}

#[test]
fn single_byte_key_inserts() {
    let mut rl = ReadLine::new();
    assert!(rl.key("a"));
    assert!(rl.key("!"));
    assert_eq!("a!", rl.get());
}

#[test]
fn command_table() {
    assert_eq!(command("kill-line"), Some(EditCmd::KillLine));
    assert_eq!(command("forward-word"), Some(EditCmd::ForwardWord));
    assert_eq!(command("no-such-command"), None);
}
