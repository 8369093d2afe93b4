use smash::attr::Attr;
use smash::byte_scanner::ByteScanner;
use smash::input::{translate_key, KeyEvent, KeyMods};
use smash::shell::{parse, Command, Shell};
use smash::threaded_ref::ThreadedRef;
use smash::vt100::bprefix;

#[test]
fn attr_bits() {
    let mut a = Attr { val: 0 };
    a.set_bold();
    assert!(a.bold());
    assert_eq!(a.val, 0x100);
    a.set_inverse(true);
    assert!(a.inverse());
    assert_eq!(a.val, 0x300);
    a.set_fg(Some(3));
    assert_eq!(a.fg(), Some(3));
    assert_eq!(a.val, 0x304);
    a.set_bg(Some(7));
    assert_eq!(a.bg(), Some(7));
    assert_eq!(a.val, 0x384);
    a.set_fg(None);
    assert_eq!(a.fg(), None);
    a.set_bg(None);
    assert_eq!(a.bg(), None);
    a.set_inverse(false);
    assert!(!a.inverse());
    assert_eq!(a.val, 0x100);
}

#[test]
fn attr_equality_is_bit_exact() {
    let a = Attr { val: 0x123 };
    let b = Attr { val: 0x123 };
    let c = Attr { val: 0x122 };
    assert_eq!(a, b);
    assert_ne!(a, c);
}

#[test]
fn scanner_next_and_back() {
    let mut s = ByteScanner::new();
    assert!(s.read(b"ab"));
    assert_eq!(s.next(), Some(b'a'));
    s.back();
    assert_eq!(s.next(), Some(b'a'));
    assert_eq!(s.next(), Some(b'b'));
    assert_eq!(s.next(), None);
}

#[test]
fn scanner_refill_preserves_unread() {
    let mut s = ByteScanner::new();
    assert!(s.read(b"abc"));
    assert_eq!(s.next(), Some(b'a'));
    let m = s.mark();
    assert_eq!(s.next(), Some(b'b'));
    s.pop_mark(m);
    assert!(s.read(b"de"));
    assert_eq!(s.next(), Some(b'b'));
    assert_eq!(s.next(), Some(b'c'));
    assert_eq!(s.next(), Some(b'd'));
    assert_eq!(s.next(), Some(b'e'));
    assert_eq!(s.next(), None);
}

#[test]
fn scanner_empty_refill() {
    let mut s = ByteScanner::new();
    assert!(!s.read(b""));
    assert_eq!(s.next(), None);
}

#[test]
fn modifier_only_key_is_silent() {
    let ev = KeyEvent { is_modifier: true, mods: KeyMods::Control, keyval: 65507, unicode: None };
    assert_eq!(translate_key(&ev), Vec::<u8>::new());
}

#[test]
fn control_letters() {
    let ev = KeyEvent {
        is_modifier: false,
        mods: KeyMods::Control,
        keyval: 'a' as u32,
        unicode: Some('a'),
    };
    assert_eq!(translate_key(&ev), vec![1]);
    let ev = KeyEvent {
        is_modifier: false,
        mods: KeyMods::Control,
        keyval: 'z' as u32,
        unicode: Some('z'),
    };
    assert_eq!(translate_key(&ev), vec![26]);
    let ev = KeyEvent {
        is_modifier: false,
        mods: KeyMods::Control,
        keyval: '[' as u32,
        unicode: Some('['),
    };
    assert_eq!(translate_key(&ev), vec![27]);
}

#[test]
fn alt_prefixes_escape() {
    let ev = KeyEvent {
        is_modifier: false,
        mods: KeyMods::Alt,
        keyval: 'f' as u32,
        unicode: Some('f'),
    };
    assert_eq!(translate_key(&ev), vec![27, b'f']);
}

#[test]
fn plain_and_shift_pass_ascii() {
    let ev = KeyEvent {
        is_modifier: false,
        mods: KeyMods::Plain,
        keyval: 'x' as u32,
        unicode: Some('x'),
    };
    assert_eq!(translate_key(&ev), vec![b'x']);
    let ev = KeyEvent {
        is_modifier: false,
        mods: KeyMods::Shift,
        keyval: 'X' as u32,
        unicode: Some('X'),
    };
    assert_eq!(translate_key(&ev), vec![b'X']);
}

#[test]
fn unhandled_key_falls_back() {
    let ev = KeyEvent {
        is_modifier: false,
        mods: KeyMods::Plain,
        keyval: 0x1F600,
        unicode: None,
    };
    assert_eq!(translate_key(&ev), vec![b'?']);
    let ev = KeyEvent {
        is_modifier: false,
        mods: KeyMods::Other,
        keyval: 'a' as u32,
        unicode: Some('a'),
    };
    assert_eq!(translate_key(&ev), vec![b'?']);
}

#[test]
fn parse_external_command() {
    match parse("ls -l /tmp") {
        Command::External(argv) => {
            assert_eq!(argv, vec!["ls".to_string(), "-l".to_string(), "/tmp".to_string()]);
        }
        Command::Builtin => panic!("expected an external command"),
    }
}

#[test]
fn parse_empty_is_builtin() {
    assert!(matches!(parse(""), Command::Builtin));
    assert!(matches!(parse(" ls"), Command::Builtin));
}

#[test]
fn shell_starts_at_root() {
    let sh = Shell::new();
    assert_eq!(sh.cwd, "/");
}

#[test]
fn threaded_ref_same_thread() {
    let mut t = ThreadedRef::new(7);
    assert!(t.check());
    assert_eq!(t.get(), Some(&7));
    assert_eq!(t.take(), Some(7));
    assert_eq!(t.get(), None);
    assert_eq!(t.take(), None);
}

#[test]
fn bprefix_matches_utf8_lead_bytes() {
    assert_eq!(bprefix(0xE6, 4, 0b1110), Some(0x6));
    assert_eq!(bprefix(0x97, 2, 0b10), Some(0x17));
    assert_eq!(bprefix(0x41, 2, 0b10), None);
    assert_eq!(bprefix(0xC3, 3, 0b110), Some(0x3));
}

#[test]
fn matcher_trie() {
    let pat: Vec<u8> = vec![0x1b, b'[', b'?', b'%', b'h'];
    let mut n = smash::matcher::new(&pat, 0, 3);
    n.add(&vec![b'b', b'c'], 0, 4);
    n.add(&vec![b'b', b'd'], 0, 7);
    assert_eq!(smash::matcher::test(&n, &vec![b'b', b'c', b'd']), Some(4));
    assert_eq!(smash::matcher::test(&n, &vec![b'b', b'd']), Some(7));
    assert_eq!(smash::matcher::test(&n, &pat), Some(3));
    assert_eq!(smash::matcher::test(&n, &vec![b'x']), None);
    assert_eq!(smash::matcher::test(&n, &vec![b'b']), None);
}
