//! The line editor: an edit buffer with a cursor, a table of editing
//! commands, and the key bindings that reach them. Bytes are held as
//! they arrive; the buffer reads back as the characters those bytes
//! denote one for one.
use vstd::prelude::*;

use crate::strutil::str_eq;

verus! {

/// One editing command of the line editor.
#[derive(Clone, Copy, Debug, PartialEq, Eq, Structural)]
pub enum EditCmd {
    BeginningOfLine,
    EndOfLine,
    ForwardChar,
    BackwardChar,
    ForwardWord,
    BackwardWord,
    AcceptLine,
    BackwardDeleteChar,
    KillLine,
    UnixLineDiscard,
    BackwardKillWord,
}

/// A byte that word movement treats as part of a word: an ASCII letter
/// or digit.
pub open spec fn is_word_byte(b: u8) -> bool {
    (0x61 <= b <= 0x7A) || (0x41 <= b <= 0x5A) || (0x30 <= b <= 0x39)
}

/// Whether position `i` of `s` sits on a word byte.
pub open spec fn in_word_at(s: Seq<u8>, i: int) -> bool {
    0 <= i < s.len() && is_word_byte(s[i])
}

/// The first position at or after `i` that sits on a word byte, or the
/// end of `s`.
pub open spec fn scan_to_word(s: Seq<u8>, i: int) -> int
    decreases s.len() - i,
{
    if i >= s.len() || in_word_at(s, i) {
        i
    } else {
        scan_to_word(s, i + 1)
    }
}

/// The first position at or after `i` past the current word.
pub open spec fn scan_past_word(s: Seq<u8>, i: int) -> int
    decreases s.len() - i,
{
    if i >= s.len() || !in_word_at(s, i) {
        i
    } else {
        scan_past_word(s, i + 1)
    }
}

/// Where `forward-word` puts the cursor: skip to the next word, then
/// past it.
pub open spec fn spec_forward_word(s: Seq<u8>, i: int) -> int {
    scan_past_word(s, scan_to_word(s, i))
}

/// The nearest position at or before `i` that sits on a word byte, or 0.
pub open spec fn scan_back_to_word(s: Seq<u8>, i: int) -> int
    decreases i,
{
    if i <= 0 || in_word_at(s, i) {
        i
    } else {
        scan_back_to_word(s, i - 1)
    }
}

/// The nearest position at or before `i` off the current word, or 0.
pub open spec fn scan_back_off_word(s: Seq<u8>, i: int) -> int
    decreases i,
{
    if i <= 0 || !in_word_at(s, i) {
        i
    } else {
        scan_back_off_word(s, i - 1)
    }
}

/// Where `backward-word` puts the cursor: step left once, skip left to
/// a word, skip left off it, then step right off the non-word byte it
/// stopped on.
pub open spec fn spec_backward_word(s: Seq<u8>, i: int) -> int {
    let i1 = if i > 0 {
        i - 1
    } else {
        0
    };
    let i2 = scan_back_to_word(s, i1);
    let i3 = scan_back_off_word(s, i2);
    if i3 < s.len() && !in_word_at(s, i3) {
        i3 + 1
    } else {
        i3
    }
}

/// The mathematical state of the line editor.
pub ghost struct RlModel {
    pub buf: Seq<u8>,
    pub ofs: int,
    pub accepted: bool,
}

/// What one editing command does to the state.
pub open spec fn spec_apply(m: RlModel, cmd: EditCmd) -> RlModel {
    match cmd {
        EditCmd::BeginningOfLine => RlModel { ofs: 0, ..m },
        EditCmd::EndOfLine => RlModel { ofs: m.buf.len() as int, ..m },
        EditCmd::ForwardChar => RlModel {
            ofs: if m.ofs < m.buf.len() {
                m.ofs + 1
            } else {
                m.ofs
            },
            ..m
        },
        EditCmd::BackwardChar => RlModel {
            ofs: if m.ofs > 0 {
                m.ofs - 1
            } else {
                m.ofs
            },
            ..m
        },
        EditCmd::ForwardWord => RlModel { ofs: spec_forward_word(m.buf, m.ofs), ..m },
        EditCmd::BackwardWord => RlModel { ofs: spec_backward_word(m.buf, m.ofs), ..m },
        EditCmd::AcceptLine => RlModel { accepted: true, ..m },
        EditCmd::BackwardDeleteChar => if m.ofs > 0 {
            RlModel { buf: m.buf.remove(m.ofs - 1), ofs: m.ofs - 1, ..m }
        } else {
            m
        },
        EditCmd::KillLine => RlModel { buf: m.buf.take(m.ofs), ..m },
        EditCmd::UnixLineDiscard => RlModel { buf: Seq::empty(), ofs: 0, ..m },
        EditCmd::BackwardKillWord => {
            let start = spec_backward_word(m.buf, m.ofs);
            RlModel { buf: m.buf.take(start) + m.buf.skip(m.ofs), ofs: start, ..m }
        },
    }
}

/// The command a name denotes, as `command` resolves it.
pub open spec fn spec_command(name: Seq<char>) -> Option<EditCmd> {
    if name == "beginning-of-line"@ {
        Option::Some(EditCmd::BeginningOfLine)
    } else if name == "end-of-line"@ {
        Option::Some(EditCmd::EndOfLine)
    } else if name == "forward-char"@ {
        Option::Some(EditCmd::ForwardChar)
    } else if name == "backward-char"@ {
        Option::Some(EditCmd::BackwardChar)
    } else if name == "forward-word"@ {
        Option::Some(EditCmd::ForwardWord)
    } else if name == "backward-word"@ {
        Option::Some(EditCmd::BackwardWord)
    } else if name == "accept-line"@ {
        Option::Some(EditCmd::AcceptLine)
    } else if name == "backward-delete-char"@ {
        Option::Some(EditCmd::BackwardDeleteChar)
    } else if name == "kill-line"@ {
        Option::Some(EditCmd::KillLine)
    } else if name == "unix-line-discard"@ {
        Option::Some(EditCmd::UnixLineDiscard)
    } else if name == "backward-kill-word"@ {
        Option::Some(EditCmd::BackwardKillWord)
    } else {
        Option::None
    }
}

/// The command name a key is bound to, as `binding` resolves it.
pub open spec fn spec_binding(key: &str) -> Option<Seq<char>> {
    if key@ == "C-a"@ {
        Option::Some("beginning-of-line"@)
    } else if key@ == "C-e"@ {
        Option::Some("end-of-line"@)
    } else if key@ == "C-f"@ || key@ == "Right"@ {
        Option::Some("forward-char"@)
    } else if key@ == "C-b"@ || key@ == "Left"@ {
        Option::Some("backward-char"@)
    } else if key@ == "M-f"@ {
        Option::Some("forward-word"@)
    } else if key@ == "M-b"@ {
        Option::Some("backward-word"@)
    } else if key@ == "Return"@ {
        Option::Some("accept-line"@)
    } else if key@ == "BackSpace"@ {
        Option::Some("backward-delete-char"@)
    } else if key@ == "C-k"@ {
        Option::Some("kill-line"@)
    } else if key@ == "C-u"@ {
        Option::Some("unix-line-discard"@)
    } else if key@ == "M-BackSpace"@ {
        Option::Some("backward-kill-word"@)
    } else {
        Option::None
    }
}

/// The command a key reaches: its binding resolved through the command
/// table.
pub open spec fn spec_key_command(key: &str) -> Option<EditCmd> {
    match spec_binding(key) {
        Option::Some(name) => spec_command(name),
        Option::None => Option::None,
    }
}

/// Resolve a command name, as the editor's command table does.
pub fn command(name: &str) -> (r: Option<EditCmd>)
    ensures
        r == spec_command(name@),
{
    if str_eq(name, "beginning-of-line") {
        Option::Some(EditCmd::BeginningOfLine)
    } else if str_eq(name, "end-of-line") {
        Option::Some(EditCmd::EndOfLine)
    } else if str_eq(name, "forward-char") {
        Option::Some(EditCmd::ForwardChar)
    } else if str_eq(name, "backward-char") {
        Option::Some(EditCmd::BackwardChar)
    } else if str_eq(name, "forward-word") {
        Option::Some(EditCmd::ForwardWord)
    } else if str_eq(name, "backward-word") {
        Option::Some(EditCmd::BackwardWord)
    } else if str_eq(name, "accept-line") {
        Option::Some(EditCmd::AcceptLine)
    } else if str_eq(name, "backward-delete-char") {
        Option::Some(EditCmd::BackwardDeleteChar)
    } else if str_eq(name, "kill-line") {
        Option::Some(EditCmd::KillLine)
    } else if str_eq(name, "unix-line-discard") {
        Option::Some(EditCmd::UnixLineDiscard)
    } else if str_eq(name, "backward-kill-word") {
        Option::Some(EditCmd::BackwardKillWord)
    } else {
        Option::None
    }
}

/// Resolve a key to the name of the command it is bound to.
pub fn binding(key: &str) -> (r: Option<&'static str>)
    ensures
        r is Some <==> spec_binding(key) is Some,
        r is Some ==> r->0@ == spec_binding(key)->0,
{
    if str_eq(key, "C-a") {
        Option::Some("beginning-of-line")
    } else if str_eq(key, "C-e") {
        Option::Some("end-of-line")
    } else if str_eq(key, "C-f") || str_eq(key, "Right") {
        Option::Some("forward-char")
    } else if str_eq(key, "C-b") || str_eq(key, "Left") {
        Option::Some("backward-char")
    } else if str_eq(key, "M-f") {
        Option::Some("forward-word")
    } else if str_eq(key, "M-b") {
        Option::Some("backward-word")
    } else if str_eq(key, "Return") {
        Option::Some("accept-line")
    } else if str_eq(key, "BackSpace") {
        Option::Some("backward-delete-char")
    } else if str_eq(key, "C-k") {
        Option::Some("kill-line")
    } else if str_eq(key, "C-u") {
        Option::Some("unix-line-discard")
    } else if str_eq(key, "M-BackSpace") {
        Option::Some("backward-kill-word")
    } else {
        Option::None
    }
}

/// The line editor state: the edit buffer, the cursor offset into it,
/// and whether the line has been accepted since the flag was cleared.
pub struct ReadLine {
    pub buf: Vec<u8>,
    pub ofs: usize,
    pub accepted: bool,
}

impl View for ReadLine {
    type V = RlModel;

    open spec fn view(&self) -> RlModel {
        RlModel { buf: self.buf@, ofs: self.ofs as int, accepted: self.accepted }
    }
}

impl ReadLine {
    pub fn new() -> (r: ReadLine)
        ensures
            r@.buf == Seq::<u8>::empty(),
            r@.ofs == 0,
            r@.accepted == false,
    {
        ReadLine { buf: Vec::new(), ofs: 0, accepted: false }
    }

    /// Insert the bytes of `text` at the cursor and move the cursor
    /// past them.
    pub fn insert(&mut self, text: &str)
        requires
            old(self).ofs <= old(self).buf.len(),
        ensures
            final(self)@.buf == old(self)@.buf.take(old(self)@.ofs)
                + vstd::utf8::encode_utf8(text@) + old(self)@.buf.skip(old(self)@.ofs),
            final(self)@.ofs == old(self)@.ofs + vstd::utf8::encode_utf8(text@).len(),
            final(self)@.accepted == old(self)@.accepted,
    {
        let bytes = text.as_bytes_vec();
        let ghost b0 = self@.buf;
        let ghost o0 = self@.ofs;
        let mut nb: Vec<u8> = Vec::new();
        let mut x: usize = 0;
        while x < self.ofs
            invariant
                x <= self.ofs <= self.buf@.len(),
                self.buf@ == b0,
                o0 == self.ofs as int,
                nb@ == b0.take(x as int),
            decreases self.ofs - x,
        {
            nb.push(self.buf[x]);
            x += 1;
            proof {
                assert(nb@ =~= b0.take(x as int));
            }
        }
        let mut i: usize = 0;
        proof {
            assert(nb@ =~= b0.take(o0) + bytes@.take(0));
        }
        while i < bytes.len()
            invariant
                i <= bytes@.len(),
                self.buf@ == b0,
                self.ofs <= self.buf@.len(),
                o0 == self.ofs as int,
                nb@ == b0.take(o0) + bytes@.take(i as int),
            decreases bytes@.len() - i,
        {
            nb.push(bytes[i]);
            i += 1;
            proof {
                assert(nb@ =~= b0.take(o0) + bytes@.take(i as int));
            }
        }
        proof {
            assert(bytes@.take(bytes@.len() as int) =~= bytes@);
        }
        let mut y: usize = self.ofs;
        while y < self.buf.len()
            invariant
                o0 <= y <= self.buf@.len(),
                self.buf@ == b0,
                o0 == self.ofs as int,
                nb@ == b0.take(o0) + bytes@ + b0.subrange(o0, y as int),
            decreases self.buf@.len() - y,
        {
            nb.push(self.buf[y]);
            y += 1;
            proof {
                assert(nb@ =~= b0.take(o0) + bytes@ + b0.subrange(o0, y as int));
            }
        }
        proof {
            assert(b0.subrange(o0, b0.len() as int) =~= b0.skip(o0));
            assert(nb@ =~= b0.take(o0) + bytes@ + b0.skip(o0));
        }
        self.buf = nb;
        let n = bytes.len();
        proof {
            vstd::std_specs::vec::axiom_spec_len(&self.buf);
        }
        self.ofs = self.ofs + n;
    }

    /// The buffer read back as a string: each stored byte as the
    /// character with its value.
    pub fn get(&self) -> (r: String)
        ensures
            r@.len() == self@.buf.len(),
            forall|i: int| 0 <= i < r@.len() ==> r@[i] == self@.buf[i] as char,
    {
        let mut out = String::new();
        let mut i: usize = 0;
        while i < self.buf.len()
            invariant
                i <= self.buf@.len(),
                out@.len() == i,
                forall|j: int| 0 <= j < i ==> out@[j] == self.buf@[j] as char,
            decreases self.buf@.len() - i,
        {
            crate::strutil::push_char(&mut out, self.buf[i] as char);
            i += 1;
        }
        out
    }

    /// Empty the buffer and put the cursor at the start.
    pub fn clear(&mut self)
        ensures
            final(self)@.buf == Seq::<u8>::empty(),
            final(self)@.ofs == 0,
            final(self)@.accepted == old(self)@.accepted,
    {
        self.buf.clear();
        self.ofs = 0;
    }

    /// Whether the cursor sits on a word byte.
    pub fn in_word(&self) -> (r: bool)
        ensures
            r == in_word_at(self@.buf, self@.ofs),
    {
        if self.ofs >= self.buf.len() {
            return false;
        }
        let b = self.buf[self.ofs];
        (b >= 0x61 && b <= 0x7A) || (b >= 0x41 && b <= 0x5A) || (b >= 0x30 && b <= 0x39)
    }

    /// Apply one editing command to the buffer and cursor.
    pub fn apply(&mut self, cmd: EditCmd)
        requires
            old(self).ofs <= old(self).buf.len(),
        ensures
            final(self)@ == spec_apply(old(self)@, cmd),
            final(self).ofs <= final(self).buf.len(),
    {
        let ghost m = self@;
        match cmd {
            EditCmd::BeginningOfLine => {
                self.ofs = 0;
            },
            EditCmd::EndOfLine => {
                self.ofs = self.buf.len();
            },
            EditCmd::ForwardChar => {
                if self.ofs < self.buf.len() {
                    self.ofs += 1;
                }
            },
            EditCmd::BackwardChar => {
                if self.ofs > 0 {
                    self.ofs -= 1;
                }
            },
            EditCmd::ForwardWord => {
                self.forward_word_steps();
            },
            EditCmd::BackwardWord => {
                self.backward_word_steps();
            },
            EditCmd::AcceptLine => {
                self.accepted = true;
            },
            EditCmd::BackwardDeleteChar => {
                if self.ofs > 0 {
                    self.buf.remove(self.ofs - 1);
                    self.ofs -= 1;
                }
            },
            EditCmd::KillLine => {
                self.buf.truncate(self.ofs);
                proof {
                    assert(self.buf@ =~= m.buf.take(m.ofs));
                }
            },
            EditCmd::UnixLineDiscard => {
                self.buf.clear();
                self.ofs = 0;
            },
            EditCmd::BackwardKillWord => {
                let end = self.ofs;
                self.backward_word_steps();
                let start = self.ofs;
                let ghost pre = self.buf@;
                let mut nb: Vec<u8> = Vec::new();
                let mut x: usize = 0;
                while x < start
                    invariant
                        x <= start <= self.buf@.len(),
                        self.buf@ == pre,
                        nb@ == pre.take(x as int),
                    decreases start - x,
                {
                    nb.push(self.buf[x]);
                    x += 1;
                    proof {
                        assert(nb@ =~= pre.take(x as int));
                    }
                }
                proof {
                    assert(nb@ =~= pre.take(start as int) + pre.subrange(end as int, end as int));
                }
                let mut y: usize = end;
                while y < self.buf.len()
                    invariant
                        end <= y <= self.buf@.len(),
                        start <= self.buf@.len(),
                        self.buf@ == pre,
                        nb@ == pre.take(start as int) + pre.subrange(end as int, y as int),
                    decreases self.buf@.len() - y,
                {
                    nb.push(self.buf[y]);
                    y += 1;
                    proof {
                        assert(nb@ =~= pre.take(start as int) + pre.subrange(end as int, y as int));
                    }
                }
                self.buf = nb;
                proof {
                    assert(pre.subrange(end as int, pre.len() as int) =~= pre.skip(end as int));
                    assert(self.buf@ =~= pre.take(start as int) + pre.skip(end as int));
                }
            },
        }
    }

    /// The `forward-word` movement as two scans.
    fn forward_word_steps(&mut self)
        requires
            old(self).ofs <= old(self).buf.len(),
        ensures
            final(self)@ == (RlModel {
                ofs: spec_forward_word(old(self)@.buf, old(self)@.ofs),
                ..old(self)@
            }),
            final(self).ofs <= final(self).buf.len(),
    {
        let ghost m = self@;
        while self.ofs < self.buf.len() && !self.in_word()
            invariant
                self.buf@ == m.buf,
                self.accepted == m.accepted,
                self.ofs <= self.buf@.len(),
                scan_to_word(m.buf, m.ofs) == scan_to_word(m.buf, self.ofs as int),
            decreases self.buf@.len() - self.ofs,
        {
            self.ofs += 1;
        }
        proof {
            assert(scan_to_word(m.buf, self.ofs as int) == self.ofs as int);
        }
        while self.ofs < self.buf.len() && self.in_word()
            invariant
                self.buf@ == m.buf,
                self.accepted == m.accepted,
                self.ofs <= self.buf@.len(),
                scan_past_word(m.buf, scan_to_word(m.buf, m.ofs)) == scan_past_word(
                    m.buf,
                    self.ofs as int,
                ),
            decreases self.buf@.len() - self.ofs,
        {
            self.ofs += 1;
        }
        proof {
            assert(scan_past_word(m.buf, self.ofs as int) == self.ofs as int);
        }
    }

    /// The `backward-word` movement as its scans and adjustments.
    fn backward_word_steps(&mut self)
        requires
            old(self).ofs <= old(self).buf.len(),
        ensures
            final(self)@ == (RlModel {
                ofs: spec_backward_word(old(self)@.buf, old(self)@.ofs),
                ..old(self)@
            }),
            final(self).ofs <= final(self).buf.len(),
    {
        let ghost m = self@;
        if self.ofs > 0 {
            self.ofs -= 1;
        }
        let ghost i1 = self.ofs as int;
        while self.ofs > 0 && !self.in_word()
            invariant
                self.buf@ == m.buf,
                self.accepted == m.accepted,
                self.ofs <= self.buf@.len(),
                scan_back_to_word(m.buf, i1) == scan_back_to_word(m.buf, self.ofs as int),
            decreases self.ofs,
        {
            self.ofs -= 1;
        }
        proof {
            assert(scan_back_to_word(m.buf, self.ofs as int) == self.ofs as int);
        }
        let ghost i2 = self.ofs as int;
        while self.ofs > 0 && self.in_word()
            invariant
                self.buf@ == m.buf,
                self.accepted == m.accepted,
                self.ofs <= self.buf@.len(),
                scan_back_off_word(m.buf, i2) == scan_back_off_word(m.buf, self.ofs as int),
            decreases self.ofs,
        {
            self.ofs -= 1;
        }
        proof {
            assert(scan_back_off_word(m.buf, self.ofs as int) == self.ofs as int);
        }
        if self.ofs < self.buf.len() && !self.in_word() {
            self.ofs += 1;
        }
    }

    /// Handle one key: a bound key runs its command, a single byte
    /// inserts itself, anything else is ignored and reported back.
    pub fn key(&mut self, key: &str) -> (r: bool)
        requires
            old(self).ofs <= old(self).buf.len(),
        ensures
            spec_key_command(key) is Some ==> r && final(self)@ == spec_apply(
                old(self)@,
                spec_key_command(key)->0,
            ),
            spec_key_command(key) is None && vstd::utf8::encode_utf8(key@).len() == 1 ==> r
                && final(self)@ == (RlModel {
                buf: old(self)@.buf.take(old(self)@.ofs) + vstd::utf8::encode_utf8(key@)
                    + old(self)@.buf.skip(old(self)@.ofs),
                ofs: old(self)@.ofs + 1,
                ..old(self)@
            }),
            spec_key_command(key) is None && vstd::utf8::encode_utf8(key@).len() != 1 ==> !r
                && *final(self) == *old(self),
    {
        let cmd = match binding(key) {
            Option::Some(name) => command(name),
            Option::None => Option::None,
        };
        if let Option::Some(c) = cmd {
            proof {
                assert(spec_key_command(key) == Option::Some(c));
            }
            self.apply(c);
            return true;
        }
        proof {
            assert(spec_key_command(key) is None);
        }
        if key.len() == 1 {
            self.insert(key);
            return true;
        }
        false
    }
}

} // verus!
