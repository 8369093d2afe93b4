//! The VT100/xterm byte-stream parser: a recursive-descent automaton
//! over the scanner that drives the screen, records unknown sequences
//! once each, and queues reply bytes for the PTY writer.
//!
//! A command is applied only after its final byte is consumed: when the
//! scanner runs out partway through a sequence, the parser returns
//! `None` with the screen, the record of unknown sequences and the
//! outbound bytes untouched, and the caller rewinds and refills.
use vstd::prelude::*;

use crate::attr::Attr;
use crate::byte_scanner::ByteScanner;
use crate::screen::{VT, VtModel, spec_clear_viewport, spec_delete_chars, spec_ensure_pos,
    spec_erase_line_right, spec_insert_blanks};

verus! {

/// One kind of input the parser understands but does not act on, or
/// does not understand at all. Each distinct value is recorded at most
/// once; the payloads carry what the original sequence carried, so two
/// sequences that differ in text differ as records.
#[derive(Debug)]
pub enum Todo {
    Bell,
    G0Charset(u8),
    ApplicationKeypad,
    NormalKeypad,
    EraseInDisplay(usize),
    EraseInLine(usize),
    CursorKeysMode,
    BlinkCursor,
    SaveCursor,
    AlternateScreen,
    PrivateMode(usize),
    SetResetMode(usize),
    SetAttr(usize),
    StatusReport,
    CursorPos,
    DeviceStatus(usize),
    ScrollRegion(usize, usize),
    UnhandledCsi(u8),
    SetTitleIcon(Vec<u8>),
    SetIcon(Vec<u8>),
    SetTitle(Vec<u8>),
    BackgroundControl(Vec<u8>),
    OscOther(usize, Vec<u8>),
    MalformedOsc(usize, u8),
    UnhandledEscape(u8),
    UnhandledByte(u8),
}

impl PartialEq for Todo {
    fn eq(&self, other: &Todo) -> (r: bool) {
        match (self, other) {
            (Todo::Bell, Todo::Bell) => true,
            (Todo::G0Charset(a), Todo::G0Charset(b)) => a == b,
            (Todo::ApplicationKeypad, Todo::ApplicationKeypad) => true,
            (Todo::NormalKeypad, Todo::NormalKeypad) => true,
            (Todo::EraseInDisplay(a), Todo::EraseInDisplay(b)) => a == b,
            (Todo::EraseInLine(a), Todo::EraseInLine(b)) => a == b,
            (Todo::CursorKeysMode, Todo::CursorKeysMode) => true,
            (Todo::BlinkCursor, Todo::BlinkCursor) => true,
            (Todo::SaveCursor, Todo::SaveCursor) => true,
            (Todo::AlternateScreen, Todo::AlternateScreen) => true,
            (Todo::PrivateMode(a), Todo::PrivateMode(b)) => a == b,
            (Todo::SetResetMode(a), Todo::SetResetMode(b)) => a == b,
            (Todo::SetAttr(a), Todo::SetAttr(b)) => a == b,
            (Todo::StatusReport, Todo::StatusReport) => true,
            (Todo::CursorPos, Todo::CursorPos) => true,
            (Todo::DeviceStatus(a), Todo::DeviceStatus(b)) => a == b,
            (Todo::ScrollRegion(a1, a2), Todo::ScrollRegion(b1, b2)) => a1 == b1 && a2 == b2,
            (Todo::UnhandledCsi(a), Todo::UnhandledCsi(b)) => a == b,
            (Todo::SetTitleIcon(a), Todo::SetTitleIcon(b)) => vec_u8_eq(a, b),
            (Todo::SetIcon(a), Todo::SetIcon(b)) => vec_u8_eq(a, b),
            (Todo::SetTitle(a), Todo::SetTitle(b)) => vec_u8_eq(a, b),
            (Todo::BackgroundControl(a), Todo::BackgroundControl(b)) => vec_u8_eq(a, b),
            (Todo::OscOther(a1, a2), Todo::OscOther(b1, b2)) => a1 == b1 && vec_u8_eq(a2, b2),
            (Todo::MalformedOsc(a1, a2), Todo::MalformedOsc(b1, b2)) => a1 == b1 && a2 == b2,
            (Todo::UnhandledEscape(a), Todo::UnhandledEscape(b)) => a == b,
            (Todo::UnhandledByte(a), Todo::UnhandledByte(b)) => a == b,
            _ => false,
        }
    }
}

/// The mathematical value of a record: payload vectors as byte
/// sequences, so that equal records are exactly those an observer
/// cannot tell apart.
pub ghost enum TodoModel {
    Bell,
    G0Charset(u8),
    ApplicationKeypad,
    NormalKeypad,
    EraseInDisplay(usize),
    EraseInLine(usize),
    CursorKeysMode,
    BlinkCursor,
    SaveCursor,
    AlternateScreen,
    PrivateMode(usize),
    SetResetMode(usize),
    SetAttr(usize),
    StatusReport,
    CursorPos,
    DeviceStatus(usize),
    ScrollRegion(usize, usize),
    UnhandledCsi(u8),
    SetTitleIcon(Seq<u8>),
    SetIcon(Seq<u8>),
    SetTitle(Seq<u8>),
    BackgroundControl(Seq<u8>),
    OscOther(usize, Seq<u8>),
    MalformedOsc(usize, u8),
    UnhandledEscape(u8),
    UnhandledByte(u8),
}

impl View for Todo {
    type V = TodoModel;

    open spec fn view(&self) -> TodoModel {
        match self {
            Todo::Bell => TodoModel::Bell,
            Todo::G0Charset(a) => TodoModel::G0Charset(*a),
            Todo::ApplicationKeypad => TodoModel::ApplicationKeypad,
            Todo::NormalKeypad => TodoModel::NormalKeypad,
            Todo::EraseInDisplay(a) => TodoModel::EraseInDisplay(*a),
            Todo::EraseInLine(a) => TodoModel::EraseInLine(*a),
            Todo::CursorKeysMode => TodoModel::CursorKeysMode,
            Todo::BlinkCursor => TodoModel::BlinkCursor,
            Todo::SaveCursor => TodoModel::SaveCursor,
            Todo::AlternateScreen => TodoModel::AlternateScreen,
            Todo::PrivateMode(a) => TodoModel::PrivateMode(*a),
            Todo::SetResetMode(a) => TodoModel::SetResetMode(*a),
            Todo::SetAttr(a) => TodoModel::SetAttr(*a),
            Todo::StatusReport => TodoModel::StatusReport,
            Todo::CursorPos => TodoModel::CursorPos,
            Todo::DeviceStatus(a) => TodoModel::DeviceStatus(*a),
            Todo::ScrollRegion(a, b) => TodoModel::ScrollRegion(*a, *b),
            Todo::UnhandledCsi(a) => TodoModel::UnhandledCsi(*a),
            Todo::SetTitleIcon(v) => TodoModel::SetTitleIcon(v@),
            Todo::SetIcon(v) => TodoModel::SetIcon(v@),
            Todo::SetTitle(v) => TodoModel::SetTitle(v@),
            Todo::BackgroundControl(v) => TodoModel::BackgroundControl(v@),
            Todo::OscOther(a, v) => TodoModel::OscOther(*a, v@),
            Todo::MalformedOsc(a, b) => TodoModel::MalformedOsc(*a, *b),
            Todo::UnhandledEscape(a) => TodoModel::UnhandledEscape(*a),
            Todo::UnhandledByte(a) => TodoModel::UnhandledByte(*a),
        }
    }
}

impl vstd::std_specs::cmp::PartialEqSpecImpl for Todo {
    open spec fn obeys_eq_spec() -> bool {
        true
    }

    open spec fn eq_spec(&self, other: &Todo) -> bool {
        self@ == other@
    }
}

/// Byte-for-byte equality of two byte vectors.
fn vec_u8_eq(a: &Vec<u8>, b: &Vec<u8>) -> (r: bool)
    ensures
        r == (a@ == b@),
{
    if a.len() != b.len() {
        return false;
    }
    let mut i: usize = 0;
    while i < a.len()
        invariant
            i <= a@.len(),
            a@.len() == b@.len(),
            forall|j: int| 0 <= j < i ==> a@[j] == b@[j],
        decreases a@.len() - i,
    {
        if a[i] != b[i] {
            return false;
        }
        i += 1;
    }
    proof {
        assert(a@ =~= b@);
    }
    true
}

/// No record occurs twice.
pub open spec fn todos_unique(s: Seq<TodoModel>) -> bool {
    forall|i: int, j: int| 0 <= i < j < s.len() ==> s[i] != s[j]
}

/// Recording `t`: appended only when it is not there yet.
pub open spec fn spec_record(s: Seq<TodoModel>, t: TodoModel) -> Seq<TodoModel> {
    if s.contains(t) {
        s
    } else {
        s.push(t)
    }
}

/// The mathematical state the parser acts on: the screen, the record of
/// unknown sequences, and the bytes queued for the PTY writer.
pub ghost struct TermState {
    pub screen: VtModel,
    pub todos: Seq<TodoModel>,
    pub outbound: Seq<u8>,
}

/// The parser state: the screen it mutates, the deduplicated record of
/// sequences it does not act on, and the reply bytes it queues for the
/// PTY writer.
pub struct VTRead {
    pub vt: VT,
    pub todos: Vec<Todo>,
    pub outbound: Vec<u8>,
}

impl View for VTRead {
    type V = TermState;

    open spec fn view(&self) -> TermState {
        TermState {
            screen: self.vt@,
            todos: self.todos@.map_values(|t: Todo| t@),
            outbound: self.outbound@,
        }
    }
}

impl VTRead {
    pub fn new() -> (s: VTRead)
        ensures
            s@.screen == crate::screen::spec_new_vt(),
            s@.todos == Seq::<TodoModel>::empty(),
            s@.outbound == Seq::<u8>::empty(),
    {
        let s = VTRead { vt: VT::new(), todos: Vec::new(), outbound: Vec::new() };
        proof {
            assert(s@.todos =~= Seq::<TodoModel>::empty());
        }
        s
    }

    /// Record `t` once: appended only if no equal record exists, so the
    /// record stays free of duplicates.
    pub fn todo(&mut self, t: Todo)
        ensures
            final(self)@.screen == old(self)@.screen,
            final(self)@.outbound == old(self)@.outbound,
            final(self)@.todos == spec_record(old(self)@.todos, t@),
            todos_unique(old(self)@.todos) ==> todos_unique(final(self)@.todos),
    {
        let ghost tv = self@.todos;
        let mut i: usize = 0;
        while i < self.todos.len()
            invariant
                i <= self.todos@.len(),
                tv == self@.todos,
                forall|j: int| 0 <= j < i ==> tv[j] != t@,
            decreases self.todos@.len() - i,
        {
            if self.todos[i] == t {
                proof {
                    assert(tv[i as int] == t@);
                    assert(tv.contains(t@));
                }
                return ;
            }
            proof {
                assert(tv[i as int] == self.todos@[i as int]@);
            }
            i += 1;
        }
        proof {
            assert(!tv.contains(t@));
        }
        let ghost pv = self.todos@;
        self.todos.push(t);
        proof {
            let mpost = self@.todos;
            assert forall|j: int| 0 <= j < pv.len() implies mpost[j] == tv[j] by {
                assert(self.todos@[j] == pv[j]);
            }
            assert(mpost[pv.len() as int] == t@);
            assert(mpost =~= tv.push(t@));
            assert forall|a: int, b: int|
                0 <= a < b < mpost.len() && todos_unique(tv) implies mpost[a] != mpost[b] by {
                if b == mpost.len() - 1 {
                    assert(mpost[a] == tv[a]);
                }
            }
        }
    }
}

/// The value of a prefix's low bits when `b` starts with the `n`-bit
/// prefix `prefix`, as UTF-8 lead and continuation bytes do.
pub open spec fn spec_bprefix(b: u8, n: usize, prefix: u8) -> Option<u8> {
    if b >> (8 - n) == prefix {
        Option::Some(b & (((1u8 << (8 - n)) - 1) as u8))
    } else {
        Option::None
    }
}

/// Match an `n`-bit prefix: the low bits of `b` when `b >> (8 - n)`
/// equals `prefix`, else nothing.
pub fn bprefix(b: u8, n: usize, prefix: u8) -> (r: Option<u8>)
    requires
        1 <= n <= 7,
    ensures
        r == spec_bprefix(b, n, prefix),
{
    let sh = (8 - n) as u32;
    proof {
        assert(1 <= sh <= 7 ==> (1u8 << sh) >= 1) by (bit_vector);
    }
    if b >> sh == prefix {
        Option::Some(b & ((1u8 << sh) - 1))
    } else {
        Option::None
    }
}

/// A decimal digit byte.
pub open spec fn is_digit(b: u8) -> bool {
    0x30 <= b <= 0x39
}

/// How many leading bytes of `s` are decimal digits.
pub open spec fn digit_prefix_len(s: Seq<u8>) -> int
    decreases s.len(),
{
    if s.len() == 0 || !is_digit(s[0]) {
        0
    } else {
        1 + digit_prefix_len(s.skip(1))
    }
}

/// One digit folded onto `acc`, clamped at the largest `usize`.
pub open spec fn sat_mul10_add(acc: usize, d: usize) -> usize {
    if acc * 10 > usize::MAX {
        usize::MAX
    } else {
        ((acc * 10) as usize).saturating_add(d)
    }
}

/// The count of leading digits is between zero and the length.
pub proof fn lemma_digit_prefix_bounds(s: Seq<u8>)
    ensures
        0 <= digit_prefix_len(s) <= s.len(),
    decreases s.len(),
{
    if s.len() == 0 || !is_digit(s[0]) {
    } else {
        lemma_digit_prefix_bounds(s.skip(1));
    }
}

/// The number the leading digits of `s` denote, folded onto `acc` with
/// saturating arithmetic.
pub open spec fn dec_value(s: Seq<u8>, acc: usize) -> usize
    decreases s.len(),
{
    if s.len() == 0 || !is_digit(s[0]) {
        acc
    } else {
        dec_value(s.skip(1), sat_mul10_add(acc, (s[0] - 0x30) as usize))
    }
}

impl VTRead {
    /// Read a decimal number: consume leading digits and push the byte
    /// after them back. When the buffer ends inside the digits the
    /// number may continue in the next refill, so nothing is returned.
    pub fn read_num(&mut self, r: &mut ByteScanner) -> (res: Option<usize>)
        requires
            old(r).wf(),
        ensures
            *final(self) == *old(self),
            final(r).wf(),
            final(r).contents() == old(r).contents(),
            final(r).pos() >= old(r).pos(),
            0 <= digit_prefix_len(old(r).avail()) <= old(r).avail().len(),
            ({
                let av = old(r).avail();
                let k = digit_prefix_len(av);
                if k == av.len() {
                    res is None && final(r).pos() == old(r).contents().len()
                } else {
                    res == Option::Some(dec_value(av, 0)) && final(r).pos() == old(r).pos() + k
                }
            }),
    {
        let ghost av = r.avail();
        proof {
            lemma_digit_prefix_bounds(av);
        }
        let mut num: usize = 0;
        let mut i: usize = 0;
        loop
            invariant
                r.wf(),
                *self == *old(self),
                r.contents() == old(r).contents(),
                r.pos() == old(r).pos() + i,
                i <= av.len(),
                av.len() <= crate::byte_scanner::SCANNER_CAP,
                av == old(r).avail(),
                r.avail() == av.skip(i as int),
                digit_prefix_len(av) == i + digit_prefix_len(av.skip(i as int)),
                dec_value(av, 0) == dec_value(av.skip(i as int), num),
            decreases av.len() - i,
        {
            let c = match r.next() {
                Option::None => {
                    proof {
                        assert(av.skip(i as int).len() == 0);
                        assert(digit_prefix_len(av) == i);
                    }
                    return Option::None;
                },
                Option::Some(c) => c,
            };
            if c >= 0x30 && c <= 0x39 {
                proof {
                    assert(av.skip(i as int)[0] == c);
                    assert(av.skip(i as int).skip(1) =~= av.skip(i + 1));
                }
                num = match num.checked_mul(10) {
                    Option::Some(x) => x.saturating_add((c - 0x30) as usize),
                    Option::None => usize::MAX,
                };
                i += 1;
            } else {
                r.back();
                proof {
                    assert(av.skip(i as int)[0] == c);
                    assert(digit_prefix_len(av.skip(i as int)) == 0);
                    assert(dec_value(av.skip(i as int), num) == num);
                }
                return Option::Some(num);
            }
        }
    }
}


/// The `i`th numeric parameter, or `d` where it was not given.
pub open spec fn arg_or(args: Seq<usize>, i: int, d: usize) -> usize {
    if 0 <= i < args.len() {
        args[i]
    } else {
        d
    }
}

/// The reply to a secondary device-attributes query: `ESC [ 41;0;0 c`.
pub open spec fn da2_reply() -> Seq<u8> {
    seq![0x1bu8, 0x5bu8, 0x34u8, 0x31u8, 0x3bu8, 0x30u8, 0x3bu8, 0x30u8, 0x63u8]
}

/// Whether one SGR parameter is among those the screen honors.
pub open spec fn sgr_known(arg: usize) -> bool {
    arg == 0 || arg == 1 || arg == 7 || arg == 27 || (30 <= arg <= 37) || arg == 39 || (40 <= arg
        <= 47) || arg == 49
}

/// One SGR parameter applied to the packed attribute word.
pub open spec fn spec_sgr_attr(v: u16, arg: usize) -> u16 {
    if arg == 0 {
        0
    } else if arg == 1 {
        v | 0x100
    } else if arg == 7 {
        v | 0x200
    } else if arg == 27 {
        v & !0x200
    } else if 30 <= arg <= 37 {
        v & 0xFFF0 | (arg - 30 + 1) as u16
    } else if arg == 39 {
        v & 0xFFF0
    } else if 40 <= arg <= 47 {
        v & 0xFF0F | (((arg - 40 + 1) as u16) << 4)
    } else if arg == 49 {
        v & 0xFF0F
    } else {
        v
    }
}

/// A whole SGR parameter list applied in order: known parameters change
/// the word, unknown ones are recorded once each.
pub open spec fn spec_sgr(v: u16, todos: Seq<TodoModel>, args: Seq<usize>) -> (u16, Seq<TodoModel>)
    decreases args.len(),
{
    if args.len() == 0 {
        (v, todos)
    } else {
        let v1 = spec_sgr_attr(v, args[0]);
        let t1 = if sgr_known(args[0]) {
            todos
        } else {
            spec_record(todos, TodoModel::SetAttr(args[0]))
        };
        spec_sgr(v1, t1, args.skip(1))
    }
}

/// What `CSI L` does: insert a blank line at the cursor row, after
/// materializing the cursor position.
pub open spec fn spec_csi_insert_line(m: VtModel) -> VtModel {
    let m1 = spec_ensure_pos(m);
    VtModel { lines: m1.lines.insert(m1.row as int, Seq::<crate::screen::Cell>::empty()), ..m1 }
}

/// What `ESC M` does: insert a blank line at the top of the viewport,
/// after materializing the cursor position; nothing when `top` points
/// past the materialized lines.
pub open spec fn spec_esc_insert_top(m: VtModel) -> VtModel {
    let m1 = spec_ensure_pos(m);
    if m1.top <= m1.lines.len() {
        VtModel { lines: m1.lines.insert(m1.top as int, Seq::<crate::screen::Cell>::empty()), ..m1 }
    } else {
        m1
    }
}

/// What one complete CSI sequence does to the screen, the record of
/// unknown sequences, and the outbound reply bytes.
pub open spec fn spec_apply_csi(
    s: TermState,
    question: bool,
    gt: bool,
    args: Seq<usize>,
    cmd: u8,
) -> TermState {
    let m = s.screen;
    if cmd == 0x40 {  // @: insert blanks, cursor unchanged
        TermState { screen: spec_insert_blanks(m, arg_or(args, 0, 1) as nat), ..s }
    } else if cmd == 0x41 {  // A: cursor up
        TermState { screen: VtModel { row: m.row.saturating_sub(arg_or(args, 0, 1)), ..m }, ..s }
    } else if cmd == 0x42 {  // B: cursor down
        TermState { screen: VtModel { row: m.row.saturating_add(arg_or(args, 0, 1)), ..m }, ..s }
    } else if cmd == 0x43 {  // C: cursor forward
        TermState { screen: VtModel { col: m.col.saturating_add(arg_or(args, 0, 1)), ..m }, ..s }
    } else if cmd == 0x44 {  // D: cursor back
        TermState { screen: VtModel { col: m.col.saturating_sub(arg_or(args, 0, 1)), ..m }, ..s }
    } else if cmd == 0x48 {  // H: cursor to 1-based row and column
        TermState {
            screen: VtModel {
                row: m.top.saturating_add(arg_or(args, 0, 1).saturating_sub(1)),
                col: arg_or(args, 1, 1).saturating_sub(1),
                ..m
            },
            ..s
        }
    } else if cmd == 0x4A {  // J: erase in display
        if arg_or(args, 0, 0) == 2 {
            TermState { screen: spec_clear_viewport(m), ..s }
        } else {
            TermState { todos: spec_record(s.todos, TodoModel::EraseInDisplay(arg_or(args, 0, 0))), ..s }
        }
    } else if cmd == 0x4B {  // K: erase in line
        if arg_or(args, 0, 0) == 0 {
            TermState { screen: spec_erase_line_right(m), ..s }
        } else {
            TermState { todos: spec_record(s.todos, TodoModel::EraseInLine(arg_or(args, 0, 0))), ..s }
        }
    } else if cmd == 0x4C {  // L: insert line at cursor
        TermState { screen: spec_csi_insert_line(m), ..s }
    } else if cmd == 0x50 {  // P: delete characters
        TermState { screen: spec_delete_chars(m, arg_or(args, 0, 1) as nat), ..s }
    } else if cmd == 0x63 && gt {  // c: secondary device attributes
        TermState { outbound: s.outbound + da2_reply(), ..s }
    } else if cmd == 0x64 {  // d: cursor to 1-based row
        TermState {
            screen: VtModel {
                row: m.top.saturating_add(arg_or(args, 0, 1).saturating_sub(1)),
                ..m
            },
            ..s
        }
    } else if (cmd == 0x68 || cmd == 0x6C) && question {  // DEC private set/reset
        if args.len() == 0 {
            s
        } else if args[0] == 1 {
            TermState { todos: spec_record(s.todos, TodoModel::CursorKeysMode), ..s }
        } else if args[0] == 12 {
            TermState { todos: spec_record(s.todos, TodoModel::BlinkCursor), ..s }
        } else if args[0] == 25 {
            TermState { screen: VtModel { hide_cursor: cmd == 0x6C, ..m }, ..s }
        } else if args[0] == 1049 {
            TermState {
                todos: spec_record(
                    spec_record(s.todos, TodoModel::SaveCursor),
                    TodoModel::AlternateScreen,
                ),
                ..s
            }
        } else {
            TermState { todos: spec_record(s.todos, TodoModel::PrivateMode(args[0])), ..s }
        }
    } else if cmd == 0x68 || cmd == 0x6C {  // ANSI set/reset mode
        if args.len() == 0 {
            s
        } else {
            TermState { todos: spec_record(s.todos, TodoModel::SetResetMode(args[0])), ..s }
        }
    } else if cmd == 0x6D {  // m: select graphic rendition
        if args.len() == 0 {
            TermState { screen: VtModel { attr: Attr { val: 0 }, ..m }, ..s }
        } else {
            TermState {
                screen: VtModel { attr: Attr { val: spec_sgr(m.attr.val, s.todos, args).0 }, ..m },
                todos: spec_sgr(m.attr.val, s.todos, args).1,
                ..s
            }
        }
    } else if cmd == 0x6E {  // n: device status report
        if args.len() == 1 {
            if args[0] == 5 {
                TermState { todos: spec_record(s.todos, TodoModel::StatusReport), ..s }
            } else if args[0] == 6 {
                TermState { todos: spec_record(s.todos, TodoModel::CursorPos), ..s }
            } else {
                TermState { todos: spec_record(s.todos, TodoModel::DeviceStatus(args[0])), ..s }
            }
        } else {
            s
        }
    } else if cmd == 0x72 {  // r: scroll region
        if arg_or(args, 0, 1) == 1 && arg_or(args, 1, m.height) == m.height {
            s
        } else {
            TermState {
                todos: spec_record(
                    s.todos,
                    TodoModel::ScrollRegion(arg_or(args, 0, 1), arg_or(args, 1, m.height)),
                ),
                ..s
            }
        }
    } else {
        TermState { todos: spec_record(s.todos, TodoModel::UnhandledCsi(cmd)), ..s }
    }
}

/// Recording keeps the record free of duplicates.
pub proof fn lemma_record_unique(s: Seq<TodoModel>, t: TodoModel)
    requires
        todos_unique(s),
    ensures
        todos_unique(spec_record(s, t)),
{
    if !s.contains(t) {
        assert forall|a: int, b: int|
            0 <= a < b < spec_record(s, t).len() implies spec_record(s, t)[a] != spec_record(
            s,
            t,
        )[b] by {
            if b == s.len() {
                assert(spec_record(s, t)[a] == s[a]);
                assert(!s.contains(t));
                assert(s[a] != t);
            }
        }
    }
}

/// An SGR parameter list keeps the record free of duplicates.
pub proof fn lemma_sgr_unique(v: u16, todos: Seq<TodoModel>, args: Seq<usize>)
    requires
        todos_unique(todos),
    ensures
        todos_unique(spec_sgr(v, todos, args).1),
    decreases args.len(),
{
    if args.len() > 0 {
        let t1 = if sgr_known(args[0]) {
            todos
        } else {
            spec_record(todos, TodoModel::SetAttr(args[0]))
        };
        if !sgr_known(args[0]) {
            lemma_record_unique(todos, TodoModel::SetAttr(args[0]));
        }
        lemma_sgr_unique(spec_sgr_attr(v, args[0]), t1, args.skip(1));
    }
}

/// Every complete CSI sequence keeps the record free of duplicates.
pub proof fn lemma_csi_unique(s: TermState, question: bool, gt: bool, args: Seq<usize>, cmd: u8)
    requires
        todos_unique(s.todos),
    ensures
        todos_unique(spec_apply_csi(s, question, gt, args, cmd).todos),
{
    if cmd == 0x6D && args.len() > 0 {
        lemma_sgr_unique(s.screen.attr.val, s.todos, args);
    } else if (cmd == 0x68 || cmd == 0x6C) && question && args.len() > 0 && args[0] == 1049 {
        lemma_record_unique(s.todos, TodoModel::SaveCursor);
        lemma_record_unique(spec_record(s.todos, TodoModel::SaveCursor), TodoModel::AlternateScreen);
    } else {
        if cmd == 0x4A {
            lemma_record_unique(s.todos, TodoModel::EraseInDisplay(arg_or(args, 0, 0)));
        }
        if cmd == 0x4B {
            lemma_record_unique(s.todos, TodoModel::EraseInLine(arg_or(args, 0, 0)));
        }
        if (cmd == 0x68 || cmd == 0x6C) && question && args.len() > 0 {
            lemma_record_unique(s.todos, TodoModel::CursorKeysMode);
            lemma_record_unique(s.todos, TodoModel::BlinkCursor);
            lemma_record_unique(s.todos, TodoModel::PrivateMode(args[0]));
        }
        if (cmd == 0x68 || cmd == 0x6C) && !question && args.len() > 0 {
            lemma_record_unique(s.todos, TodoModel::SetResetMode(args[0]));
        }
        if cmd == 0x6E && args.len() == 1 {
            lemma_record_unique(s.todos, TodoModel::StatusReport);
            lemma_record_unique(s.todos, TodoModel::CursorPos);
            lemma_record_unique(s.todos, TodoModel::DeviceStatus(args[0]));
        }
        if cmd == 0x72 {
            lemma_record_unique(
                s.todos,
                TodoModel::ScrollRegion(arg_or(args, 0, 1), arg_or(args, 1, s.screen.height)),
            );
        }
        lemma_record_unique(s.todos, TodoModel::UnhandledCsi(cmd));
    }
}


impl VTRead {
    /// Apply one complete CSI sequence, already parsed into its intro
    /// flags, numeric parameters and final byte.
    pub fn apply_csi(&mut self, question: bool, gt: bool, args: &Vec<usize>, cmd: u8)
        ensures
            final(self)@ == spec_apply_csi(old(self)@, question, gt, args@, cmd),
            todos_unique(old(self)@.todos) ==> todos_unique(final(self)@.todos),
    {
        proof {
            if todos_unique(self@.todos) {
                lemma_csi_unique(self@, question, gt, args@, cmd);
            }
        }
        let a0_1: usize = if args.len() >= 1 {
            args[0]
        } else {
            1
        };
        let a0_0: usize = if args.len() >= 1 {
            args[0]
        } else {
            0
        };
        let a1_1: usize = if args.len() >= 2 {
            args[1]
        } else {
            1
        };
        if cmd == 0x40 {
            // insert blanks
            self.vt.insert_blanks(a0_1);
        } else if cmd == 0x41 {
            // cursor up
            self.vt.move_up(a0_1);
        } else if cmd == 0x42 {
            // cursor down
            self.vt.move_down(a0_1);
        } else if cmd == 0x43 {
            // cursor forward
            self.vt.move_right(a0_1);
        } else if cmd == 0x44 {
            // cursor back
            self.vt.move_left(a0_1);
        } else if cmd == 0x48 {
            self.vt.move_to(a0_1, a1_1);
        } else if cmd == 0x4A {
            // erase in display
            if a0_0 == 2 {
                self.vt.clear_viewport();
            } else {
                self.todo(Todo::EraseInDisplay(a0_0));
            }
        } else if cmd == 0x4B {
            // erase in line
            if a0_0 == 0 {
                self.vt.erase_line_right();
            } else {
                self.todo(Todo::EraseInLine(a0_0));
            }
        } else if cmd == 0x4C {
            // insert line at cursor
            self.vt.ensure_pos();
            let r = self.vt.row;
            self.vt.insert_line_at(r);
        } else if cmd == 0x50 {
            // delete characters
            self.vt.delete_chars(a0_1);
        } else if cmd == 0x63 && gt {
            // send device attributes (secondary)
            self.outbound.push(0x1b);
            self.outbound.push(0x5b);
            self.outbound.push(0x34);
            self.outbound.push(0x31);
            self.outbound.push(0x3b);
            self.outbound.push(0x30);
            self.outbound.push(0x3b);
            self.outbound.push(0x30);
            self.outbound.push(0x63);
            proof {
                assert(self.outbound@ =~= old(self).outbound@ + da2_reply());
            }
        } else if cmd == 0x64 {
            self.vt.move_to_row(a0_1);
        } else if (cmd == 0x68 || cmd == 0x6C) && question {
            // DEC private set/reset
            if args.len() >= 1 {
                let arg = args[0];
                if arg == 1 {
                    self.todo(Todo::CursorKeysMode);
                } else if arg == 12 {
                    self.todo(Todo::BlinkCursor);
                } else if arg == 25 {
                    self.vt.hide_cursor = cmd == 0x6C;
                } else if arg == 1049 {
                    self.todo(Todo::SaveCursor);
                    self.todo(Todo::AlternateScreen);
                } else {
                    self.todo(Todo::PrivateMode(arg));
                }
            }
        } else if cmd == 0x68 || cmd == 0x6C {
            // ANSI set/reset mode
            if args.len() >= 1 {
                self.todo(Todo::SetResetMode(args[0]));
            }
        } else if cmd == 0x6D {
            // character attributes
            if args.len() == 0 {
                self.vt.attr = Attr { val: 0 };
            } else {
                let ghost t0 = self@.todos;
                let ghost v0 = self.vt.attr.val;
                let ghost m0 = self.vt@;
                proof {
                    assert(args@.skip(0) =~= args@);
                }
                let mut i: usize = 0;
                while i < args.len()
                    invariant
                        i <= args@.len(),
                        self.vt@ == (VtModel { attr: Attr { val: self.vt.attr.val }, ..m0 }),
                        self@.outbound == old(self)@.outbound,
                        spec_sgr(v0, t0, args@) == spec_sgr(
                            self.vt.attr.val,
                            self@.todos,
                            args@.skip(i as int),
                        ),
                    decreases args@.len() - i,
                {
                    let arg = args[i];
                    let ghost vpre = self.vt.attr.val;
                    let ghost tpre = self@.todos;
                    proof {
                        assert(args@.skip(i as int)[0] == arg);
                        assert(args@.skip(i as int).skip(1) =~= args@.skip(i + 1));
                    }
                    if arg == 0 {
                        self.vt.attr = Attr { val: 0 };
                        proof {
                            assert(self.vt.attr.val == spec_sgr_attr(vpre, arg));
                        }
                    } else if arg == 1 {
                        self.vt.attr.set_bold();
                        proof {
                            assert(self.vt.attr.val == vpre | 0x100);
                            assert(self.vt.attr.val == spec_sgr_attr(vpre, arg));
                        }
                    } else if arg == 7 {
                        self.vt.attr.set_inverse(true);
                        proof {
                            assert(self.vt.attr.val == vpre | 0x200);
                            assert(self.vt.attr.val == spec_sgr_attr(vpre, arg));
                        }
                    } else if arg == 27 {
                        self.vt.attr.set_inverse(false);
                        proof {
                            assert(self.vt.attr.val == vpre & !0x200);
                            assert(self.vt.attr.val == spec_sgr_attr(vpre, arg));
                        }
                    } else if arg >= 30 && arg <= 37 {
                        self.vt.attr.set_fg(Option::Some(arg - 30));
                        proof {
                            assert(self.vt.attr.val == vpre & 0xFFF0 | (arg - 30 + 1) as u16);
                            assert(self.vt.attr.val == spec_sgr_attr(vpre, arg));
                        }
                    } else if arg == 39 {
                        self.vt.attr.set_fg(Option::None);
                        proof {
                            assert((vpre & 0xFFF0 | 0u16) == vpre & 0xFFF0) by (bit_vector);
                            assert(self.vt.attr.val == vpre & 0xFFF0);
                            assert(self.vt.attr.val == spec_sgr_attr(vpre, arg));
                        }
                    } else if arg >= 40 && arg <= 47 {
                        self.vt.attr.set_bg(Option::Some(arg - 40));
                        proof {
                            assert(self.vt.attr.val == vpre & 0xFF0F | (((arg - 40 + 1) as u16)
                                << 4));
                            assert(self.vt.attr.val == spec_sgr_attr(vpre, arg));
                        }
                    } else if arg == 49 {
                        self.vt.attr.set_bg(Option::None);
                        proof {
                            assert((vpre & 0xFF0F | (0u16 << 4)) == vpre & 0xFF0F) by (bit_vector);
                            assert(self.vt.attr.val == vpre & 0xFF0F);
                            assert(self.vt.attr.val == spec_sgr_attr(vpre, arg));
                        }
                    } else {
                        self.todo(Todo::SetAttr(arg));
                        proof {
                            assert(self.vt.attr.val == vpre);
                            assert(!sgr_known(arg as usize));
                            assert(self.vt.attr.val == spec_sgr_attr(vpre, arg));
                        }
                    }
                    proof {
                        assert(self.vt.attr.val == spec_sgr_attr(vpre, arg));
                        assert(self@.todos == if sgr_known(arg as usize) {
                            tpre
                        } else {
                            spec_record(tpre, TodoModel::SetAttr(arg as usize))
                        });
                    }
                    i += 1;
                    proof {
                        assert(spec_sgr(v0, t0, args@) == spec_sgr(
                            self.vt.attr.val,
                            self@.todos,
                            args@.skip(i as int),
                        ));
                    }
                }
                proof {
                    assert(args@.skip(i as int).len() == 0);
                }
            }
        } else if cmd == 0x6E {
            // device status report
            if args.len() == 1 {
                let arg = args[0];
                if arg == 5 {
                    self.todo(Todo::StatusReport);
                } else if arg == 6 {
                    self.todo(Todo::CursorPos);
                } else {
                    self.todo(Todo::DeviceStatus(arg));
                }
            }
        } else if cmd == 0x72 {
            // set scrolling region
            let top = a0_1;
            let bottom = if args.len() >= 2 {
                args[1]
            } else {
                self.vt.height
            };
            if top == 1 && bottom == self.vt.height {
                // full window
            } else {
                self.todo(Todo::ScrollRegion(top, bottom));
            }
        } else {
            self.todo(Todo::UnhandledCsi(cmd));
        }
    }
}


/// The first position of an OSC terminator (BEL or NUL) in `s`, or the
/// end of `s`.
pub open spec fn find_osc_end(s: Seq<u8>) -> int
    decreases s.len(),
{
    if s.len() == 0 {
        0
    } else if s[0] == 0 || s[0] == 7 {
        0
    } else {
        1 + find_osc_end(s.skip(1))
    }
}

/// The terminator search stays within the bytes and stops only at a
/// terminator.
pub proof fn lemma_find_osc_end(s: Seq<u8>)
    ensures
        0 <= find_osc_end(s) <= s.len(),
        find_osc_end(s) < s.len() ==> s[find_osc_end(s)] == 0 || s[find_osc_end(s)] == 7,
        forall|j: int| 0 <= j < find_osc_end(s) ==> #[trigger] s[j] != 0 && s[j] != 7,
    decreases s.len(),
{
    if s.len() > 0 && s[0] != 0 && s[0] != 7 {
        lemma_find_osc_end(s.skip(1));
        assert forall|j: int| 0 <= j < find_osc_end(s) implies #[trigger] s[j] != 0 && s[j]
            != 7 by {
            if j > 0 {
                assert(s.skip(1)[j - 1] == s[j]);
            }
        }
    }
}

/// The outcome of scanning one complete OSC sequence: the numeric
/// command, whether a `;` made it well formed, the payload text, and
/// the bytes left after the terminator.
pub ghost struct OscScan {
    pub cmd: usize,
    pub accepted: bool,
    pub text: Seq<u8>,
    pub bad: u8,
    pub rest: Seq<u8>,
}

/// Scan the byte stream after `ESC ]`: a digit run, then `;` and text
/// up to BEL or NUL. A sequence whose command is not followed by `;` is
/// abandoned at that byte. Nothing when the bytes run out first.
pub open spec fn osc_scan(s: Seq<u8>) -> Option<OscScan> {
    let k = digit_prefix_len(s);
    if k == s.len() {
        Option::None
    } else {
        let cmd = dec_value(s, 0);
        let s2 = s.skip(k);
        if s2[0] != 0x3B {
            Option::Some(
                OscScan {
                    cmd: cmd,
                    accepted: false,
                    text: Seq::empty(),
                    bad: s2[0],
                    rest: s2.skip(1),
                },
            )
        } else {
            let body = s2.skip(1);
            let e = find_osc_end(body);
            if e == body.len() {
                Option::None
            } else {
                Option::Some(
                    OscScan {
                        cmd: cmd,
                        accepted: true,
                        text: body.take(e),
                        bad: 0,
                        rest: body.skip(e + 1),
                    },
                )
            }
        }
    }
}


/// A digit run that ends inside `a` reads the same however much input
/// follows: the count and the value are unchanged by appending `b`.
proof fn lemma_digit_extend(a: Seq<u8>, b: Seq<u8>, acc: usize)
    requires
        digit_prefix_len(a) < a.len(),
    ensures
        digit_prefix_len(a + b) == digit_prefix_len(a),
        dec_value(a + b, acc) == dec_value(a, acc),
    decreases a.len(),
{
    lemma_digit_prefix_bounds(a);
    assert((a + b)[0] == a[0]);
    if a.len() > 0 && is_digit(a[0]) {
        assert((a + b).skip(1) =~= a.skip(1) + b);
        lemma_digit_prefix_bounds(a.skip(1));
        lemma_digit_extend(a.skip(1), b, sat_mul10_add(acc, (a[0] - 0x30) as usize));
    }
}

/// A complete CSI sequence means the same whatever input follows it:
/// parsing from `a` with any further input `b` appended yields the same
/// intro flags, parameters and final byte, and the extra input is left
/// over.
pub proof fn lemma_csi_scan_extend(a: Seq<u8>, b: Seq<u8>, q: bool, g: bool, args: Seq<usize>)
    requires
        csi_scan(a, q, g, args) is Some,
    ensures
        csi_scan(a + b, q, g, args) matches Option::Some(t2) && csi_scan(
            a,
            q,
            g,
            args,
        ) matches Option::Some(t1) && t2 == (CsiScan { rest: t1.rest + b, ..t1 }),
    decreases a.len(),
{
    assert(a.len() > 0);
    assert((a + b)[0] == a[0]);
    assert((a + b).len() > 0);
    if a[0] == 0x3F {
        assert((a + b).skip(1) =~= a.skip(1) + b);
        lemma_csi_scan_extend(a.skip(1), b, true, g, args);
    } else if a[0] == 0x3E {
        assert((a + b).skip(1) =~= a.skip(1) + b);
        lemma_csi_scan_extend(a.skip(1), b, q, true, args);
    } else if is_digit(a[0]) {
        let k = digit_prefix_len(a);
        lemma_digit_prefix_bounds(a);
        assert(digit_prefix_len(a) == 1 + digit_prefix_len(a.skip(1)));
        lemma_digit_prefix_bounds(a.skip(1));
        let n = dec_value(a, 0);
        let args2 = if args.len() < 2 {
            args.push(n)
        } else {
            args
        };
        if k == a.len() {
            assert(a.skip(k).len() == 0);
            assert(csi_scan(a.skip(k), q, g, args2) is None);
            assert(false);
        }
        lemma_digit_extend(a, b, 0);
        assert((a + b).skip(k) =~= a.skip(k) + b);
        lemma_csi_scan_extend(a.skip(k), b, q, g, args2);
    } else if a[0] == 0x3B {
        assert((a + b).skip(1) =~= a.skip(1) + b);
        lemma_csi_scan_extend(a.skip(1), b, q, g, args);
    } else {
        assert((a + b).skip(1) =~= a.skip(1) + b);
    }
}

/// A terminator found inside `a` is still the first terminator of
/// `a + b`.
proof fn lemma_find_osc_end_extend(a: Seq<u8>, b: Seq<u8>)
    requires
        find_osc_end(a) < a.len(),
    ensures
        find_osc_end(a + b) == find_osc_end(a),
    decreases a.len(),
{
    assert((a + b)[0] == a[0]);
    if !(a[0] == 0 || a[0] == 7) {
        assert((a + b).skip(1) =~= a.skip(1) + b);
        lemma_find_osc_end(a.skip(1));
        lemma_find_osc_end_extend(a.skip(1), b);
    }
}

/// The OSC analogue of `lemma_csi_scan_extend`: a complete OSC sequence
/// means the same whatever input follows it.
pub proof fn lemma_osc_scan_extend(a: Seq<u8>, b: Seq<u8>)
    requires
        osc_scan(a) is Some,
    ensures
        osc_scan(a + b) matches Option::Some(o2) && osc_scan(a) matches Option::Some(o1) && o2
            == (OscScan { rest: o1.rest + b, ..o1 }),
{
    let k = digit_prefix_len(a);
    lemma_digit_prefix_bounds(a);
    assert(k < a.len());
    lemma_digit_extend(a, b, 0);
    assert((a + b).skip(k) =~= a.skip(k) + b);
    let s2 = a.skip(k);
    assert((s2 + b)[0] == s2[0]);
    if s2[0] != 0x3B {
        assert((s2 + b).skip(1) =~= s2.skip(1) + b);
    } else {
        let body = s2.skip(1);
        assert((s2 + b).skip(1) =~= body + b);
        let e = find_osc_end(body);
        lemma_find_osc_end(body);
        assert(e < body.len());
        lemma_find_osc_end_extend(body, b);
        assert((body + b).take(e) =~= body.take(e));
        assert((body + b).skip(e + 1) =~= body.skip(e + 1) + b);
    }
}


/// One decoded UTF-8 unit: the scalar value and how many bytes it took.
pub ghost struct Utf8Scan {
    pub value: u32,
    pub len: int,
}

/// Walk the continuation bytes `s[j..=n]`, folding their low six bits
/// onto `acc`: the decoded scalar once all are seen, the replacement
/// scalar at the first non-continuation byte, nothing when the bytes
/// run out first.
pub open spec fn utf8_conts(s: Seq<u8>, j: int, n: int, acc: u32) -> Option<Utf8Scan>
    decreases n + 1 - j,
{
    if j > n {
        Option::Some(Utf8Scan { value: acc, len: n + 1 })
    } else if j >= s.len() {
        Option::None
    } else if !is_cont(s[j]) {
        Option::Some(Utf8Scan { value: 0xFFFD, len: j })
    } else {
        utf8_conts(s, j + 1, n, acc << 6 | (s[j] & 0x3F) as u32)
    }
}

/// Scan one UTF-8 unit from the head of `s`: a valid sequence decodes
/// to its scalar; a malformed lead or continuation yields the
/// replacement scalar and consumes up to the offending byte; nothing
/// when the sequence continues past the buffered bytes.
pub open spec fn utf8_scan(s: Seq<u8>) -> Option<Utf8Scan> {
    if s.len() == 0 {
        Option::None
    } else if is_lead2(s[0]) {
        utf8_conts(s, 1, 1, (s[0] & 0x1F) as u32)
    } else if is_lead3(s[0]) {
        utf8_conts(s, 1, 2, (s[0] & 0x0F) as u32)
    } else if is_lead4(s[0]) {
        utf8_conts(s, 1, 3, (s[0] & 0x07) as u32)
    } else {
        Option::Some(Utf8Scan { value: 0xFFFD, len: 1 })
    }
}

/// What one escape sequence does, given the bytes after `ESC`: the new
/// state and the bytes left after the sequence; nothing when the bytes
/// run out before it completes.
pub open spec fn spec_esc(ts: TermState, av: Seq<u8>) -> Option<(TermState, Seq<u8>)> {
    if av.len() == 0 {
        Option::None
    } else if av[0] == 0x28 {
        if av.len() < 2 {
            Option::None
        } else if av[1] == 0x42 {
            Option::Some((ts, av.skip(2)))
        } else {
            Option::Some(
                (
                    TermState {
                        todos: spec_record(ts.todos, TodoModel::G0Charset(av[1])),
                        ..ts
                    },
                    av.skip(2),
                ),
            )
        }
    } else if av[0] == 0x3D {
        Option::Some(
            (
                TermState { todos: spec_record(ts.todos, TodoModel::ApplicationKeypad), ..ts },
                av.skip(1),
            ),
        )
    } else if av[0] == 0x3E {
        Option::Some(
            (
                TermState { todos: spec_record(ts.todos, TodoModel::NormalKeypad), ..ts },
                av.skip(1),
            ),
        )
    } else if av[0] == 0x4D {
        Option::Some((TermState { screen: spec_esc_insert_top(ts.screen), ..ts }, av.skip(1)))
    } else if av[0] == 0x5B {
        match csi_scan(av.skip(1), false, false, Seq::empty()) {
            Option::Some(t) => Option::Some(
                (spec_apply_csi(ts, t.question, t.gt, t.args, t.cmd), t.rest),
            ),
            Option::None => Option::None,
        }
    } else if av[0] == 0x5D {
        match osc_scan(av.skip(1)) {
            Option::Some(o) => Option::Some(
                (TermState { todos: spec_osc_effect(ts.todos, o), ..ts }, o.rest),
            ),
            Option::None => Option::None,
        }
    } else {
        Option::Some(
            (
                TermState {
                    todos: spec_record(ts.todos, TodoModel::UnhandledEscape(av[0])),
                    ..ts
                },
                av.skip(1),
            ),
        )
    }
}

/// What one unit of input does: a C0 control byte, an escape sequence,
/// or one character written to the screen (non-ASCII text decodes as
/// UTF-8 and degrades to the `?` placeholder cell). The new state and
/// the bytes after the unit, or nothing when the unit continues past
/// the buffered bytes.
pub open spec fn spec_step(ts: TermState, av: Seq<u8>) -> Option<(TermState, Seq<u8>)> {
    let m = ts.screen;
    if av.len() == 0 {
        Option::None
    } else if av[0] == 0x07 {
        Option::Some(
            (TermState { todos: spec_record(ts.todos, TodoModel::Bell), ..ts }, av.skip(1)),
        )
    } else if av[0] == 0x08 {
        Option::Some(
            (
                TermState { screen: VtModel { col: m.col.saturating_sub(1), ..m }, ..ts },
                av.skip(1),
            ),
        )
    } else if av[0] == 0x09 {
        Option::Some(
            (
                TermState {
                    screen: VtModel {
                        col: m.col.saturating_add((8 - m.col % 8) as usize),
                        ..m
                    },
                    ..ts
                },
                av.skip(1),
            ),
        )
    } else if av[0] == 0x0A {
        Option::Some(
            (
                TermState { screen: VtModel { row: m.row.saturating_add(1), col: 0, ..m }, ..ts },
                av.skip(1),
            ),
        )
    } else if av[0] == 0x0D {
        Option::Some((TermState { screen: VtModel { col: 0, ..m }, ..ts }, av.skip(1)))
    } else if av[0] == 0x1B {
        spec_esc(ts, av.skip(1))
    } else if 0x20 <= av[0] < 0x80 {
        Option::Some(
            (
                TermState { screen: crate::screen::spec_put(m, av[0] as char), ..ts },
                av.skip(1),
            ),
        )
    } else if av[0] >= 0x80 {
        match utf8_scan(av) {
            Option::Some(u) => Option::Some(
                (TermState { screen: crate::screen::spec_put(m, '?'), ..ts }, av.skip(u.len)),
            ),
            Option::None => Option::None,
        }
    } else {
        Option::Some(
            (
                TermState {
                    todos: spec_record(ts.todos, TodoModel::UnhandledByte(av[0])),
                    ..ts
                },
                av.skip(1),
            ),
        )
    }
}


/// A decoded unit spans at least one and at most all buffered bytes.
proof fn lemma_utf8_conts_bounds(s: Seq<u8>, j: int, n: int, acc: u32)
    requires
        1 <= j <= n + 1,
        j <= s.len(),
    ensures
        utf8_conts(s, j, n, acc) matches Option::Some(u) ==> 1 <= u.len <= s.len(),
    decreases n + 1 - j,
{
    if j <= n && j < s.len() && is_cont(s[j]) {
        lemma_utf8_conts_bounds(s, j + 1, n, acc << 6 | (s[j] & 0x3F) as u32);
    }
}

/// A scanned UTF-8 unit consumes at least one byte and never more than
/// are buffered.
proof fn lemma_utf8_scan_consumes(s: Seq<u8>)
    ensures
        utf8_scan(s) matches Option::Some(u) ==> 1 <= u.len <= s.len(),
{
    if s.len() > 0 && is_lead2(s[0]) {
        lemma_utf8_conts_bounds(s, 1, 1, (s[0] & 0x1F) as u32);
    } else if s.len() > 0 && is_lead3(s[0]) {
        lemma_utf8_conts_bounds(s, 1, 2, (s[0] & 0x0F) as u32);
    } else if s.len() > 0 && is_lead4(s[0]) {
        lemma_utf8_conts_bounds(s, 1, 3, (s[0] & 0x07) as u32);
    }
}

/// A complete unit of a scanned UTF-8 sequence, however much input
/// follows it, is the same unit.
proof fn lemma_utf8_conts_extend(a: Seq<u8>, b: Seq<u8>, j: int, n: int, acc: u32)
    requires
        utf8_conts(a, j, n, acc) is Some,
        1 <= j <= n + 1,
    ensures
        utf8_conts(a + b, j, n, acc) == utf8_conts(a, j, n, acc),
    decreases n + 1 - j,
{
    if j <= n {
        assert((a + b)[j] == a[j]);
        if is_cont(a[j]) {
            lemma_utf8_conts_extend(a, b, j + 1, n, acc << 6 | (a[j] & 0x3F) as u32);
        }
    }
}

/// The UTF-8 analogue of `lemma_csi_scan_extend`.
proof fn lemma_utf8_scan_extend(a: Seq<u8>, b: Seq<u8>)
    requires
        utf8_scan(a) is Some,
    ensures
        utf8_scan(a + b) == utf8_scan(a),
{
    assert(a.len() > 0);
    assert((a + b)[0] == a[0]);
    if is_lead2(a[0]) {
        lemma_utf8_conts_extend(a, b, 1, 1, (a[0] & 0x1F) as u32);
    } else if is_lead3(a[0]) {
        lemma_utf8_conts_extend(a, b, 1, 2, (a[0] & 0x0F) as u32);
    } else if is_lead4(a[0]) {
        lemma_utf8_conts_extend(a, b, 1, 3, (a[0] & 0x07) as u32);
    }
}

/// A complete CSI sequence consumes at least its final byte.
proof fn lemma_csi_scan_consumes(s: Seq<u8>, q: bool, g: bool, args: Seq<usize>)
    requires
        csi_scan(s, q, g, args) is Some,
    ensures
        csi_scan(s, q, g, args) matches Option::Some(t) ==> t.rest.len() < s.len(),
    decreases s.len(),
{
    assert(s.len() > 0);
    if s[0] == 0x3F {
        lemma_csi_scan_consumes(s.skip(1), true, g, args);
    } else if s[0] == 0x3E {
        lemma_csi_scan_consumes(s.skip(1), q, true, args);
    } else if is_digit(s[0]) {
        let k = digit_prefix_len(s);
        lemma_digit_prefix_bounds(s);
        assert(digit_prefix_len(s) == 1 + digit_prefix_len(s.skip(1)));
        lemma_digit_prefix_bounds(s.skip(1));
        let n = dec_value(s, 0);
        let args2 = if args.len() < 2 {
            args.push(n)
        } else {
            args
        };
        if k == s.len() {
            assert(s.skip(k).len() == 0);
            assert(csi_scan(s.skip(k), q, g, args2) is None);
            assert(false);
        }
        lemma_csi_scan_consumes(s.skip(k), q, g, args2);
    } else if s[0] == 0x3B {
        lemma_csi_scan_consumes(s.skip(1), q, g, args);
    }
}

/// A complete OSC sequence consumes at least its terminator.
proof fn lemma_osc_scan_consumes(s: Seq<u8>)
    requires
        osc_scan(s) is Some,
    ensures
        osc_scan(s) matches Option::Some(o) ==> o.rest.len() < s.len(),
{
    let k = digit_prefix_len(s);
    lemma_digit_prefix_bounds(s);
    assert(k < s.len());
    let s2 = s.skip(k);
    if s2[0] == 0x3B {
        let body = s2.skip(1);
        lemma_find_osc_end(body);
    }
}

/// A complete escape sequence consumes at least one byte after `ESC`.
proof fn lemma_esc_consumes(ts: TermState, av: Seq<u8>)
    requires
        spec_esc(ts, av) is Some,
    ensures
        spec_esc(ts, av) matches Option::Some(t) ==> t.1.len() < av.len(),
{
    assert(av.len() > 0);
    if av[0] == 0x5B {
        lemma_csi_scan_consumes(av.skip(1), false, false, Seq::empty());
    } else if av[0] == 0x5D {
        lemma_osc_scan_consumes(av.skip(1));
    }
}

/// Every complete unit consumes at least one byte.
proof fn lemma_step_consumes(ts: TermState, av: Seq<u8>)
    requires
        spec_step(ts, av) is Some,
    ensures
        spec_step(ts, av) matches Option::Some(t) ==> t.1.len() < av.len(),
{
    assert(av.len() > 0);
    if av[0] == 0x1B {
        lemma_esc_consumes(ts, av.skip(1));
    } else if av[0] >= 0x80 {
        lemma_utf8_scan_consumes(av);
    }
}

/// The escape analogue of `lemma_csi_scan_extend`: a complete escape
/// sequence means the same whatever input follows it.
proof fn lemma_esc_extend(ts: TermState, a: Seq<u8>, b: Seq<u8>)
    requires
        spec_esc(ts, a) is Some,
    ensures
        spec_esc(ts, a + b) matches Option::Some(t2) && spec_esc(ts, a) matches Option::Some(t1)
            && t2 == (t1.0, t1.1 + b),
{
    assert(a.len() > 0);
    assert((a + b)[0] == a[0]);
    assert((a + b).skip(1) =~= a.skip(1) + b);
    if a[0] == 0x28 {
        assert(a.len() >= 2);
        assert((a + b)[1] == a[1]);
        assert((a + b).skip(2) =~= a.skip(2) + b);
    } else if a[0] == 0x5B {
        lemma_csi_scan_extend(a.skip(1), b, false, false, Seq::empty());
    } else if a[0] == 0x5D {
        lemma_osc_scan_extend(a.skip(1), b);
    }
}

/// Splitting input at any byte boundary does not change what one unit
/// means: a complete unit scanned from `a` is the same unit with the
/// same effect when any further input `b` follows, and the extra input
/// is left over.
pub proof fn lemma_step_extend(ts: TermState, a: Seq<u8>, b: Seq<u8>)
    requires
        spec_step(ts, a) is Some,
    ensures
        spec_step(ts, a + b) matches Option::Some(t2) && spec_step(ts, a) matches Option::Some(t1)
            && t2 == (t1.0, t1.1 + b),
{
    assert(a.len() > 0);
    assert((a + b)[0] == a[0]);
    assert((a + b).skip(1) =~= a.skip(1) + b);
    if a[0] == 0x1B {
        lemma_esc_extend(ts, a.skip(1), b);
    } else if a[0] >= 0x80 {
        lemma_utf8_scan_extend(a, b);
        lemma_utf8_scan_consumes(a);
        let u = utf8_scan(a)->0;
        assert((a + b).skip(u.len) =~= a.skip(u.len) + b);
    }
}

/// Drive the parser over `av`: apply one unit after another until no
/// complete unit remains; the final state and the leftover bytes of
/// the incomplete unit, if any.
pub open spec fn spec_drive(ts: TermState, av: Seq<u8>) -> (TermState, Seq<u8>)
    decreases av.len(),
    via spec_drive_decreases
{
    match spec_step(ts, av) {
        Option::None => (ts, av),
        Option::Some(t) => spec_drive(t.0, t.1),
    }
}

#[via_fn]
proof fn spec_drive_decreases(ts: TermState, av: Seq<u8>) {
    if spec_step(ts, av) is Some {
        lemma_step_consumes(ts, av);
    }
}

/// Splitting input at any byte boundary and feeding it in two rounds
/// drives the parser to the same state as one round over the whole
/// stream: the first round's leftover bytes, put before the second
/// round's input, resume exactly where the stream stood.
pub proof fn lemma_drive_split(ts: TermState, a: Seq<u8>, b: Seq<u8>)
    ensures
        spec_drive(ts, a + b) == spec_drive(spec_drive(ts, a).0, spec_drive(ts, a).1 + b),
    decreases a.len(),
{
    match spec_step(ts, a) {
        Option::None => {
            assert(spec_drive(ts, a) == (ts, a));
        },
        Option::Some(t) => {
            lemma_step_extend(ts, a, b);
            lemma_step_consumes(ts, a);
            lemma_drive_split(t.0, t.1, b);
            assert(spec_drive(ts, a + b) == spec_drive(t.0, t.1 + b));
            assert(spec_drive(ts, a) == spec_drive(t.0, t.1));
        },
    }
}


/// An SGR parameter list whose last parameter is `0` restores the empty
/// attribute word, whatever it held before.
proof fn lemma_sgr_last_reset(v: u16, todos: Seq<TodoModel>, args: Seq<usize>)
    requires
        args.len() > 0,
        args.last() == 0,
    ensures
        spec_sgr(v, todos, args).0 == 0,
    decreases args.len(),
{
    let t1 = if sgr_known(args[0]) {
        todos
    } else {
        spec_record(todos, TodoModel::SetAttr(args[0]))
    };
    assert(spec_sgr(v, todos, args) == spec_sgr(spec_sgr_attr(v, args[0]), t1, args.skip(1)));
    if args.len() == 1 {
        assert(args[0] == 0);
        assert(args.skip(1).len() == 0);
        assert(spec_sgr_attr(v, args[0]) == 0);
        assert(spec_sgr(spec_sgr_attr(v, args[0]), t1, args.skip(1)).0 == 0);
    } else {
        assert(args.skip(1).last() == args.last());
        lemma_sgr_last_reset(spec_sgr_attr(v, args[0]), t1, args.skip(1));
    }
}

/// Round trip: an SGR reset (`CSI 0 m`, bare `CSI m`, or any SGR list
/// ending in `0`) restores `attr == 0`, whatever attribute sequences
/// were applied before.
pub proof fn lemma_sgr_reset(s: TermState, question: bool, gt: bool, args: Seq<usize>)
    requires
        args.len() == 0 || args.last() == 0,
    ensures
        spec_apply_csi(s, question, gt, args, 0x6D).screen.attr.val == 0,
{
    if args.len() > 0 {
        lemma_sgr_last_reset(s.screen.attr.val, s.todos, args);
    }
}

/// Attribute changes never mutate existing cells: an SGR sequence
/// leaves every cell of the grid as it was, and only subsequent writes
/// pick up the new pen.
pub proof fn lemma_sgr_leaves_cells(s: TermState, question: bool, gt: bool, args: Seq<usize>)
    ensures
        spec_apply_csi(s, question, gt, args, 0x6D).screen.lines == s.screen.lines,
        spec_apply_csi(s, question, gt, args, 0x6D).screen.row == s.screen.row,
        spec_apply_csi(s, question, gt, args, 0x6D).screen.col == s.screen.col,
{
}

/// The record one scanned OSC sequence makes: its command with its
/// payload, or the malformed-sequence record when no `;` followed the
/// command.
pub open spec fn spec_osc_effect(todos: Seq<TodoModel>, o: OscScan) -> Seq<TodoModel> {
    if o.accepted {
        spec_record(todos, spec_osc_todo(o.cmd, o.text))
    } else {
        spec_record(todos, TodoModel::MalformedOsc(o.cmd, o.bad))
    }
}

/// Which record an OSC command with a given payload makes.
pub open spec fn spec_osc_todo(cmd: usize, text: Seq<u8>) -> TodoModel {
    if cmd == 0 {
        TodoModel::SetTitleIcon(text)
    } else if cmd == 1 {
        TodoModel::SetIcon(text)
    } else if cmd == 2 {
        TodoModel::SetTitle(text)
    } else if cmd == 11 {
        TodoModel::BackgroundControl(text)
    } else {
        TodoModel::OscOther(cmd, text)
    }
}

/// A UTF-8 lead byte of a two-byte sequence.
pub open spec fn is_lead2(b: u8) -> bool {
    b >> 5 == 6
}

/// A UTF-8 lead byte of a three-byte sequence.
pub open spec fn is_lead3(b: u8) -> bool {
    b >> 4 == 0xE
}

/// A UTF-8 lead byte of a four-byte sequence.
pub open spec fn is_lead4(b: u8) -> bool {
    b >> 3 == 0x1E
}

/// A UTF-8 continuation byte.
pub open spec fn is_cont(b: u8) -> bool {
    b >> 6 == 2
}


/// The outcome of scanning one complete CSI sequence: the intro flags,
/// the parameters kept (two at most; extras are parsed and discarded),
/// the final byte, and the bytes left after it.
pub ghost struct CsiScan {
    pub question: bool,
    pub gt: bool,
    pub args: Seq<usize>,
    pub cmd: u8,
    pub rest: Seq<u8>,
}

/// Scan the byte stream after `ESC [`: `?` and `>` set the intro
/// flags, digit runs become parameters, `;` separates them, and the
/// first other byte is the final byte. Nothing when the bytes run out
/// first.
pub open spec fn csi_scan(s: Seq<u8>, question: bool, gt: bool, args: Seq<usize>) -> Option<
    CsiScan,
>
    decreases s.len(),
    via csi_scan_decreases
{
    if s.len() == 0 {
        Option::None
    } else if s[0] == 0x3F {
        csi_scan(s.skip(1), true, gt, args)
    } else if s[0] == 0x3E {
        csi_scan(s.skip(1), question, true, args)
    } else if is_digit(s[0]) {
        let k = digit_prefix_len(s);
        let n = dec_value(s, 0);
        let args2 = if args.len() < 2 {
            args.push(n)
        } else {
            args
        };
        csi_scan(s.skip(k), question, gt, args2)
    } else if s[0] == 0x3B {
        csi_scan(s.skip(1), question, gt, args)
    } else {
        Option::Some(
            CsiScan { question: question, gt: gt, args: args, cmd: s[0], rest: s.skip(1) },
        )
    }
}

#[via_fn]
proof fn csi_scan_decreases(s: Seq<u8>, question: bool, gt: bool, args: Seq<usize>) {
    if s.len() > 0 && s[0] != 0x3F && s[0] != 0x3E && is_digit(s[0]) {
        lemma_digit_prefix_bounds(s.skip(1));
        assert(digit_prefix_len(s) == 1 + digit_prefix_len(s.skip(1)));
    }
}


impl VTRead {
    /// Read one CSI sequence after `ESC [`: optional `?` / `>` intro,
    /// numeric parameters separated by `;` (two kept, extras parsed and
    /// discarded), then the final byte, which selects the command. The
    /// command is applied only after its final byte is consumed: on a
    /// short buffer nothing has changed and `None` asks for a refill.
    pub fn read_csi(&mut self, r: &mut ByteScanner) -> (res: Option<()>)
        requires
            old(r).wf(),
        ensures
            final(r).wf(),
            final(r).contents() == old(r).contents(),
            final(r).pos() >= old(r).pos(),
            res is None ==> *final(self) == *old(self),
            res is Some ==> final(r).pos() > old(r).pos(),
            todos_unique(old(self)@.todos) ==> todos_unique(final(self)@.todos),
            ({
                let sc = csi_scan(old(r).avail(), false, false, Seq::empty());
                &&& (sc is None <==> res is None)
                &&& sc matches Option::Some(t) ==> final(self)@ == spec_apply_csi(
                    old(self)@,
                    t.question,
                    t.gt,
                    t.args,
                    t.cmd,
                ) && final(r).avail() == t.rest && final(r).pos() == old(r).contents().len()
                    - t.rest.len()
            }),
    {
        let mut question = false;
        let mut gt = false;
        let mut args: Vec<usize> = Vec::new();
        proof {
            assert(args@ =~= Seq::<usize>::empty());
        }
        loop
            invariant
                r.wf(),
                r.contents() == old(r).contents(),
                r.pos() >= old(r).pos(),
                *self == *old(self),
                csi_scan(old(r).avail(), false, false, Seq::empty()) == csi_scan(
                    r.avail(),
                    question,
                    gt,
                    args@,
                ),
            decreases r.contents().len() - r.pos(),
        {
            let ghost avp = r.avail();
            let c = match r.next() {
                Option::None => {
                    return Option::None;
                },
                Option::Some(c) => c,
            };
            proof {
                assert(avp[0] == c);
                assert(r.avail() =~= avp.skip(1));
            }
            if c == 0x3F {
                question = true;
            } else if c == 0x3E {
                gt = true;
            } else if c >= 0x30 && c <= 0x39 {
                r.back();
                proof {
                    assert(r.avail() =~= avp);
                    assert(digit_prefix_len(avp) == 1 + digit_prefix_len(avp.skip(1)));
                    lemma_digit_prefix_bounds(avp.skip(1));
                }
                let n = match self.read_num(r) {
                    Option::None => {
                        proof {
                            let k = digit_prefix_len(avp);
                            assert(avp.skip(k).len() == 0);
                            assert(csi_scan(
                                avp.skip(k),
                                question,
                                gt,
                                if args@.len() < 2 {
                                    args@.push(dec_value(avp, 0))
                                } else {
                                    args@
                                },
                            ) is None);
                            assert(csi_scan(avp, question, gt, args@) is None);
                        }
                        return Option::None;
                    },
                    Option::Some(n) => n,
                };
                let ghost pargs = args@;
                if args.len() < 2 {
                    args.push(n);
                }
                proof {
                    assert(r.avail() =~= avp.skip(digit_prefix_len(avp)));
                    assert(args@ == if pargs.len() < 2 {
                        pargs.push(n)
                    } else {
                        pargs
                    });
                    assert(csi_scan(avp, question, gt, pargs) == csi_scan(
                        r.avail(),
                        question,
                        gt,
                        args@,
                    ));
                }
            } else if c == 0x3B {
                // separator between parameters
            } else {
                // the final byte selects and applies the command
                proof {
                    assert(csi_scan(avp, question, gt, args@) matches Option::Some(t)
                        && t.question == question && t.gt == gt && t.args == args@ && t.cmd == c
                        && t.rest == avp.skip(1));
                    assert(r.avail().len() == r.contents().len() - r.pos());
                }
                let ghost pre = self@;
                self.apply_csi(question, gt, &args, c);
                proof {
                    assert(self@ == spec_apply_csi(pre, question, gt, args@, c));
                }
                return Option::Some(());
            }
        }
    }

    /// Read one OSC sequence after `ESC ]`: a numeric command, `;`, then
    /// text up to BEL or NUL; the whole sequence is recorded once. A
    /// command not followed by `;` is recorded as malformed; the byte
    /// that broke it is consumed and what follows is left for the
    /// ground state.
    pub fn read_osc(&mut self, r: &mut ByteScanner) -> (res: Option<()>)
        requires
            old(r).wf(),
        ensures
            final(r).wf(),
            final(r).contents() == old(r).contents(),
            final(r).pos() >= old(r).pos(),
            res is None ==> *final(self) == *old(self),
            res is Some ==> final(r).pos() > old(r).pos(),
            final(self)@.screen == old(self)@.screen,
            final(self)@.outbound == old(self)@.outbound,
            todos_unique(old(self)@.todos) ==> todos_unique(final(self)@.todos),
            ({
                let sc = osc_scan(old(r).avail());
                &&& (sc is None <==> res is None)
                &&& sc matches Option::Some(o) ==> final(self)@.todos == spec_osc_effect(
                    old(self)@.todos,
                    o,
                ) && final(r).avail() == o.rest && final(r).pos() == old(r).contents().len()
                    - o.rest.len()
            }),
    {
        proof {
            lemma_digit_prefix_bounds(old(r).avail());
        }
        let cmd = match self.read_num(r) {
            Option::None => {
                return Option::None;
            },
            Option::Some(n) => n,
        };
        let ghost s2 = r.avail();
        proof {
            assert(s2 =~= old(r).avail().skip(digit_prefix_len(old(r).avail())));
        }
        let c = match r.next() {
            Option::None => {
                return Option::None;
            },
            Option::Some(c) => c,
        };
        proof {
            assert(s2[0] == c);
            assert(r.avail() =~= s2.skip(1));
        }
        if c != 0x3B {
            // a malformed sequence is recorded once, and skipped
            self.todo(Todo::MalformedOsc(cmd, c));
            return Option::Some(());
        }
        let ghost body = r.avail();
        proof {
            lemma_find_osc_end(body);
        }
        let mut text: Vec<u8> = Vec::new();
        let ghost mut i: int = 0;
        let ghost e = find_osc_end(body);
        let mut done = false;
        proof {
            assert(osc_scan(old(r).avail()) == (if e == body.len() {
                Option::<OscScan>::None
            } else {
                Option::Some(
                    OscScan {
                        cmd: dec_value(old(r).avail(), 0),
                        accepted: true,
                        text: body.take(e),
                        bad: 0,
                        rest: body.skip(e + 1),
                    },
                )
            }));
        }
        while !done
            invariant
                r.wf(),
                r.contents() == old(r).contents(),
                r.pos() > old(r).pos(),
                *self == *old(self),
                e == find_osc_end(body),
                cmd as int == dec_value(old(r).avail(), 0),
                osc_scan(old(r).avail()) == (if e == body.len() {
                    Option::<OscScan>::None
                } else {
                    Option::Some(
                        OscScan {
                            cmd: dec_value(old(r).avail(), 0),
                            accepted: true,
                            text: body.take(e),
                            bad: 0,
                            rest: body.skip(e + 1),
                        },
                    )
                }),
                !done ==> 0 <= i <= e && i <= body.len() && r.avail() == body.skip(i) && text@
                    == body.take(i),
                done ==> e < body.len() && r.avail() == body.skip(e + 1) && text@ == body.take(e),
            decreases r.contents().len() - r.pos() + (if done {
                0int
            } else {
                1int
            }),
        {
            proof {
                lemma_find_osc_end(body);
            }
            let b = match r.next() {
                Option::None => {
                    proof {
                        assert(body.skip(i).len() == 0);
                        assert(i == body.len());
                        assert(e == body.len());
                    }
                    return Option::None;
                },
                Option::Some(b) => b,
            };
            proof {
                assert(body.skip(i)[0] == body[i]);
                assert(b == body[i]);
                assert forall|x: int| 0 <= x < r.avail().len() implies r.avail()[x]
                    == #[trigger] body.skip(i + 1)[x] by {
                    assert(r.avail()[x] == r.contents()[r.pos() + x]);
                    assert(body.skip(i)[1 + x] == body[i + 1 + x]);
                    assert(body.skip(i + 1)[x] == body[i + 1 + x]);
                }
                assert(r.avail().len() == body.skip(i + 1).len());
                assert(r.avail() =~= body.skip(i + 1));
            }
            if b == 0 || b == 7 {
                done = true;
                proof {
                    assert(e == i);
                }
            } else {
                text.push(b);
                proof {
                    assert(e != i);
                    i = i + 1;
                    assert(text@ =~= body.take(i));
                }
            }
        }
        let ghost pre = self@.todos;
        let ghost tv = text@;
        if cmd == 0 {
            self.todo(Todo::SetTitleIcon(text));
        } else if cmd == 1 {
            self.todo(Todo::SetIcon(text));
        } else if cmd == 2 {
            self.todo(Todo::SetTitle(text));
        } else if cmd == 11 {
            self.todo(Todo::BackgroundControl(text));
        } else {
            self.todo(Todo::OscOther(cmd, text));
        }
        proof {
            assert(self@.todos == spec_record(pre, spec_osc_todo(cmd as usize, tv)));
        }
        Option::Some(())
    }

    /// Dispatch one escape sequence after `ESC`: charset designation,
    /// keypad modes, reverse index, CSI or OSC.
    pub fn read_escape(&mut self, r: &mut ByteScanner) -> (res: Option<()>)
        requires
            old(r).wf(),
        ensures
            final(r).wf(),
            final(r).contents() == old(r).contents(),
            final(r).pos() >= old(r).pos(),
            res is None ==> *final(self) == *old(self),
            res is Some ==> final(r).pos() > old(r).pos(),
            todos_unique(old(self)@.todos) ==> todos_unique(final(self)@.todos),
            (spec_esc(old(self)@, old(r).avail()) is None <==> res is None),
            spec_esc(old(self)@, old(r).avail()) matches Option::Some(t) ==> final(self)@ == t.0
                && final(r).avail() == t.1,
    {
        let c = match r.next() {
            Option::None => {
                return Option::None;
            },
            Option::Some(c) => c,
        };
        if c == 0x28 {
            // designate G0 charset
            let c2 = match r.next() {
                Option::None => {
                    return Option::None;
                },
                Option::Some(c2) => c2,
            };
            if c2 == 0x42 {
                // US ASCII: the default; nothing to do
            } else {
                proof {
                    if todos_unique(self@.todos) {
                        lemma_record_unique(self@.todos, TodoModel::G0Charset(c2));
                    }
                }
                self.todo(Todo::G0Charset(c2));
            }
            Option::Some(())
        } else if c == 0x3D {
            proof {
                if todos_unique(self@.todos) {
                    lemma_record_unique(self@.todos, TodoModel::ApplicationKeypad);
                }
            }
            self.todo(Todo::ApplicationKeypad);
            Option::Some(())
        } else if c == 0x5B {
            proof {
                assert(r.avail() =~= old(r).avail().skip(1));
            }
            self.read_csi(r)
        } else if c == 0x5D {
            proof {
                assert(r.avail() =~= old(r).avail().skip(1));
            }
            self.read_osc(r)
        } else if c == 0x3E {
            proof {
                if todos_unique(self@.todos) {
                    lemma_record_unique(self@.todos, TodoModel::NormalKeypad);
                }
            }
            self.todo(Todo::NormalKeypad);
            Option::Some(())
        } else if c == 0x4D {
            // reverse index: insert a blank line at the top of the viewport
            self.vt.ensure_pos();
            let t = self.vt.top;
            if t <= self.vt.lines.len() {
                self.vt.insert_line_at(t);
            }
            Option::Some(())
        } else {
            proof {
                if todos_unique(self@.todos) {
                    lemma_record_unique(self@.todos, TodoModel::UnhandledEscape(c));
                }
            }
            self.todo(Todo::UnhandledEscape(c));
            Option::Some(())
        }
    }

    /// Decode one UTF-8 scalar whose lead byte is next in the scanner.
    /// A short buffer asks for a refill; a malformed sequence yields the
    /// replacement scalar and advances, so bad input never wedges the
    /// stream.
    pub fn read_utf8(&mut self, r: &mut ByteScanner) -> (res: Option<u32>)
        requires
            old(r).wf(),
        ensures
            *final(self) == *old(self),
            final(r).wf(),
            final(r).contents() == old(r).contents(),
            final(r).pos() >= old(r).pos(),
            (utf8_scan(old(r).avail()) is None <==> res is None),
            utf8_scan(old(r).avail()) matches Option::Some(u) ==> res == Option::Some(u.value)
                && final(r).avail() == old(r).avail().skip(u.len) && final(r).pos() == old(r).pos()
                + u.len,
    {
        let ghost av = old(r).avail();
        let c = match r.next() {
            Option::None => {
                return Option::None;
            },
            Option::Some(c) => c,
        };
        let n: usize;
        let mut rune: u32;
        if let Option::Some(b) = bprefix(c, 3, 6) {
            n = 1;
            rune = b as u32;
        } else if let Option::Some(b) = bprefix(c, 4, 0xE) {
            n = 2;
            rune = b as u32;
        } else if let Option::Some(b) = bprefix(c, 5, 0x1E) {
            n = 3;
            rune = b as u32;
        } else {
            proof {
                assert(c >> 5 != 6 ==> !is_lead2(c)) by (bit_vector);
                assert(c >> 4 != 0xE ==> !is_lead3(c)) by (bit_vector);
                assert(c >> 3 != 0x1E ==> !is_lead4(c)) by (bit_vector);
                assert(r.avail() =~= av.skip(1));
            }
            return Option::Some(0xFFFD);
        }
        proof {
            assert(is_lead2(c) ==> !is_lead3(c) && !is_lead4(c)) by (bit_vector);
            assert(is_lead3(c) ==> !is_lead2(c) && !is_lead4(c)) by (bit_vector);
            assert(is_lead4(c) ==> !is_lead2(c) && !is_lead3(c)) by (bit_vector);
            assert(((1u8 << 5) - 1) as u8 == 0x1F) by (bit_vector);
            assert(((1u8 << 4) - 1) as u8 == 0x0F) by (bit_vector);
            assert(((1u8 << 3) - 1) as u8 == 0x07) by (bit_vector);
            assert(av[0] == c);
            assert(utf8_scan(av) == utf8_conts(av, 1, n as int, rune));
        }
        let mut k: usize = 0;
        #[verifier::loop_isolation(false)]
        while k < n
            invariant
                1 <= n <= 3,
                k <= n,
                *self == *old(self),
                r.wf(),
                r.contents() == old(r).contents(),
                r.pos() == old(r).pos() + 1 + k,
                av == old(r).avail(),
                av.len() >= 1 + k,
                is_lead2(av[0]) || is_lead3(av[0]) || is_lead4(av[0]),
                is_lead2(av[0]) ==> n == 1,
                is_lead3(av[0]) ==> n == 2,
                is_lead4(av[0]) ==> n == 3,
                r.avail() == av.skip(1 + k),
                utf8_scan(av) == utf8_conts(av, 1 + k, n as int, rune),
                forall|j: int| 1 <= j <= k ==> is_cont(#[trigger] av[j]),
            decreases n - k,
        {
            let c2 = match r.next() {
                Option::None => {
                    proof {
                        assert(av.skip(1 + k).len() == 0);
                        assert(1 + k >= av.len());
                        assert(utf8_conts(av, 1 + k, n as int, rune) is None);
                        assert(utf8_scan(av) is None);
                    }
                    return Option::None;
                },
                Option::Some(c2) => c2,
            };
            proof {
                assert(av.skip(1 + k).len() > 0);
                assert(av.skip(1 + k)[0] == av[1 + k]);
                assert(av[1 + k] == c2);
            }
            if let Option::Some(b) = bprefix(c2, 2, 2) {
                proof {
                    assert(((1u8 << 6) - 1) as u8 == 0x3F) by (bit_vector);
                    assert(b == (c2 & 0x3F));
                }
                rune = rune << 6 | b as u32;
                proof {
                    assert(is_cont(c2));
                    assert forall|x: int| 0 <= x < av.skip(1 + k).skip(1).len() implies av.skip(
                        1 + k,
                    ).skip(1)[x] == #[trigger] av.skip(1 + k + 1)[x] by {
                        assert(av.skip(1 + k).skip(1)[x] == av[1 + k + 1 + x]);
                        assert(av.skip(1 + k + 1)[x] == av[1 + k + 1 + x]);
                    }
                    assert(av.skip(1 + k).skip(1) =~= av.skip(1 + k + 1));
                }
                k += 1;
            } else {
                r.back();
                proof {
                    assert(!is_cont(c2));
                    assert(utf8_conts(av, 1 + k, n as int, rune) == Option::Some(
                        Utf8Scan { value: 0xFFFD, len: 1 + k },
                    ));
                    assert(r.avail() =~= av.skip(1 + k));
                }
                return Option::Some(0xFFFD);
            }
        }
        proof {
            assert(utf8_conts(av, 1 + k, n as int, rune) == Option::Some(
                Utf8Scan { value: rune, len: n + 1 },
            ));
        }
        Option::Some(rune)
    }

    /// Consume one unit of input: a C0 control byte, an escape sequence,
    /// or a printable character written to the screen; non-ASCII text is
    /// decoded as UTF-8 and degraded to a `?` placeholder cell.
    pub fn read(&mut self, r: &mut ByteScanner) -> (res: Option<()>)
        requires
            old(r).wf(),
        ensures
            final(r).wf(),
            final(r).contents() == old(r).contents(),
            final(r).pos() >= old(r).pos(),
            res is None ==> *final(self) == *old(self),
            res is Some ==> final(r).pos() > old(r).pos(),
            todos_unique(old(self)@.todos) ==> todos_unique(final(self)@.todos),
            (spec_step(old(self)@, old(r).avail()) is None <==> res is None),
            spec_step(old(self)@, old(r).avail()) matches Option::Some(t) ==> final(self)@ == t.0
                && final(r).avail() == t.1,
    {
        let c = match r.next() {
            Option::None => {
                return Option::None;
            },
            Option::Some(c) => c,
        };
        if c == 0x07 {
            self.todo(Todo::Bell);
            Option::Some(())
        } else if c == 0x08 {
            self.vt.move_left(1);
            Option::Some(())
        } else if c == 0x09 {
            let cur = self.vt.col;
            self.vt.col = cur.saturating_add(8 - cur % 8);
            Option::Some(())
        } else if c == 0x0A {
            self.vt.row = self.vt.row.saturating_add(1);
            self.vt.col = 0;
            Option::Some(())
        } else if c == 0x0D {
            self.vt.col = 0;
            Option::Some(())
        } else if c == 0x1B {
            proof {
                assert(r.avail() =~= old(r).avail().skip(1));
                if old(r).avail().len() >= 2 {
                    assert(old(r).avail().skip(1).skip(1) =~= old(r).avail().skip(2));
                }
            }
            self.read_escape(r)
        } else if c >= 0x20 {
            if c >= 0x80 {
                r.back();
                proof {
                    assert(r.avail() =~= old(r).avail());
                    lemma_utf8_scan_consumes(old(r).avail());
                }
                match self.read_utf8(r) {
                    Option::None => {
                        return Option::None;
                    },
                    Option::Some(_) => {
                        self.vt.put('?');
                    },
                }
            } else {
                self.vt.put(c as char);
            }
            Option::Some(())
        } else {
            self.todo(Todo::UnhandledByte(c));
            Option::Some(())
        }
    }
}

/// The stateful reader: the parser plus the scanner it consumes, fed
/// with chunks of PTY output and driven until the input runs short.
pub struct VTReader {
    pub state: VTRead,
    pub r: ByteScanner,
}

impl VTReader {
    pub fn new() -> (s: VTReader)
        ensures
            s.state@.screen == crate::screen::spec_new_vt(),
            s.state@.todos == Seq::<TodoModel>::empty(),
            s.state@.outbound == Seq::<u8>::empty(),
            s.r.wf(),
            s.r.avail() == Seq::<u8>::empty(),
            todos_unique(s.state@.todos),
    {
        VTReader { state: VTRead::new(), r: ByteScanner::new() }
    }

    /// Drive the parser over what the scanner holds, one unit at a
    /// time, until no complete unit remains, rewinding to the start of
    /// the incomplete unit so a later refill resumes it.
    fn drain(&mut self)
        requires
            old(self).r.wf(),
        ensures
            final(self).r.wf(),
            (final(self).state@, final(self).r.avail()) == spec_drive(
                old(self).state@,
                old(self).r.avail(),
            ),
            spec_step(final(self).state@, final(self).r.avail()) is None,
            todos_unique(old(self).state@.todos) ==> todos_unique(final(self).state@.todos),
    {
        loop
            invariant
                self.r.wf(),
                spec_drive(old(self).state@, old(self).r.avail()) == spec_drive(
                    self.state@,
                    self.r.avail(),
                ),
                todos_unique(old(self).state@.todos) ==> todos_unique(self.state@.todos),
            decreases self.r.contents().len() - self.r.pos(),
        {
            let mark = self.r.mark();
            let ghost pre_ts = self.state@;
            let ghost pre_av = self.r.avail();
            match self.state.read(&mut self.r) {
                Option::None => {
                    self.r.pop_mark(mark);
                    proof {
                        assert(self.r.avail() =~= pre_av);
                        assert(spec_drive(pre_ts, pre_av) == (pre_ts, pre_av));
                    }
                    return ;
                },
                Option::Some(_) => {
                    proof {
                        lemma_step_consumes(pre_ts, pre_av);
                        assert(spec_drive(pre_ts, pre_av) == spec_drive(
                            self.state@,
                            self.r.avail(),
                        ));
                    }
                },
            }
        }
    }

    /// Feed a chunk of bytes: refill the scanner with as much as fits,
    /// drive the parser until it asks for more input, and repeat until
    /// the chunk is consumed. Returns how many bytes were accepted;
    /// fewer than all of them only when one incomplete sequence fills
    /// the whole scanner, in which case the caller may re-offer the
    /// rest once more input completes nothing and should drop it.
    pub fn read(&mut self, data: &[u8]) -> (accepted: usize)
        requires
            old(self).r.wf(),
        ensures
            final(self).r.wf(),
            accepted <= data@.len(),
            (final(self).state@, final(self).r.avail()) == spec_drive(
                old(self).state@,
                old(self).r.avail() + data@.take(accepted as int),
            ),
            spec_step(final(self).state@, final(self).r.avail()) is None,
            accepted < data@.len() ==> final(self).r.avail().len()
                == crate::byte_scanner::SCANNER_CAP,
            todos_unique(old(self).state@.todos) ==> todos_unique(final(self).state@.todos),
    {
        let ghost s0 = self.state@;
        let ghost av0 = self.r.avail();
        let mut d: usize = 0;
        proof {
            assert(av0 + data@.take(0) =~= av0);
        }
        loop
            invariant
                self.r.wf(),
                d <= data@.len(),
                spec_drive(s0, av0 + data@.take(d as int)) == spec_drive(
                    self.state@,
                    self.r.avail(),
                ),
                s0 == old(self).state@,
                av0 == old(self).r.avail(),
                todos_unique(old(self).state@.todos) ==> todos_unique(self.state@.todos),
            decreases data@.len() - d,
        {
            self.drain();
            if d == data.len() {
                return d;
            }
            let free = self.r.free();
            let rem = data.len() - d;
            let take = if free < rem {
                free
            } else {
                rem
            };
            if take == 0 {
                return d;
            }
            let ghost ts1 = self.state@;
            let ghost av1 = self.r.avail();
            let chunk = vstd::slice::slice_subrange(data, d, d + take);
            self.r.read(chunk);
            proof {
                assert(chunk@.take(chunk@.len() as int) =~= chunk@);
                assert(self.r.avail() =~= av1 + chunk@);
                assert(av0 + data@.take(d + take) =~= (av0 + data@.take(d as int)) + chunk@);
                lemma_drive_split(s0, av0 + data@.take(d as int), chunk@);
                assert(spec_drive(s0, av0 + data@.take(d as int)) == (ts1, av1));
                assert(spec_drive(s0, av0 + data@.take(d + take)) == spec_drive(
                    ts1,
                    av1 + chunk@,
                ));
            }
            d += take;
        }
    }
}

} // verus!
