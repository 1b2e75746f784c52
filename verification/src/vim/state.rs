//! The navigation state machine: modes, motions, selection, search, yank.

use vstd::prelude::*;
use crate::text::{chars_of, decimal, is_alphanumeric, push_char, push_decimal, push_str, string_of};
use super::{texts, Line};

verus! {

// ---------------------------------------------------------------------------
// The navigation state machine: types and their values
// ---------------------------------------------------------------------------

/// Cursor position: line index plus char offset within the line.
#[derive(Debug, Clone, Copy, PartialEq, Eq, Structural)]
pub struct Pos {
    pub line: usize,
    pub col: usize,
}

/// Input key, already mapped from the platform keystroke.
#[derive(Debug, Clone, Copy, PartialEq, Eq, Structural)]
pub enum Key {
    Char(char),
    Left,
    Right,
    Up,
    Down,
    PageUp,
    PageDown,
    Esc,
    Enter,
    Backspace,
    Ctrl(char),
}

/// Editing mode.
#[derive(Debug, Clone, PartialEq, Eq)]
pub enum Mode {
    Normal,
    Cursor,
    Visual { anchor: Pos, linewise: bool },
    Search { query: String, from_cursor: bool },
}

/// Part of one line to paint as selected.
#[derive(Debug, Clone, Copy, PartialEq, Eq, Structural)]
pub enum Highlight {
    Chars(usize, usize),
    Whole,
}

/// Vim navigation state.
pub struct Vim {
    pub mode: Mode,
    pub cursor: Pos,
    pub want_col: usize,
    pub count: Option<usize>,
    pub pending_y: bool,
    pub pending_g: bool,
    pub last_search: String,
    pub message: String,
}

/// What a key did: re-render, ignore, yank text, or scroll the viewport.
#[derive(Debug)]
pub enum Outcome {
    Changed,
    Ignored,
    Yanked(String),
    /// Scroll the document by this many steps (positive = down), like webpage
    /// arrow keys. The viewer maps a step to a pixel delta.
    Scroll(isize),
    /// Scroll by half the viewport, this many times (positive = down).
    ScrollHalf(isize),
    ScrollPage(isize),
}

#[verifier::ext_equal]
pub enum ModeV {
    Normal,
    Cursor,
    Visual { anchor: Pos, linewise: bool },
    Search { query: Seq<char>, from_cursor: bool },
}

#[verifier::ext_equal]
pub struct VimV {
    pub mode: ModeV,
    pub cursor: Pos,
    pub want_col: usize,
    pub count: Option<usize>,
    pub pending_y: bool,
    pub pending_g: bool,
    pub last_search: Seq<char>,
    pub message: Seq<char>,
}

#[verifier::ext_equal]
pub enum OutcomeV {
    Changed,
    Ignored,
    Yanked(Seq<char>),
    Scroll(isize),
    ScrollHalf(isize),
    ScrollPage(isize),
}

impl VimV {
    /// The same state with the cursor at `p`.
    pub open spec fn cursor_at(self, p: Pos) -> VimV {
        VimV { cursor: p, ..self }
    }
}

pub open spec fn mode_v(m: Mode) -> ModeV {
    match m {
        Mode::Normal => ModeV::Normal,
        Mode::Cursor => ModeV::Cursor,
        Mode::Visual { anchor, linewise } => ModeV::Visual { anchor, linewise },
        Mode::Search { query, from_cursor } => ModeV::Search { query: query@, from_cursor },
    }
}

pub open spec fn vim_v(v: Vim) -> VimV {
    VimV {
        mode: mode_v(v.mode),
        cursor: v.cursor,
        want_col: v.want_col,
        count: v.count,
        pending_y: v.pending_y,
        pending_g: v.pending_g,
        last_search: v.last_search@,
        message: v.message@,
    }
}

pub open spec fn outcome_v(o: Outcome) -> OutcomeV {
    match o {
        Outcome::Changed => OutcomeV::Changed,
        Outcome::Ignored => OutcomeV::Ignored,
        Outcome::Yanked(t) => OutcomeV::Yanked(t@),
        Outcome::Scroll(n) => OutcomeV::Scroll(n),
        Outcome::ScrollHalf(n) => OutcomeV::ScrollHalf(n),
        Outcome::ScrollPage(n) => OutcomeV::ScrollPage(n),
    }
}

// ---------------------------------------------------------------------------
// The navigation state machine: specification
// ---------------------------------------------------------------------------

/// Last column of a line (0 for an empty one).
pub open spec fn max_col(t: Seq<char>) -> nat {
    if t.len() == 0 {
        0
    } else {
        (t.len() - 1) as nat
    }
}

pub open spec fn clamp(x: int, lo: int, hi: int) -> int {
    if x < lo {
        lo
    } else if x > hi {
        hi
    } else {
        x
    }
}

pub open spec fn min(a: int, b: int) -> int {
    if a <= b {
        a
    } else {
        b
    }
}

/// Count after typing digit `d`, saturating at `usize::MAX`.
pub open spec fn with_digit(count: Option<usize>, d: nat) -> usize {
    let c = match count {
        Some(n) => n as int,
        None => 0,
    };
    if c * 10 + d > usize::MAX {
        usize::MAX
    } else {
        (c * 10 + d) as usize
    }
}

pub open spec fn digit_value(c: char) -> nat {
    (c as u32 - '0' as u32) as nat
}

/// Repeat count of a command: the typed count, or 1.
pub open spec fn repeat_of(s: VimV) -> usize {
    match s.count {
        Some(n) => n,
        None => 1,
    }
}

/// `-n`, wrapping at `isize::MIN` as release builds do.
pub open spec fn neg(n: isize) -> isize {
    if n == isize::MIN {
        n
    } else {
        (-n) as isize
    }
}

/// `(a.line, a.col) <= (b.line, b.col)`.
pub open spec fn pos_le(a: Pos, b: Pos) -> bool {
    a.line < b.line || (a.line == b.line && a.col <= b.col)
}

pub open spec fn pos_lt(a: Pos, b: Pos) -> bool {
    a.line < b.line || (a.line == b.line && a.col < b.col)
}

/// The two positions, earlier first.
pub open spec fn spec_ordered(a: Pos, b: Pos) -> (Pos, Pos) {
    if pos_le(a, b) {
        (a, b)
    } else {
        (b, a)
    }
}

pub open spec fn cleared(s: VimV) -> VimV {
    VimV { message: Seq::empty(), ..s }
}

/// Count and pending prefixes dropped.
pub open spec fn reset_prefix(s: VimV) -> VimV {
    VimV { count: None, pending_y: false, pending_g: false, ..s }
}

/// Move the cursor line by `delta` (clamped), keeping the wanted column.
pub open spec fn sp_move_by(s: VimV, t: Seq<Seq<char>>, delta: int) -> (VimV, OutcomeV) {
    if t.len() == 0 {
        (s, OutcomeV::Ignored)
    } else {
        let next = clamp(s.cursor.line + delta, 0, t.len() - 1);
        if next == s.cursor.line {
            (s, OutcomeV::Ignored)
        } else {
            (
                VimV {
                    cursor: Pos {
                        line: next as usize,
                        col: min(s.want_col as int, max_col(t[next]) as int) as usize,
                    },
                    message: Seq::empty(),
                    ..s
                },
                OutcomeV::Changed,
            )
        }
    }
}

/// Move the cursor column by `delta` (clamped to the line).
pub open spec fn sp_move_horizontal(s: VimV, t: Seq<Seq<char>>, delta: int) -> (VimV, OutcomeV) {
    if s.cursor.line >= t.len() {
        (s, OutcomeV::Ignored)
    } else {
        let next = clamp(s.cursor.col + delta, 0, max_col(t[s.cursor.line as int]) as int);
        if next == s.cursor.col {
            (s, OutcomeV::Ignored)
        } else {
            (
                VimV {
                    cursor: Pos { line: s.cursor.line, col: next as usize },
                    want_col: next as usize,
                    message: Seq::empty(),
                    ..s
                },
                OutcomeV::Changed,
            )
        }
    }
}

/// Put the cursor on column `col` (clamped to the line).
pub open spec fn sp_move_to_column(s: VimV, t: Seq<Seq<char>>, col: int) -> (VimV, OutcomeV) {
    if s.cursor.line >= t.len() {
        (s, OutcomeV::Ignored)
    } else {
        let next = min(col, max_col(t[s.cursor.line as int]) as int);
        (
            VimV {
                cursor: Pos { line: s.cursor.line, col: next as usize },
                want_col: next as usize,
                message: Seq::empty(),
                ..s
            },
            if next != s.cursor.col {
                OutcomeV::Changed
            } else {
                OutcomeV::Ignored
            },
        )
    }
}

pub open spec fn is_word_char(c: char) -> bool {
    crate::text::alphanumeric(c) || c == '_'
}

/// Whether a word starts at `i` in `t`.
pub open spec fn word_start(t: Seq<char>, i: int) -> bool {
    0 <= i < t.len() && is_word_char(t[i]) && !(i > 0 && is_word_char(t[i - 1]))
}

/// First word start at or after `i`.
pub open spec fn first_word_from(t: Seq<char>, i: int) -> Option<int>
    decreases t.len() - i,
{
    if 0 <= i < t.len() {
        if word_start(t, i) {
            Some(i)
        } else {
            first_word_from(t, i + 1)
        }
    } else {
        None
    }
}

/// Last word start before `i`.
pub open spec fn last_word_before(t: Seq<char>, i: int) -> Option<int>
    decreases i,
{
    if 0 < i && i - 1 < t.len() {
        if word_start(t, i - 1) {
            Some(i - 1)
        } else {
            last_word_before(t, i - 1)
        }
    } else if 0 < i {
        last_word_before(t, i - 1)
    } else {
        None
    }
}

/// Next word start after `from`, searching lines `li..`.
pub open spec fn next_word_from(t: Seq<Seq<char>>, from: Pos, li: int) -> Option<Pos>
    decreases t.len() - li,
{
    if 0 <= li < t.len() {
        let start = if li > from.line {
            0
        } else {
            from.col + 1
        };
        match first_word_from(t[li], start) {
            Some(c) => Some(Pos { line: li as usize, col: c as usize }),
            None => next_word_from(t, from, li + 1),
        }
    } else {
        None
    }
}

/// Start of the next word after `from`, if any.
pub open spec fn next_word(t: Seq<Seq<char>>, from: Pos) -> Option<Pos> {
    next_word_from(t, from, from.line as int)
}

proof fn lemma_first_word_from(t: Seq<char>, i: int)
    requires
        0 <= i,
    ensures
        first_word_from(t, i) matches Some(c) ==> i <= c && word_start(t, c) && forall|k: int|
            i <= k < c ==> !#[trigger] word_start(t, k),
        first_word_from(t, i) is None ==> forall|k: int| i <= k ==> !#[trigger] word_start(t, k),
    decreases t.len() - i,
{
    if i < t.len() {
        lemma_first_word_from(t, i + 1);
    }
}

/// A word starts at column `c` of line `l` strictly after `from`.
pub open spec fn word_after(t: Seq<Seq<char>>, from: Pos, l: int, c: int) -> bool {
    &&& 0 <= l < t.len()
    &&& word_start(t[l], c)
    &&& (l > from.line || (l == from.line && c > from.col))
}

proof fn lemma_next_word_from(t: Seq<Seq<char>>, from: Pos, li: int)
    requires
        from.line <= li,
        t.len() <= usize::MAX,
        forall|l: int| 0 <= l < t.len() ==> #[trigger] t[l].len() <= usize::MAX,
    ensures
        next_word_from(t, from, li) matches Some(q) ==> li <= q.line && word_after(t, from, q.line as int, q.col as int)
            && forall|l: int, c: int|
            #![trigger word_after(t, from, l, c)]
            li <= l && word_after(t, from, l, c) ==> l > q.line || (l == q.line && c >= q.col),
        next_word_from(t, from, li) is None ==> forall|l: int, c: int|
            #![trigger word_after(t, from, l, c)]
            li <= l ==> !word_after(t, from, l, c),
    decreases t.len() - li,
{
    if 0 <= li < t.len() {
        let start = if li > from.line {
            0
        } else {
            from.col + 1
        };
        lemma_first_word_from(t[li], start);
        lemma_next_word_from(t, from, li + 1);
        assert(t[li].len() <= usize::MAX);
        assert forall|l: int, c: int| l == li && #[trigger] word_after(t, from, l, c) implies c >= start by {}
        match first_word_from(t[li], start) {
            Some(c) => {
                assert(0 <= c < t[li].len());
                assert(word_after(t, from, li, c));
                let q = Pos { line: li as usize, col: c as usize };
                assert(q.line as int == li && q.col as int == c);
                assert forall|l: int, cc: int| li <= l && #[trigger] word_after(t, from, l, cc) implies l > q.line || (l == q.line
                    && cc >= q.col) by {
                    if l == li {
                        assert(cc >= start);
                        if cc < c {
                            assert(!word_start(t[li], cc));
                        }
                    }
                }
            },
            None => {
                assert forall|l: int, cc: int| l == li implies !#[trigger] word_after(t, from, l, cc) by {
                    if word_after(t, from, l, cc) {
                        assert(cc >= start);
                        assert(!word_start(t[li], cc));
                    }
                }
            },
        }
    }
}

/// `w` moves to the next word: the first word start strictly after the
/// cursor in reading order, over the rest of its line and all later lines;
/// when there is none the motion finds nothing.
pub proof fn lemma_next_word_is_first_after(t: Seq<Seq<char>>, from: Pos)
    requires
        t.len() <= usize::MAX,
        forall|l: int| 0 <= l < t.len() ==> #[trigger] t[l].len() <= usize::MAX,
    ensures
        next_word(t, from) matches Some(q) ==> word_after(t, from, q.line as int, q.col as int) && forall|l: int, c: int|
            #![trigger word_after(t, from, l, c)]
            word_after(t, from, l, c) ==> l > q.line || (l == q.line && c >= q.col),
        next_word(t, from) is None ==> forall|l: int, c: int|
            #![trigger word_after(t, from, l, c)]
            !word_after(t, from, l, c),
{
    lemma_next_word_from(t, from, from.line as int);
}

/// Previous word start before `from`, searching lines `li` down to 0.
pub open spec fn prev_word_from(t: Seq<Seq<char>>, from: Pos, li: int) -> Option<Pos>
    decreases li,
{
    if 0 <= li < t.len() {
        let end = if li < from.line {
            t[li].len() as int
        } else {
            from.col as int
        };
        match last_word_before(t[li], end) {
            Some(c) => Some(Pos { line: li as usize, col: c as usize }),
            None => if li > 0 {
                prev_word_from(t, from, li - 1)
            } else {
                None
            },
        }
    } else {
        None
    }
}

/// Start of the previous word before `from`, if any.
pub open spec fn previous_word(t: Seq<Seq<char>>, from: Pos) -> Option<Pos> {
    prev_word_from(t, from, min(from.line as int, t.len() - 1))
}

/// Position after up to `n` word steps.
pub open spec fn word_steps(t: Seq<Seq<char>>, p: Pos, forward: bool, n: nat) -> Pos
    decreases n,
{
    if n == 0 {
        p
    } else {
        match if forward {
            next_word(t, p)
        } else {
            previous_word(t, p)
        } {
            Some(q) => word_steps(t, q, forward, (n - 1) as nat),
            None => p,
        }
    }
}

pub open spec fn sp_move_word(s: VimV, t: Seq<Seq<char>>, forward: bool, repeat: nat) -> (VimV, OutcomeV) {
    if t.len() == 0 {
        (s, OutcomeV::Ignored)
    } else {
        let p = word_steps(t, s.cursor, forward, repeat);
        (
            VimV { cursor: p, want_col: p.col, message: Seq::empty(), ..s },
            if p == s.cursor {
                OutcomeV::Ignored
            } else {
                OutcomeV::Changed
            },
        )
    }
}

/// Cursor on line `index` (clamped), at the wanted column.
pub open spec fn sp_goto_line(s: VimV, t: Seq<Seq<char>>, index: int) -> VimV {
    if t.len() == 0 {
        VimV { cursor: Pos { line: 0, col: 0 }, want_col: 0, ..s }
    } else {
        let line = min(index, t.len() - 1);
        VimV {
            cursor: Pos {
                line: line as usize,
                col: min(s.want_col as int, max_col(t[line]) as int) as usize,
            },
            ..s
        }
    }
}

pub open spec fn yanked_one_line() -> Seq<char> {
    "yanked 1 line"@
}

pub open spec fn nothing_to_yank() -> Seq<char> {
    "nothing to yank"@
}

pub open spec fn no_pattern() -> Seq<char> {
    "no search pattern"@
}

pub open spec fn not_found(q: Seq<char>) -> Seq<char> {
    "pattern not found: "@ + q
}

pub open spec fn sp_yank_line(s: VimV, t: Seq<Seq<char>>) -> (VimV, OutcomeV) {
    if s.cursor.line < t.len() {
        (VimV { message: yanked_one_line(), ..s }, OutcomeV::Yanked(t[s.cursor.line as int]))
    } else {
        (VimV { message: nothing_to_yank(), ..s }, OutcomeV::Changed)
    }
}

/// `q` occurs in `t` at `k`.
pub open spec fn occurs_at(t: Seq<char>, q: Seq<char>, k: int) -> bool {
    0 <= k && k + q.len() <= t.len() && t.subrange(k, k + q.len()) == q
}

/// First occurrence of `q` in `t` at or after `k`.
pub open spec fn next_occurrence(t: Seq<char>, q: Seq<char>, k: int) -> Option<int>
    decreases t.len() + 1 - k,
{
    if 0 <= k <= t.len() {
        if occurs_at(t, q, k) {
            Some(k)
        } else {
            next_occurrence(t, q, k + 1)
        }
    } else {
        None
    }
}

/// An occurrence found from `k` lies at or after `k` and really is one.
pub proof fn lemma_next_occurrence(t: Seq<char>, q: Seq<char>, k: int)
    ensures
        next_occurrence(t, q, k) matches Some(p) ==> k <= p <= t.len() && occurs_at(t, q, p),
    decreases t.len() + 1 - k,
{
    if 0 <= k <= t.len() && !occurs_at(t, q, k) {
        lemma_next_occurrence(t, q, k + 1);
    }
}

/// Columns of the non-overlapping occurrences of `q` in `t` from `k`,
/// left to right.
pub open spec fn line_matches(t: Seq<char>, q: Seq<char>, k: int) -> Seq<int>
    decreases t.len() + 1 - k,
{
    if 0 <= k <= t.len() {
        let step: int = if q.len() > 0 {
            q.len() as int
        } else {
            1
        };
        match next_occurrence(t, q, k) {
            Some(p) => {
                proof {
                    lemma_next_occurrence(t, q, k);
                }
                seq![p] + line_matches(t, q, p + step)
            },
            None => Seq::empty(),
        }
    } else {
        Seq::empty()
    }
}

/// All matches of `q` in the first `n` lines, top to bottom.
pub open spec fn all_matches(t: Seq<Seq<char>>, q: Seq<char>, n: int) -> Seq<Pos>
    decreases n,
{
    if 0 < n <= t.len() {
        let cols = line_matches(t[n - 1], q, 0);
        all_matches(t, q, n - 1) + Seq::new(
            cols.len(),
            |k: int| Pos { line: (n - 1) as usize, col: cols[k] as usize },
        )
    } else {
        Seq::empty()
    }
}

/// Index of the first match after `at` among `m[i..]`.
pub open spec fn first_after(m: Seq<Pos>, at: Pos, i: int) -> Option<int>
    decreases m.len() - i,
{
    if 0 <= i < m.len() {
        if pos_lt(at, m[i]) {
            Some(i)
        } else {
            first_after(m, at, i + 1)
        }
    } else {
        None
    }
}

/// Index of the last match before `at` among `m[..i]`.
pub open spec fn last_before(m: Seq<Pos>, at: Pos, i: int) -> Option<int>
    decreases i,
{
    if 0 < i <= m.len() {
        if pos_lt(m[i - 1], at) {
            Some(i - 1)
        } else {
            last_before(m, at, i - 1)
        }
    } else {
        None
    }
}

/// A found index lies in `m[i..]`.
pub proof fn lemma_first_after(m: Seq<Pos>, at: Pos, i: int)
    ensures
        first_after(m, at, i) matches Some(j) ==> i <= j < m.len(),
    decreases m.len() - i,
{
    if 0 <= i < m.len() && !pos_lt(at, m[i]) {
        lemma_first_after(m, at, i + 1);
    }
}

/// A found index lies in `m[..i]`.
pub proof fn lemma_last_before(m: Seq<Pos>, at: Pos, i: int)
    ensures
        last_before(m, at, i) matches Some(j) ==> 0 <= j < i,
    decreases i,
{
    if 0 < i <= m.len() && !pos_lt(m[i - 1], at) {
        lemma_last_before(m, at, i - 1);
    }
}

/// Jump to the next (or previous) match of the last search, wrapping.
pub open spec fn sp_jump_search(s: VimV, t: Seq<Seq<char>>, forward: bool) -> (VimV, OutcomeV) {
    if s.last_search.len() == 0 {
        (VimV { message: no_pattern(), ..s }, OutcomeV::Changed)
    } else {
        let m = all_matches(t, s.last_search, t.len() as int);
        if m.len() == 0 {
            (VimV { message: not_found(s.last_search), ..s }, OutcomeV::Changed)
        } else {
            let idx = if forward {
                match first_after(m, s.cursor, 0) {
                    Some(i) => i,
                    None => 0,
                }
            } else {
                match last_before(m, s.cursor, m.len() as int) {
                    Some(i) => i,
                    None => m.len() - 1,
                }
            };
            (
                VimV { cursor: m[idx], want_col: m[idx].col, message: Seq::empty(), ..s },
                OutcomeV::Changed,
            )
        }
    }
}

/// `n - 1`, or 0 for 0.
pub open spec fn sat_dec(n: usize) -> int {
    if n > 0 {
        n - 1
    } else {
        0
    }
}

/// `g` handling shared by normal and cursor mode: a second `g` jumps to
/// line `count` (or the top); a first one waits, keeping a typed count.
pub open spec fn sp_g(base: VimV, t: Seq<Seq<char>>, repeat: usize, was_g: bool) -> VimV {
    if was_g {
        cleared(sp_goto_line(base, t, sat_dec(repeat)))
    } else {
        VimV {
            pending_g: true,
            count: if repeat != 1 {
                Some(repeat)
            } else {
                None
            },
            message: Seq::empty(),
            ..base
        }
    }
}

/// `G`: line `count`, or the last line.
pub open spec fn sp_big_g(base: VimV, t: Seq<Seq<char>>, repeat: usize) -> VimV {
    cleared(
        sp_goto_line(
            base,
            t,
            if repeat == 1 {
                if t.len() > 0 {
                    t.len() - 1
                } else {
                    0
                }
            } else {
                sat_dec(repeat)
            },
        ),
    )
}

/// `y`: a second `y` yanks the line, a first one waits.
pub open spec fn sp_y(base: VimV, t: Seq<Seq<char>>, was_y: bool) -> (VimV, OutcomeV) {
    if was_y {
        sp_yank_line(base, t)
    } else if t.len() == 0 {
        (VimV { message: nothing_to_yank(), ..base }, OutcomeV::Changed)
    } else {
        (VimV { pending_y: true, ..base }, OutcomeV::Changed)
    }
}

pub open spec fn is_digit_key(key: Key) -> bool {
    key matches Key::Char(c) && crate::text::is_ascii_digit(c)
}

/// A key in Normal mode: `j`/`k`/Ctrl-d/u/Page keys scroll the viewport,
/// `g`/`G` jump, `i`/`v`/`V`/`/` switch modes, `n`/`N` search, `yy` yanks.
pub open spec fn sp_normal(s: VimV, t: Seq<Seq<char>>, key: Key) -> (VimV, OutcomeV) {
    if key == Key::Esc {
        let had = s.count is Some || s.pending_y || s.pending_g || s.message.len() > 0;
        (
            cleared(reset_prefix(s)),
            if had {
                OutcomeV::Changed
            } else {
                OutcomeV::Ignored
            },
        )
    } else if is_digit_key(key) {
        let c = key->Char_0;
        if c == '0' && s.count is None {
            (
                VimV { cursor: Pos { col: 0, ..s.cursor }, want_col: 0, message: Seq::empty(), ..s },
                OutcomeV::Changed,
            )
        } else {
            (
                VimV {
                    count: Some(with_digit(s.count, digit_value(c))),
                    pending_y: false,
                    pending_g: false,
                    ..s
                },
                OutcomeV::Changed,
            )
        }
    } else {
        let repeat = repeat_of(s);
        let base = reset_prefix(s);
        let r = repeat as isize;
        match key {
            Key::Char('j') | Key::Down => (base, OutcomeV::Scroll(r)),
            Key::Char('k') | Key::Up => (base, OutcomeV::Scroll(neg(r))),
            Key::Char('g') => (sp_g(base, t, repeat, s.pending_g), OutcomeV::Changed),
            Key::Char('G') => (sp_big_g(base, t, repeat), OutcomeV::Changed),
            Key::Ctrl('d') => (base, OutcomeV::ScrollHalf(r)),
            Key::Ctrl('u') => (base, OutcomeV::ScrollHalf(neg(r))),
            Key::PageDown => (base, OutcomeV::ScrollPage(r)),
            Key::PageUp => (base, OutcomeV::ScrollPage(neg(r))),
            Key::Char('i') => if t.len() == 0 {
                (base, OutcomeV::Ignored)
            } else {
                (VimV { mode: ModeV::Cursor, ..cleared(base) }, OutcomeV::Changed)
            },
            Key::Char('v') => if t.len() == 0 {
                (base, OutcomeV::Ignored)
            } else {
                (
                    VimV { mode: ModeV::Visual { anchor: s.cursor, linewise: false }, ..cleared(base) },
                    OutcomeV::Changed,
                )
            },
            Key::Char('V') => if t.len() == 0 {
                (base, OutcomeV::Ignored)
            } else {
                (
                    VimV { mode: ModeV::Visual { anchor: s.cursor, linewise: true }, ..cleared(base) },
                    OutcomeV::Changed,
                )
            },
            Key::Char('/') => (
                VimV { mode: ModeV::Search { query: Seq::empty(), from_cursor: false }, ..cleared(base) },
                OutcomeV::Changed,
            ),
            Key::Char('n') => sp_jump_search(base, t, true),
            Key::Char('N') => sp_jump_search(base, t, false),
            Key::Char('y') => sp_y(base, t, s.pending_y),
            _ => (cleared(base), OutcomeV::Ignored),
        }
    }
}

/// A key in Cursor mode: character, word and line motions move the cursor.
pub open spec fn sp_cursor(s: VimV, t: Seq<Seq<char>>, key: Key, half: usize) -> (VimV, OutcomeV) {
    if key == Key::Esc {
        (VimV { mode: ModeV::Normal, ..cleared(reset_prefix(s)) }, OutcomeV::Changed)
    } else if is_digit_key(key) && !(key->Char_0 == '0' && s.count is None) {
        (
            VimV {
                count: Some(with_digit(s.count, digit_value(key->Char_0))),
                pending_y: false,
                pending_g: false,
                ..s
            },
            OutcomeV::Changed,
        )
    } else {
        let repeat = repeat_of(s);
        let base = reset_prefix(s);
        let rep = repeat as int;
        match key {
            Key::Char('h') | Key::Left => sp_move_horizontal(base, t, -rep),
            Key::Char('l') | Key::Right => sp_move_horizontal(base, t, rep),
            Key::Char('j') | Key::Down => sp_move_by(base, t, rep),
            Key::Char('k') | Key::Up => sp_move_by(base, t, -rep),
            Key::Ctrl('d') => sp_move_by(base, t, half * rep),
            Key::Ctrl('u') => sp_move_by(base, t, -(half * rep)),
            Key::PageDown => sp_move_by(base, t, half * 2 * rep),
            Key::PageUp => sp_move_by(base, t, -(half * 2 * rep)),
            Key::Char('0') => sp_move_to_column(base, t, 0),
            Key::Char('$') => sp_move_to_column(
                base,
                t,
                if s.cursor.line < t.len() {
                    max_col(t[s.cursor.line as int]) as int
                } else {
                    0
                },
            ),
            Key::Char('w') => sp_move_word(base, t, true, repeat as nat),
            Key::Char('b') => sp_move_word(base, t, false, repeat as nat),
            Key::Char('g') => (sp_g(base, t, repeat, s.pending_g), OutcomeV::Changed),
            Key::Char('G') => (sp_big_g(base, t, repeat), OutcomeV::Changed),
            Key::Char('v') => (
                VimV { mode: ModeV::Visual { anchor: s.cursor, linewise: false }, ..cleared(base) },
                OutcomeV::Changed,
            ),
            Key::Char('V') => (
                VimV { mode: ModeV::Visual { anchor: s.cursor, linewise: true }, ..cleared(base) },
                OutcomeV::Changed,
            ),
            Key::Char('/') => (
                VimV { mode: ModeV::Search { query: Seq::empty(), from_cursor: true }, ..cleared(base) },
                OutcomeV::Changed,
            ),
            Key::Char('n') => sp_jump_search(base, t, true),
            Key::Char('N') => sp_jump_search(base, t, false),
            Key::Char('y') => sp_y(base, t, s.pending_y),
            _ => (cleared(base), OutcomeV::Ignored),
        }
    }
}

/// `"\n"`-joined items.
pub open spec fn join_lines(parts: Seq<Seq<char>>) -> Seq<char> {
    crate::markdown::join(parts, seq!['\n'])
}

/// Characters `from..to` of `t` (empty when `to <= from`).
pub open spec fn char_slice(t: Seq<char>, from: int, to: int) -> Seq<char> {
    if from < to {
        t.subrange(from, to)
    } else {
        Seq::empty()
    }
}

/// Text a visual selection from `start` to `end` (inclusive) covers.
pub open spec fn spec_yank_range(t: Seq<Seq<char>>, start: Pos, end: Pos, linewise: bool) -> Seq<char> {
    if t.len() == 0 || start.line >= t.len() {
        Seq::empty()
    } else {
        let last = min(end.line as int, t.len() - 1);
        let n = last - start.line + 1;
        if linewise {
            join_lines(Seq::new(n as nat, |k: int| t[start.line + k]))
        } else {
            join_lines(
                Seq::new(
                    n as nat,
                    |k: int|
                        {
                            let i = start.line + k;
                            let len = t[i].len() as int;
                            let from = if i == start.line {
                                min(start.col as int, len)
                            } else {
                                0
                            };
                            let to = if i == last {
                                min(end.col + 1, len)
                            } else {
                                len
                            };
                            char_slice(t[i], from, to)
                        },
                ),
            )
        }
    }
}

/// `"yanked N line(s)"` / `"yanked N char(s)"`.
pub open spec fn yank_message(count: nat, linewise: bool) -> Seq<char> {
    "yanked "@ + decimal(count) + " "@ + (if linewise {
        "line"@
    } else {
        "char"@
    }) + (if count == 1 {
        Seq::empty()
    } else {
        "s"@
    })
}

/// A key in Visual mode: motions extend the selection, `y` yanks it.
pub open spec fn sp_visual(
    s: VimV,
    t: Seq<Seq<char>>,
    key: Key,
    anchor: Pos,
    linewise: bool,
    half: usize,
) -> (VimV, OutcomeV) {
    let repeat = repeat_of(s) as int;
    let counted = VimV { count: None, ..s };
    match key {
        Key::Esc => (VimV { mode: ModeV::Cursor, ..cleared(s) }, OutcomeV::Changed),
        Key::Char('v') => (
            VimV {
                mode: if linewise {
                    ModeV::Visual { anchor, linewise: false }
                } else {
                    ModeV::Cursor
                },
                ..s
            },
            OutcomeV::Changed,
        ),
        Key::Char('V') => (
            VimV {
                mode: if linewise {
                    ModeV::Cursor
                } else {
                    ModeV::Visual { anchor, linewise: true }
                },
                ..s
            },
            OutcomeV::Changed,
        ),
        Key::Char('j') | Key::Down => sp_move_by(counted, t, repeat),
        Key::Char('k') | Key::Up => sp_move_by(counted, t, -repeat),
        Key::Ctrl('d') => sp_move_by(counted, t, half * repeat),
        Key::Ctrl('u') => sp_move_by(counted, t, -(half * repeat)),
        Key::PageDown => sp_move_by(counted, t, half * 2 * repeat),
        Key::PageUp => sp_move_by(counted, t, -(half * 2 * repeat)),
        Key::Char('y') => {
            let (start, end) = spec_ordered(anchor, s.cursor);
            let text = spec_yank_range(t, start, end, linewise);
            let count = if linewise {
                min(end.line - start.line + 1, usize::MAX as int) as nat
            } else {
                text.len()
            };
            (
                VimV {
                    message: yank_message(count, linewise),
                    cursor: start,
                    want_col: start.col,
                    mode: ModeV::Cursor,
                    ..s
                },
                OutcomeV::Yanked(text),
            )
        },
        _ => {
            let (s2, out) = sp_cursor(s, t, key, half);
            if out == OutcomeV::Changed {
                (VimV { mode: ModeV::Visual { anchor, linewise }, ..s2 }, OutcomeV::Changed)
            } else {
                (VimV { mode: ModeV::Visual { anchor, linewise }, cursor: s.cursor, ..s2 }, out)
            }
        },
    }
}

/// A key while typing a search: Enter searches (reusing the last pattern
/// when empty), Esc cancels, Backspace deletes.
pub open spec fn sp_search(s: VimV, t: Seq<Seq<char>>, key: Key, query: Seq<char>, from_cursor: bool) -> (
    VimV,
    OutcomeV,
) {
    let back = if from_cursor {
        ModeV::Cursor
    } else {
        ModeV::Normal
    };
    match key {
        Key::Esc => (VimV { mode: back, ..cleared(s) }, OutcomeV::Changed),
        Key::Enter => {
            let q = if query.len() > 0 {
                query
            } else {
                s.last_search
            };
            if q.len() == 0 {
                (VimV { mode: back, message: no_pattern(), ..s }, OutcomeV::Changed)
            } else {
                sp_jump_search(VimV { last_search: q, mode: back, ..s }, t, true)
            }
        },
        Key::Backspace => (
            VimV {
                mode: ModeV::Search {
                    query: if query.len() > 0 {
                        query.drop_last()
                    } else {
                        query
                    },
                    from_cursor,
                },
                ..s
            },
            OutcomeV::Changed,
        ),
        Key::Char(c) => (
            VimV { mode: ModeV::Search { query: query.push(c), from_cursor }, ..s },
            OutcomeV::Changed,
        ),
        _ => (s, OutcomeV::Ignored),
    }
}

/// One key against the current lines: the new state and what happened.
/// `half` is the Ctrl-d/u stride in lines.
pub open spec fn step(s: VimV, t: Seq<Seq<char>>, key: Key, half: usize) -> (VimV, OutcomeV) {
    match s.mode {
        ModeV::Search { query, from_cursor } => sp_search(s, t, key, query, from_cursor),
        ModeV::Visual { anchor, linewise } => sp_visual(s, t, key, anchor, linewise, half),
        ModeV::Cursor => sp_cursor(s, t, key, half),
        ModeV::Normal => sp_normal(s, t, key),
    }
}

/// A fresh navigator: Normal mode at the top, nothing pending.
pub open spec fn initial() -> VimV {
    VimV {
        mode: ModeV::Normal,
        cursor: Pos { line: 0, col: 0 },
        want_col: 0,
        count: None,
        pending_y: false,
        pending_g: false,
        last_search: Seq::empty(),
        message: Seq::empty(),
    }
}

/// `p` names a character of `t` (or the origin when `t` is empty).
pub open spec fn fits(p: Pos, t: Seq<Seq<char>>) -> bool {
    if t.len() == 0 {
        p == Pos { line: 0, col: 0 }
    } else {
        p.line < t.len() && p.col <= max_col(t[p.line as int])
    }
}

/// The cursor pulled back into `t`.
pub open spec fn clamped(p: Pos, t: Seq<Seq<char>>) -> Pos {
    if t.len() == 0 {
        Pos { line: 0, col: 0 }
    } else {
        let line = min(p.line as int, t.len() - 1);
        Pos { line: line as usize, col: min(p.col as int, max_col(t[line]) as int) as usize }
    }
}

// ---------------------------------------------------------------------------
// Executable helpers
// ---------------------------------------------------------------------------

/// Number of characters of `text`.
fn char_len(text: &String) -> (n: usize)
    ensures
        n == text@.len(),
{
    chars_of(text.as_str()).len()
}

/// Last column of `text` (0 when empty).
fn max_col_of(text: &String) -> (n: usize)
    ensures
        n == max_col(text@),
{
    let n = char_len(text);
    if n == 0 {
        0
    } else {
        n - 1
    }
}

/// Characters of line `i`.
fn line_chars(lines: &[Line], i: usize) -> (v: Vec<char>)
    requires
        i < lines.len(),
    ensures
        v@ == texts(lines@)[i as int],
{
    chars_of(lines[i].text.as_str())
}

fn min_usize(a: usize, b: usize) -> (m: usize)
    ensures
        m == min(a as int, b as int),
{
    if a <= b {
        a
    } else {
        b
    }
}

/// The two positions, earlier first.
fn ordered(a: Pos, b: Pos) -> (r: (Pos, Pos))
    ensures
        r == spec_ordered(a, b),
{
    if a.line < b.line || (a.line == b.line && a.col <= b.col) {
        (a, b)
    } else {
        (b, a)
    }
}

impl Vim {
    /// Normal mode at the top of the document, nothing pending.
    pub fn new() -> (v: Vim)
        ensures
            vim_v(v) == initial(),
    {
        Vim {
            mode: Mode::Normal,
            cursor: Pos { line: 0, col: 0 },
            want_col: 0,
            count: None,
            pending_y: false,
            pending_g: false,
            last_search: String::new(),
            message: String::new(),
        }
    }

    /// Move the cursor `amount` lines down (or up), clamped to the document,
    /// landing on the wanted column as far as the line allows.
    fn move_by(&mut self, lines: &[Line], amount: usize, down: bool) -> (r: Outcome)
        ensures
            (vim_v(*final(self)), outcome_v(r)) == sp_move_by(
                vim_v(*old(self)),
                texts(lines@),
                if down {
                    amount as int
                } else {
                    -amount
                },
            ),
    {
        if lines.len() == 0 {
            return Outcome::Ignored;
        }
        let last = lines.len() - 1;
        let target = if down {
            self.cursor.line.saturating_add(amount)
        } else {
            self.cursor.line.saturating_sub(amount)
        };
        let next = min_usize(target, last);
        if next == self.cursor.line {
            return Outcome::Ignored;
        }
        let col = min_usize(self.want_col, max_col_of(&lines[next].text));
        self.cursor = Pos { line: next, col };
        self.message = String::new();
        Outcome::Changed
    }

    /// Move the cursor `amount` columns right (or left), within the line.
    fn move_horizontal(&mut self, lines: &[Line], amount: usize, right: bool) -> (r: Outcome)
        ensures
            (vim_v(*final(self)), outcome_v(r)) == sp_move_horizontal(
                vim_v(*old(self)),
                texts(lines@),
                if right {
                    amount as int
                } else {
                    -amount
                },
            ),
    {
        if self.cursor.line >= lines.len() {
            return Outcome::Ignored;
        }
        let target = if right {
            self.cursor.col.saturating_add(amount)
        } else {
            self.cursor.col.saturating_sub(amount)
        };
        let next = min_usize(target, max_col_of(&lines[self.cursor.line].text));
        if next == self.cursor.col {
            return Outcome::Ignored;
        }
        self.cursor.col = next;
        self.want_col = next;
        self.message = String::new();
        Outcome::Changed
    }

    /// Put the cursor on column `col` of its line (clamped).
    fn move_to_column(&mut self, lines: &[Line], col: usize) -> (r: Outcome)
        ensures
            (vim_v(*final(self)), outcome_v(r)) == sp_move_to_column(
                vim_v(*old(self)),
                texts(lines@),
                col as int,
            ),
    {
        if self.cursor.line >= lines.len() {
            return Outcome::Ignored;
        }
        let next = min_usize(col, max_col_of(&lines[self.cursor.line].text));
        let changed = next != self.cursor.col;
        self.cursor.col = next;
        self.want_col = next;
        self.message = String::new();
        if changed {
            Outcome::Changed
        } else {
            Outcome::Ignored
        }
    }

    /// Cursor on line `index` (clamped), at the wanted column.
    fn goto_line(&mut self, lines: &[Line], index: usize)
        ensures
            vim_v(*final(self)) == sp_goto_line(vim_v(*old(self)), texts(lines@), index as int),
    {
        if lines.len() == 0 {
            self.cursor = Pos { line: 0, col: 0 };
            self.want_col = 0;
            return;
        }
        let line = min_usize(index, lines.len() - 1);
        let col = min_usize(self.want_col, max_col_of(&lines[line].text));
        self.cursor = Pos { line, col };
    }

    /// Pull the cursor back onto the lines.
    fn clamp(&mut self, lines: &[Line])
        ensures
            vim_v(*final(self)) == (VimV {
                cursor: clamped(old(self).cursor, texts(lines@)),
                ..vim_v(*old(self))
            }),
    {
        if lines.len() == 0 {
            self.cursor = Pos { line: 0, col: 0 };
            return;
        }
        let line = min_usize(self.cursor.line, lines.len() - 1);
        let col = min_usize(self.cursor.col, max_col_of(&lines[line].text));
        self.cursor = Pos { line, col };
    }
}

/// `c` belongs to a word (alphanumeric or `_`).
fn word_char(c: char) -> (b: bool)
    ensures
        b == is_word_char(c),
{
    is_alphanumeric(c) || c == '_'
}

/// Whether a word starts at `i` in `t`.
fn is_word_start(t: &Vec<char>, i: usize) -> (b: bool)
    requires
        i < t.len(),
    ensures
        b == word_start(t@, i as int),
{
    word_char(t[i]) && !(i > 0 && word_char(t[i - 1]))
}

/// First word start at or after `i`.
fn first_word_at(t: &Vec<char>, i: usize) -> (r: Option<usize>)
    ensures
        match r {
            Some(c) => first_word_from(t@, i as int) == Some(c as int),
            None => first_word_from(t@, i as int) is None,
        },
{
    let mut j = i;
    while j < t.len()
        invariant
            i <= j,
            first_word_from(t@, i as int) == first_word_from(t@, j as int),
        decreases t.len() - j,
    {
        if is_word_start(t, j) {
            return Some(j);
        }
        j += 1;
    }
    None
}

/// Past the end, searching back from `i` is searching back from the end.
proof fn lemma_last_word_beyond(t: Seq<char>, i: int)
    requires
        i >= t.len(),
    ensures
        last_word_before(t, i) == last_word_before(t, t.len() as int),
    decreases i,
{
    if i > t.len() {
        lemma_last_word_beyond(t, i - 1);
    }
}

/// Last word start before `i`.
fn last_word_at(t: &Vec<char>, i: usize) -> (r: Option<usize>)
    ensures
        match r {
            Some(c) => last_word_before(t@, i as int) == Some(c as int),
            None => last_word_before(t@, i as int) is None,
        },
{
    let mut j = if i > t.len() {
        proof {
            lemma_last_word_beyond(t@, i as int);
        }
        t.len()
    } else {
        i
    };
    while j > 0
        invariant
            j <= t.len(),
            last_word_before(t@, i as int) == last_word_before(t@, j as int),
        decreases j,
    {
        if is_word_start(t, j - 1) {
            return Some(j - 1);
        }
        j -= 1;
    }
    None
}

/// Start of the next word after `from`, if any.
fn next_word_exec(lines: &[Line], from: Pos) -> (r: Option<Pos>)
    ensures
        r == next_word(texts(lines@), from),
{
    let ghost t = texts(lines@);
    let mut li = from.line;
    while li < lines.len()
        invariant
            from.line <= li,
            t == texts(lines@),
            next_word(t, from) == next_word_from(t, from, li as int),
        decreases lines.len() - li,
    {
        let chars = line_chars(lines, li);
        let found = if li > from.line {
            first_word_at(&chars, 0)
        } else if from.col < chars.len() {
            first_word_at(&chars, from.col + 1)
        } else {
            None
        };
        if let Some(c) = found {
            return Some(Pos { line: li, col: c });
        }
        li += 1;
    }
    None
}

/// Start of the previous word before `from`, if any.
fn previous_word_exec(lines: &[Line], from: Pos) -> (r: Option<Pos>)
    ensures
        r == previous_word(texts(lines@), from),
{
    let ghost t = texts(lines@);
    if lines.len() == 0 {
        return None;
    }
    let mut li = min_usize(from.line, lines.len() - 1);
    loop
        invariant
            li < lines.len(),
            li <= from.line,
            t == texts(lines@),
            previous_word(t, from) == prev_word_from(t, from, li as int),
        decreases li,
    {
        let chars = line_chars(lines, li);
        let end = if li < from.line {
            chars.len()
        } else {
            from.col
        };
        if let Some(c) = last_word_at(&chars, end) {
            return Some(Pos { line: li, col: c });
        }
        if li == 0 {
            return None;
        }
        li -= 1;
    }
}

/// Columns of `q` in `t` from `k` on, as `Pos`es on line `line`.
spec fn line_positions(t: Seq<char>, q: Seq<char>, k: int, line: usize) -> Seq<Pos> {
    let cols = line_matches(t, q, k);
    Seq::new(cols.len(), |j: int| Pos { line, col: cols[j] as usize })
}

/// Whether `q` occurs in `t` at `k`.
fn occurs_exec(t: &Vec<char>, q: &Vec<char>, k: usize) -> (b: bool)
    requires
        k <= t.len(),
    ensures
        b == occurs_at(t@, q@, k as int),
{
    if q.len() > t.len() - k {
        return false;
    }
    let mut j: usize = 0;
    while j < q.len()
        invariant
            j <= q.len(),
            k + q.len() <= t.len(),
            forall|m: int| 0 <= m < j ==> t@[k + m] == q@[m],
        decreases q.len() - j,
    {
        if t[k + j] != q[j] {
            assert(t@.subrange(k as int, k + q.len())[j as int] != q@[j as int]);
            return false;
        }
        j += 1;
    }
    assert(t@.subrange(k as int, k + q.len()) =~= q@);
    true
}

/// First occurrence of `q` in `t` at or after `k`.
fn next_occurrence_exec(t: &Vec<char>, q: &Vec<char>, k: usize) -> (r: Option<usize>)
    requires
        k <= t.len(),
    ensures
        match r {
            Some(p) => next_occurrence(t@, q@, k as int) == Some(p as int),
            None => next_occurrence(t@, q@, k as int) is None,
        },
{
    let mut j = k;
    loop
        invariant
            k <= j <= t.len(),
            next_occurrence(t@, q@, k as int) == next_occurrence(t@, q@, j as int),
        decreases t.len() - j,
    {
        if occurs_exec(t, q, j) {
            return Some(j);
        }
        if j == t.len() {
            assert(next_occurrence(t@, q@, j + 1) is None);
            return None;
        }
        j += 1;
    }
}

/// All literal matches of `q` as (line, char column), top to bottom.
fn find_matches(lines: &[Line], q: &Vec<char>) -> (out: Vec<Pos>)
    requires
        q.len() > 0,
    ensures
        out@ == all_matches(texts(lines@), q@, lines.len() as int),
{
    let ghost t = texts(lines@);
    let mut out: Vec<Pos> = Vec::new();
    let mut i: usize = 0;
    while i < lines.len()
        invariant
            i <= lines.len(),
            q.len() > 0,
            t == texts(lines@),
            out@ == all_matches(t, q@, i as int),
        decreases lines.len() - i,
    {
        let chars = line_chars(lines, i);
        let ghost before = out@;
        let mut k: usize = 0;
        loop
            invariant
                q.len() > 0,
                k <= chars.len(),
                chars@ == t[i as int],
                i < lines.len(),
                before + line_positions(chars@, q@, 0, i) == out@ + line_positions(chars@, q@, k as int, i),
            ensures
                out@ == before + line_positions(chars@, q@, 0, i),
            decreases chars.len() + 1 - k,
        {
            match next_occurrence_exec(&chars, q, k) {
                Some(p) => {
                    proof {
                        lemma_next_occurrence(chars@, q@, k as int);
                        let rest = line_positions(chars@, q@, (p + q.len()) as int, i);
                        assert(line_positions(chars@, q@, k as int, i) =~= seq![Pos { line: i, col: p }] + rest);
                        assert(out@.push(Pos { line: i, col: p }) + rest =~= out@ + line_positions(chars@, q@, k as int, i));
                    }
                    out.push(Pos { line: i, col: p });
                    k = p + q.len();
                },
                None => {
                    assert(line_positions(chars@, q@, k as int, i) =~= Seq::<Pos>::empty());
                    assert(out@ =~= before + line_positions(chars@, q@, 0, i));
                    break;
                },
            }
        }
        proof {
            assert(all_matches(t, q@, i + 1) =~= all_matches(t, q@, i as int) + line_positions(chars@, q@, 0, i));
        }
        i += 1;
    }
    out
}

/// Index of the first match after `at`.
fn first_after_exec(m: &Vec<Pos>, at: Pos) -> (r: Option<usize>)
    ensures
        match r {
            Some(i) => first_after(m@, at, 0) == Some(i as int),
            None => first_after(m@, at, 0) is None,
        },
{
    let mut i: usize = 0;
    while i < m.len()
        invariant
            first_after(m@, at, 0) == first_after(m@, at, i as int),
        decreases m.len() - i,
    {
        let p = m[i];
        if at.line < p.line || (at.line == p.line && at.col < p.col) {
            return Some(i);
        }
        i += 1;
    }
    None
}

/// Index of the last match before `at`.
fn last_before_exec(m: &Vec<Pos>, at: Pos) -> (r: Option<usize>)
    ensures
        match r {
            Some(i) => last_before(m@, at, m.len() as int) == Some(i as int),
            None => last_before(m@, at, m.len() as int) is None,
        },
{
    let mut i = m.len();
    while i > 0
        invariant
            i <= m.len(),
            last_before(m@, at, m.len() as int) == last_before(m@, at, i as int),
        decreases i,
    {
        let p = m[i - 1];
        if p.line < at.line || (p.line == at.line && p.col < at.col) {
            return Some(i - 1);
        }
        i -= 1;
    }
    None
}

impl Vim {
    /// Up to `repeat` word steps forward (or back); stops at the last word.
    fn move_word(&mut self, lines: &[Line], forward: bool, repeat: usize) -> (r: Outcome)
        ensures
            (vim_v(*final(self)), outcome_v(r)) == sp_move_word(
                vim_v(*old(self)),
                texts(lines@),
                forward,
                repeat as nat,
            ),
    {
        let ghost t = texts(lines@);
        if lines.len() == 0 {
            return Outcome::Ignored;
        }
        let at_start = self.cursor;
        let mut i: usize = 0;
        while i < repeat
            invariant
                i <= repeat,
                t == texts(lines@),
                vim_v(*self) == vim_v(*old(self)).cursor_at(self.cursor),
                word_steps(t, at_start, forward, repeat as nat) == word_steps(
                    t,
                    self.cursor,
                    forward,
                    (repeat - i) as nat,
                ),
            ensures
                vim_v(*self) == vim_v(*old(self)).cursor_at(self.cursor),
                word_steps(t, at_start, forward, repeat as nat) == self.cursor,
            decreases repeat - i,
        {
            let next = if forward {
                next_word_exec(lines, self.cursor)
            } else {
                previous_word_exec(lines, self.cursor)
            };
            match next {
                Some(p) => {
                    self.cursor = p;
                },
                None => {
                    break;
                },
            }
            i += 1;
        }
        self.want_col = self.cursor.col;
        self.message = String::new();
        if self.cursor == at_start {
            Outcome::Ignored
        } else {
            Outcome::Changed
        }
    }

    /// `yy`: the cursor's line.
    fn yank_current_line(&mut self, lines: &[Line]) -> (r: Outcome)
        ensures
            (vim_v(*final(self)), outcome_v(r)) == sp_yank_line(vim_v(*old(self)), texts(lines@)),
    {
        if self.cursor.line >= lines.len() {
            self.message = String::from_str("nothing to yank");
            return Outcome::Changed;
        }
        self.message = String::from_str("yanked 1 line");
        Outcome::Yanked(lines[self.cursor.line].text.clone())
    }

    /// `n`/`N`: the next (or previous) match of the last search, wrapping.
    fn jump_search(&mut self, lines: &[Line], forward: bool) -> (r: Outcome)
        ensures
            (vim_v(*final(self)), outcome_v(r)) == sp_jump_search(
                vim_v(*old(self)),
                texts(lines@),
                forward,
            ),
    {
        let q = chars_of(self.last_search.as_str());
        if q.len() == 0 {
            self.message = String::from_str("no search pattern");
            return Outcome::Changed;
        }
        let matches = find_matches(lines, &q);
        if matches.len() == 0 {
            let mut message = String::from_str("pattern not found: ");
            push_str(&mut message, self.last_search.as_str());
            self.message = message;
            return Outcome::Changed;
        }
        let idx = if forward {
            match first_after_exec(&matches, self.cursor) {
                Some(i) => i,
                None => 0,
            }
        } else {
            match last_before_exec(&matches, self.cursor) {
                Some(i) => i,
                None => matches.len() - 1,
            }
        };
        proof {
            lemma_first_after(matches@, self.cursor, 0);
            lemma_last_before(matches@, self.cursor, matches.len() as int);
        }
        let p = matches[idx];
        self.cursor = p;
        self.want_col = p.col;
        self.message = String::new();
        Outcome::Changed
    }
}

/// Value of an ASCII digit.
fn digit_of(c: char) -> (d: usize)
    requires
        crate::text::is_ascii_digit(c),
    ensures
        d == digit_value(c),
        d < 10,
{
    (c as u32 - '0' as u32) as usize
}

/// Count after typing digit `d`, saturating.
fn add_digit(count: Option<usize>, d: usize) -> (n: usize)
    requires
        d < 10,
    ensures
        n == with_digit(count, d as nat),
{
    let c = match count {
        Some(n) => n,
        None => 0,
    };
    match c.checked_mul(10) {
        Some(m) => m.saturating_add(d),
        None => usize::MAX,
    }
}

/// `-n`, wrapping at `isize::MIN`.
fn negate(n: isize) -> (m: isize)
    ensures
        m == neg(n),
{
    if n == isize::MIN {
        n
    } else {
        -n
    }
}

/// `a * b * c`, saturating at `usize::MAX`.
fn stride(a: usize, b: usize, c: usize) -> (n: usize)
    ensures
        n == min(a * b * c, usize::MAX as int),
{
    match a.checked_mul(b) {
        Some(ab) => match ab.checked_mul(c) {
            Some(v) => v,
            None => usize::MAX,
        },
        None => {
            if c == 0 {
                assert(a * b * c == 0) by (nonlinear_arith)
                    requires
                        c == 0,
                ;
                0
            } else {
                assert(a * b * c >= a * b) by (nonlinear_arith)
                    requires
                        c >= 1,
                        a * b >= 0,
                ;
                usize::MAX
            }
        },
    }
}

/// Moves of at least `usize::MAX` lines all end at the same place.
proof fn lemma_big_moves(s: VimV, t: Seq<Seq<char>>, x: int)
    requires
        x >= usize::MAX,
        t.len() <= usize::MAX,
    ensures
        sp_move_by(s, t, x) == sp_move_by(s, t, usize::MAX as int),
        sp_move_by(s, t, -x) == sp_move_by(s, t, -(usize::MAX as int)),
{
}

/// The text a visual selection from `start` to `end` covers.
fn yank_range(lines: &[Line], start: Pos, end: Pos, linewise: bool) -> (out: String)
    requires
        start.line <= end.line,
    ensures
        out@ == spec_yank_range(texts(lines@), start, end, linewise),
{
    let ghost t = texts(lines@);
    if lines.len() == 0 || start.line >= lines.len() {
        return String::new();
    }
    let last = min_usize(end.line, lines.len() - 1);
    let ghost n = last - start.line + 1;
    let ghost parts = if linewise {
        Seq::new(n as nat, |k: int| t[start.line + k])
    } else {
        Seq::new(
            n as nat,
            |k: int|
                {
                    let i = start.line + k;
                    let len = t[i].len() as int;
                    let from = if i == start.line {
                        min(start.col as int, len)
                    } else {
                        0
                    };
                    let to = if i == last {
                        min(end.col + 1, len)
                    } else {
                        len
                    };
                    char_slice(t[i], from, to)
                },
        )
    };
    assert(spec_yank_range(t, start, end, linewise) == join_lines(parts));
    let mut out = String::new();
    let mut i = start.line;
    while i <= last
        invariant
            start.line <= i <= last + 1,
            last < lines.len(),
            t == texts(lines@),
            n == last - start.line + 1,
            parts.len() == n,
            i > start.line ==> out@ == crate::markdown::join_prefix(parts, seq!['\n'], i - start.line),
            i == start.line ==> out@.len() == 0,
            forall|k: int| 0 <= k < n ==> #[trigger] parts[k] == (if linewise {
                t[start.line + k]
            } else {
                let j = start.line + k;
                let len = t[j].len() as int;
                let from = if j == start.line {
                    min(start.col as int, len)
                } else {
                    0
                };
                let to = if j == last {
                    min(end.col + 1, len)
                } else {
                    len
                };
                char_slice(t[j], from, to)
            }),
        decreases last + 1 - i,
    {
        let ghost before = out@;
        if i > start.line {
            push_char(&mut out, '\n');
        }
        let chars = line_chars(lines, i);
        let len = chars.len();
        let from = if linewise {
            0
        } else if i == start.line {
            min_usize(start.col, len)
        } else {
            0
        };
        let to = if linewise {
            len
        } else if i == last {
            min_usize(end.col.saturating_add(1), len)
        } else {
            len
        };
        if from < to {
            let piece = crate::text::string_of_range(&chars, from, to);
            push_str(&mut out, piece.as_str());
        }
        proof {
            let k = i - start.line;
            if linewise {
                assert(chars@.subrange(0, len as int) =~= chars@);
            }
            assert(parts[k] == (if from < to {
                chars@.subrange(from as int, to as int)
            } else {
                Seq::empty()
            }));
            if i > start.line {
                assert(out@ =~= before + seq!['\n'] + parts[k]);
            } else {
                assert(out@ =~= parts[k]);
            }
        }
        i += 1;
    }
    out
}

/// `"yanked N line(s)"` / `"yanked N char(s)"`.
fn yank_message_text(count: usize, linewise: bool) -> (m: String)
    ensures
        m@ == yank_message(count as nat, linewise),
{
    let mut m = String::from_str("yanked ");
    push_decimal(&mut m, count);
    push_str(&mut m, " ");
    if linewise {
        push_str(&mut m, "line");
    } else {
        push_str(&mut m, "char");
    }
    if count != 1 {
        push_str(&mut m, "s");
    }
    proof {
        assert(m@ =~= yank_message(count as nat, linewise));
    }
    m
}

impl Vim {
    /// `g`: a second `g` jumps to line `repeat` (the top by default); a
    /// first one waits, keeping a typed count.
    fn g_key(&mut self, lines: &[Line], repeat: usize, was_g: bool)
        requires
            old(self).count is None,
        ensures
            vim_v(*final(self)) == sp_g(vim_v(*old(self)), texts(lines@), repeat, was_g),
    {
        if was_g {
            self.goto_line(lines, repeat.saturating_sub(1));
        } else {
            self.pending_g = true;
            if repeat != 1 {
                self.count = Some(repeat);
            }
        }
        self.message = String::new();
    }

    /// `G`: line `repeat`, or the last line by default.
    fn big_g_key(&mut self, lines: &[Line], repeat: usize)
        ensures
            vim_v(*final(self)) == sp_big_g(vim_v(*old(self)), texts(lines@), repeat),
    {
        if repeat == 1 {
            self.goto_line(lines, lines.len().saturating_sub(1));
        } else {
            self.goto_line(lines, repeat.saturating_sub(1));
        }
        self.message = String::new();
    }

    /// `y`: a second `y` yanks the line, a first one waits.
    fn y_key(&mut self, lines: &[Line], was_y: bool) -> (r: Outcome)
        ensures
            (vim_v(*final(self)), outcome_v(r)) == sp_y(vim_v(*old(self)), texts(lines@), was_y),
    {
        if was_y {
            self.yank_current_line(lines)
        } else if lines.len() == 0 {
            self.message = String::from_str("nothing to yank");
            Outcome::Changed
        } else {
            self.pending_y = true;
            Outcome::Changed
        }
    }

    /// Takes the typed count (1 by default) and the pending prefixes.
    fn take_prefix(&mut self) -> (r: (usize, bool, bool))
        ensures
            vim_v(*final(self)) == reset_prefix(vim_v(*old(self))),
            r == (repeat_of(vim_v(*old(self))), old(self).pending_y, old(self).pending_g),
    {
        let repeat = match self.count {
            Some(n) => n,
            None => 1,
        };
        let r = (repeat, self.pending_y, self.pending_g);
        self.count = None;
        self.pending_y = false;
        self.pending_g = false;
        r
    }

    /// A key in Normal mode.
    fn normal_key(&mut self, lines: &[Line], key: Key) -> (r: Outcome)
        ensures
            (vim_v(*final(self)), outcome_v(r)) == sp_normal(vim_v(*old(self)), texts(lines@), key),
    {
        let ghost t = texts(lines@);
        match key {
            Key::Esc => {
                let had = self.count.is_some() || self.pending_y || self.pending_g
                    || !self.message.as_str().is_empty();
                self.count = None;
                self.pending_y = false;
                self.pending_g = false;
                self.message = String::new();
                if had {
                    Outcome::Changed
                } else {
                    Outcome::Ignored
                }
            },
            Key::Char(c) if crate::text::ascii_digit(c) => {
                if c == '0' && self.count.is_none() {
                    self.cursor.col = 0;
                    self.want_col = 0;
                    self.message = String::new();
                    return Outcome::Changed;
                }
                self.count = Some(add_digit(self.count, digit_of(c)));
                self.pending_y = false;
                self.pending_g = false;
                Outcome::Changed
            },
            _ => {
                let ghost s = vim_v(*self);
                let (repeat, was_y, was_g) = self.take_prefix();
                let r = repeat as isize;
                match key {
                    Key::Char('j') | Key::Down => Outcome::Scroll(r),
                    Key::Char('k') | Key::Up => Outcome::Scroll(negate(r)),
                    Key::Char('g') => {
                        self.g_key(lines, repeat, was_g);
                        Outcome::Changed
                    },
                    Key::Char('G') => {
                        self.big_g_key(lines, repeat);
                        Outcome::Changed
                    },
                    Key::Ctrl('d') => Outcome::ScrollHalf(r),
                    Key::Ctrl('u') => Outcome::ScrollHalf(negate(r)),
                    Key::PageDown => Outcome::ScrollPage(r),
                    Key::PageUp => Outcome::ScrollPage(negate(r)),
                    Key::Char('i') => {
                        if lines.len() == 0 {
                            return Outcome::Ignored;
                        }
                        self.message = String::new();
                        self.mode = Mode::Cursor;
                        Outcome::Changed
                    },
                    Key::Char('v') | Key::Char('V') => {
                        if lines.len() == 0 {
                            return Outcome::Ignored;
                        }
                        self.message = String::new();
                        self.mode = Mode::Visual { anchor: self.cursor, linewise: key == Key::Char('V') };
                        Outcome::Changed
                    },
                    Key::Char('/') => {
                        self.message = String::new();
                        self.mode = Mode::Search { query: String::new(), from_cursor: false };
                        Outcome::Changed
                    },
                    Key::Char('n') => self.jump_search(lines, true),
                    Key::Char('N') => self.jump_search(lines, false),
                    Key::Char('y') => self.y_key(lines, was_y),
                    _ => {
                        self.message = String::new();
                        Outcome::Ignored
                    },
                }
            },
        }
    }
}

impl Vim {
    /// A key in Cursor mode.
    fn cursor_key(&mut self, lines: &[Line], key: Key, half: usize) -> (r: Outcome)
        ensures
            (vim_v(*final(self)), outcome_v(r)) == sp_cursor(vim_v(*old(self)), texts(lines@), key, half),
    {
        let ghost t = texts(lines@);
        match key {
            Key::Esc => {
                self.mode = Mode::Normal;
                self.count = None;
                self.pending_g = false;
                self.pending_y = false;
                self.message = String::new();
                return Outcome::Changed;
            },
            Key::Char(c) => {
                if crate::text::ascii_digit(c) && !(c == '0' && self.count.is_none()) {
                    self.count = Some(add_digit(self.count, digit_of(c)));
                    self.pending_g = false;
                    self.pending_y = false;
                    return Outcome::Changed;
                }
            },
            _ => {},
        }
        let ghost s = vim_v(*self);
        let (repeat, was_y, was_g) = self.take_prefix();
        let ghost base = vim_v(*self);
        proof {
            assert(t.len() == lines.len());
            if half * repeat >= usize::MAX {
                lemma_big_moves(base, t, half * repeat);
            }
            if half * 2 * repeat >= usize::MAX {
                lemma_big_moves(base, t, half * 2 * repeat);
            }
        }
        match key {
            Key::Char('h') | Key::Left => self.move_horizontal(lines, repeat, false),
            Key::Char('l') | Key::Right => self.move_horizontal(lines, repeat, true),
            Key::Char('j') | Key::Down => self.move_by(lines, repeat, true),
            Key::Char('k') | Key::Up => self.move_by(lines, repeat, false),
            Key::Ctrl('d') => self.move_by(lines, stride(half, 1, repeat), true),
            Key::Ctrl('u') => self.move_by(lines, stride(half, 1, repeat), false),
            Key::PageDown => self.move_by(lines, stride(half, 2, repeat), true),
            Key::PageUp => self.move_by(lines, stride(half, 2, repeat), false),
            Key::Char('0') => self.move_to_column(lines, 0),
            Key::Char('$') => {
                let col = if self.cursor.line < lines.len() {
                    max_col_of(&lines[self.cursor.line].text)
                } else {
                    0
                };
                self.move_to_column(lines, col)
            },
            Key::Char('w') => self.move_word(lines, true, repeat),
            Key::Char('b') => self.move_word(lines, false, repeat),
            Key::Char('g') => {
                self.g_key(lines, repeat, was_g);
                Outcome::Changed
            },
            Key::Char('G') => {
                self.big_g_key(lines, repeat);
                Outcome::Changed
            },
            Key::Char('v') | Key::Char('V') => {
                self.mode = Mode::Visual { anchor: self.cursor, linewise: key == Key::Char('V') };
                self.message = String::new();
                Outcome::Changed
            },
            Key::Char('/') => {
                self.mode = Mode::Search { query: String::new(), from_cursor: true };
                self.message = String::new();
                Outcome::Changed
            },
            Key::Char('n') => self.jump_search(lines, true),
            Key::Char('N') => self.jump_search(lines, false),
            Key::Char('y') => self.y_key(lines, was_y),
            _ => {
                self.message = String::new();
                Outcome::Ignored
            },
        }
    }
}

impl Vim {
    /// Takes the typed count, 1 by default.
    fn take_count(&mut self) -> (n: usize)
        ensures
            vim_v(*final(self)) == (VimV { count: None, ..vim_v(*old(self)) }),
            n == repeat_of(vim_v(*old(self))),
    {
        let n = match self.count {
            Some(n) => n,
            None => 1,
        };
        self.count = None;
        n
    }

    /// A key in Visual mode, selecting from `anchor`.
    fn visual_key(&mut self, lines: &[Line], key: Key, anchor: Pos, linewise: bool, half: usize) -> (r: Outcome)
        ensures
            (vim_v(*final(self)), outcome_v(r)) == sp_visual(
                vim_v(*old(self)),
                texts(lines@),
                key,
                anchor,
                linewise,
                half,
            ),
    {
        let ghost t = texts(lines@);
        proof {
            assert(t.len() == lines.len());
            let counted = VimV { count: None, ..vim_v(*old(self)) };
            let repeat = repeat_of(vim_v(*old(self))) as int;
            if half * repeat >= usize::MAX {
                lemma_big_moves(counted, t, half * repeat);
            }
            if half * 2 * repeat >= usize::MAX {
                lemma_big_moves(counted, t, half * 2 * repeat);
            }
        }
        match key {
            Key::Esc => {
                self.mode = Mode::Cursor;
                self.message = String::new();
                Outcome::Changed
            },
            Key::Char('v') => {
                self.mode = if linewise {
                    Mode::Visual { anchor, linewise: false }
                } else {
                    Mode::Cursor
                };
                Outcome::Changed
            },
            Key::Char('V') => {
                self.mode = if linewise {
                    Mode::Cursor
                } else {
                    Mode::Visual { anchor, linewise: true }
                };
                Outcome::Changed
            },
            Key::Char('j') | Key::Down => {
                let repeat = self.take_count();
                self.move_by(lines, repeat, true)
            },
            Key::Char('k') | Key::Up => {
                let repeat = self.take_count();
                self.move_by(lines, repeat, false)
            },
            Key::Ctrl('d') => {
                let repeat = self.take_count();
                self.move_by(lines, stride(half, 1, repeat), true)
            },
            Key::Ctrl('u') => {
                let repeat = self.take_count();
                self.move_by(lines, stride(half, 1, repeat), false)
            },
            Key::PageDown => {
                let repeat = self.take_count();
                self.move_by(lines, stride(half, 2, repeat), true)
            },
            Key::PageUp => {
                let repeat = self.take_count();
                self.move_by(lines, stride(half, 2, repeat), false)
            },
            Key::Char('y') => {
                let (start, end) = ordered(anchor, self.cursor);
                let text = yank_range(lines, start, end, linewise);
                let count = if linewise {
                    (end.line - start.line).saturating_add(1)
                } else {
                    char_len(&text)
                };
                self.message = yank_message_text(count, linewise);
                self.cursor = start;
                self.want_col = start.col;
                self.mode = Mode::Cursor;
                Outcome::Yanked(text)
            },
            _ => {
                let saved = self.cursor;
                let outcome = self.cursor_key(lines, key, half);
                self.mode = Mode::Visual { anchor, linewise };
                match outcome {
                    Outcome::Changed => Outcome::Changed,
                    other => {
                        self.cursor = saved;
                        other
                    },
                }
            },
        }
    }

    /// A key while typing a search for `query`.
    fn search_key(&mut self, lines: &[Line], key: Key, query: String, from_cursor: bool) -> (r: Outcome)
        ensures
            (vim_v(*final(self)), outcome_v(r)) == sp_search(
                vim_v(*old(self)),
                texts(lines@),
                key,
                query@,
                from_cursor,
            ),
    {
        let back = if from_cursor {
            Mode::Cursor
        } else {
            Mode::Normal
        };
        match key {
            Key::Esc => {
                self.mode = back;
                self.message = String::new();
                Outcome::Changed
            },
            Key::Enter => {
                let q = if !query.as_str().is_empty() {
                    query
                } else {
                    self.last_search.clone()
                };
                if q.as_str().is_empty() {
                    self.mode = back;
                    self.message = String::from_str("no search pattern");
                    return Outcome::Changed;
                }
                self.last_search = q;
                self.mode = back;
                self.jump_search(lines, true)
            },
            Key::Backspace => {
                let mut v = chars_of(query.as_str());
                v.pop();
                self.mode = Mode::Search { query: string_of(&v), from_cursor };
                Outcome::Changed
            },
            Key::Char(c) => {
                let mut q = query;
                push_char(&mut q, c);
                self.mode = Mode::Search { query: q, from_cursor };
                Outcome::Changed
            },
            _ => Outcome::Ignored,
        }
    }

    /// Handle one key against the current lines. `half` is the Ctrl-d/u
    /// stride in lines.
    pub fn handle_key(&mut self, lines: &[Line], key: Key, half: usize) -> (r: Outcome)
        ensures
            (vim_v(*final(self)), outcome_v(r)) == step(vim_v(*old(self)), texts(lines@), key, half),
    {
        match &self.mode {
            Mode::Search { query, from_cursor } => {
                let q = query.clone();
                let f = *from_cursor;
                self.search_key(lines, key, q, f)
            },
            Mode::Visual { anchor, linewise } => {
                let a = *anchor;
                let l = *linewise;
                self.visual_key(lines, key, a, l, half)
            },
            Mode::Cursor => self.cursor_key(lines, key, half),
            Mode::Normal => self.normal_key(lines, key),
        }
    }
}

/// The status-line label: the mode, after any typed count; a search
/// shows its query.
pub open spec fn spec_status(s: VimV) -> Seq<char> {
    match s.mode {
        ModeV::Search { query, .. } => "/"@ + query,
        _ => {
            let label = match s.mode {
                ModeV::Normal => "-- NORMAL --"@,
                ModeV::Cursor => "-- CURSOR --"@,
                ModeV::Visual { linewise, .. } => if linewise {
                    "-- VISUAL LINE --"@
                } else {
                    "-- VISUAL --"@
                },
                _ => Seq::empty(),
            };
            match s.count {
                Some(n) => decimal(n as nat) + label,
                None => label,
            }
        },
    }
}

/// Lines covered by a visual selection.
pub open spec fn spec_selection(s: VimV) -> Option<(usize, usize)> {
    match s.mode {
        ModeV::Visual { anchor, .. } => {
            let (a, b) = spec_ordered(anchor, s.cursor);
            Some((a.line, b.line))
        },
        _ => None,
    }
}

/// What to paint as selected on line `line` of `char_count` characters.
pub open spec fn spec_highlight(s: VimV, line: usize, char_count: usize) -> Option<Highlight> {
    match s.mode {
        ModeV::Cursor => if s.cursor.line == line {
            if char_count == 0 {
                Some(Highlight::Whole)
            } else {
                let start = min(s.cursor.col as int, char_count - 1);
                Some(Highlight::Chars(start as usize, (start + 1) as usize))
            }
        } else {
            None
        },
        ModeV::Visual { anchor, linewise } => {
            let (start, end) = spec_ordered(anchor, s.cursor);
            if line < start.line || line > end.line {
                None
            } else if linewise || char_count == 0 {
                Some(Highlight::Whole)
            } else {
                let from = if line == start.line {
                    min(start.col as int, char_count - 1)
                } else {
                    0
                };
                let to = if line == end.line {
                    min(end.col as int, char_count - 1) + 1
                } else {
                    char_count as int
                };
                Some(Highlight::Chars(from as usize, to as usize))
            }
        },
        _ => None,
    }
}

/// Index of the first line of `v[i..]` whose key is `key`.
pub open spec fn first_key(v: Seq<Line>, key: Seq<char>, i: int) -> Option<int>
    decreases v.len() - i,
{
    if 0 <= i < v.len() {
        if v[i].key@ == key {
            Some(i)
        } else {
            first_key(v, key, i + 1)
        }
    } else {
        None
    }
}

/// The state after the lines were reloaded: Normal mode, nothing pending,
/// the cursor on the first line with the old block key (if any still has
/// it), pulled back into the new lines.
pub open spec fn spec_rebase(s: VimV, old_key: Option<Seq<char>>, v: Seq<Line>) -> VimV {
    let line = match old_key {
        Some(k) => match first_key(v, k, 0) {
            Some(i) => i as usize,
            None => s.cursor.line,
        },
        None => s.cursor.line,
    };
    let c = clamped(Pos { line, col: s.cursor.col }, texts(v));
    VimV { mode: ModeV::Normal, count: None, pending_y: false, pending_g: false, cursor: c, want_col: c.col, ..s }
}

/// The state after placing the cursor at the start of line `line`.
pub open spec fn spec_place(s: VimV, t: Seq<Seq<char>>, line: usize) -> VimV {
    if t.len() == 0 {
        VimV { cursor: Pos { line: 0, col: 0 }, want_col: 0, ..s }
    } else {
        VimV { cursor: Pos { line: min(line as int, t.len() - 1) as usize, col: 0 }, want_col: 0, ..s }
    }
}

proof fn lemma_first_key(v: Seq<Line>, key: Seq<char>, i: int)
    ensures
        first_key(v, key, i) matches Some(j) ==> i <= j < v.len(),
    decreases v.len() - i,
{
    if 0 <= i < v.len() && v[i].key@ != key {
        lemma_first_key(v, key, i + 1);
    }
}

/// Index of the first line whose block key is `key`.
fn position_of_key(lines: &[Line], key: &String) -> (r: Option<usize>)
    ensures
        match r {
            Some(i) => first_key(lines@, key@, 0) == Some(i as int),
            None => first_key(lines@, key@, 0) is None,
        },
{
    let mut i: usize = 0;
    while i < lines.len()
        invariant
            first_key(lines@, key@, 0) == first_key(lines@, key@, i as int),
        decreases lines.len() - i,
    {
        if lines[i].key == *key {
            return Some(i);
        }
        i += 1;
    }
    None
}

impl Vim {
    /// Mode label for the status line.
    pub fn status(&self) -> (s: String)
        ensures
            s@ == spec_status(vim_v(*self)),
    {
        let label = match &self.mode {
            Mode::Search { query, .. } => {
                let mut out = String::from_str("/");
                push_str(&mut out, query.as_str());
                return out;
            },
            Mode::Normal => "-- NORMAL --",
            Mode::Cursor => "-- CURSOR --",
            Mode::Visual { linewise, .. } => if *linewise {
                "-- VISUAL LINE --"
            } else {
                "-- VISUAL --"
            },
        };
        match self.count {
            Some(n) => {
                let mut out = String::new();
                push_decimal(&mut out, n);
                push_str(&mut out, label);
                out
            },
            None => String::from_str(label),
        }
    }

    /// Rebase the cursor onto reloaded lines via the previous block key.
    /// Drops to Normal: selections do not survive reloads.
    pub fn rebase(&mut self, old_key: Option<String>, new_lines: &[Line])
        ensures
            vim_v(*final(self)) == spec_rebase(
                vim_v(*old(self)),
                match old_key {
                    Some(k) => Some(k@),
                    None => None,
                },
                new_lines@,
            ),
    {
        self.mode = Mode::Normal;
        self.count = None;
        self.pending_y = false;
        self.pending_g = false;
        if let Some(key) = old_key {
            if let Some(i) = position_of_key(new_lines, &key) {
                self.cursor.line = i;
            }
        }
        self.clamp(new_lines);
        self.want_col = self.cursor.col;
    }

    /// Inclusive line range covered by the current visual selection, if any.
    pub fn selection_lines(&self) -> (r: Option<(usize, usize)>)
        ensures
            r == spec_selection(vim_v(*self)),
    {
        match &self.mode {
            Mode::Visual { anchor, .. } => {
                let (start, end) = ordered(*anchor, self.cursor);
                Some((start.line, end.line))
            },
            _ => None,
        }
    }

    /// What to paint as selected on line `line` of `char_count` characters.
    pub fn highlight_for_line(&self, line: usize, char_count: usize) -> (r: Option<Highlight>)
        ensures
            r == spec_highlight(vim_v(*self), line, char_count),
    {
        match &self.mode {
            Mode::Cursor => {
                if self.cursor.line != line {
                    return None;
                }
                if char_count == 0 {
                    Some(Highlight::Whole)
                } else {
                    let start = min_usize(self.cursor.col, char_count - 1);
                    Some(Highlight::Chars(start, start + 1))
                }
            },
            Mode::Visual { anchor, linewise } => {
                let (start, end) = ordered(*anchor, self.cursor);
                if line < start.line || line > end.line {
                    return None;
                }
                if *linewise || char_count == 0 {
                    return Some(Highlight::Whole);
                }
                let from = if line == start.line {
                    min_usize(start.col, char_count - 1)
                } else {
                    0
                };
                let to = if line == end.line {
                    min_usize(end.col, char_count - 1) + 1
                } else {
                    char_count
                };
                Some(Highlight::Chars(from, to))
            },
            _ => None,
        }
    }

    /// Place the cursor at the start of a line (clamped to the document).
    pub fn place_cursor(&mut self, lines: &[Line], line: usize)
        ensures
            vim_v(*final(self)) == spec_place(vim_v(*old(self)), texts(lines@), line),
    {
        if lines.len() == 0 {
            self.cursor = Pos { line: 0, col: 0 };
            self.want_col = 0;
            return;
        }
        self.cursor = Pos { line: min_usize(line, lines.len() - 1), col: 0 };
        self.want_col = 0;
    }
}

// ---------------------------------------------------------------------------
// Laws
// ---------------------------------------------------------------------------

/// Lines whose count and lengths fit in `usize`, as real lines do.
pub open spec fn bounded(t: Seq<Seq<char>>) -> bool {
    &&& t.len() <= usize::MAX
    &&& forall|i: int| 0 <= i < t.len() ==> #[trigger] t[i].len() <= usize::MAX
}

/// The cursor, and a selection's anchor, name characters of `t`.
pub open spec fn valid(s: VimV, t: Seq<Seq<char>>) -> bool {
    &&& fits(s.cursor, t)
    &&& (s.mode matches ModeV::Visual { anchor, .. } ==> fits(anchor, t))
}

proof fn lemma_first_word(t: Seq<char>, i: int)
    ensures
        first_word_from(t, i) matches Some(c) ==> i <= c < t.len(),
    decreases t.len() - i,
{
    if 0 <= i < t.len() && !word_start(t, i) {
        lemma_first_word(t, i + 1);
    }
}

proof fn lemma_last_word(t: Seq<char>, i: int)
    ensures
        last_word_before(t, i) matches Some(c) ==> 0 <= c < i && c < t.len(),
    decreases i,
{
    if 0 < i {
        lemma_last_word(t, i - 1);
    }
}

proof fn lemma_next_word_fits(t: Seq<Seq<char>>, from: Pos, li: int)
    requires
        li >= 0,
        bounded(t),
    ensures
        next_word_from(t, from, li) matches Some(p) ==> fits(p, t) && p.line >= li,
    decreases t.len() - li,
{
    if 0 <= li < t.len() {
        let start = if li > from.line {
            0
        } else {
            from.col + 1
        };
        lemma_first_word(t[li], start);
        if first_word_from(t[li], start) is None {
            lemma_next_word_fits(t, from, li + 1);
        }
    }
}

proof fn lemma_prev_word_fits(t: Seq<Seq<char>>, from: Pos, li: int)
    requires
        bounded(t),
    ensures
        prev_word_from(t, from, li) matches Some(p) ==> fits(p, t),
    decreases li,
{
    if 0 <= li < t.len() {
        let end = if li < from.line {
            t[li].len() as int
        } else {
            from.col as int
        };
        lemma_last_word(t[li], end);
        if last_word_before(t[li], end) is None && li > 0 {
            lemma_prev_word_fits(t, from, li - 1);
        }
    }
}

proof fn lemma_word_steps_fit(t: Seq<Seq<char>>, p: Pos, forward: bool, n: nat)
    requires
        fits(p, t),
        bounded(t),
    ensures
        fits(word_steps(t, p, forward, n), t),
    decreases n,
{
    if n > 0 {
        lemma_next_word_fits(t, p, p.line as int);
        lemma_prev_word_fits(t, p, min(p.line as int, t.len() - 1));
        let next = if forward {
            next_word(t, p)
        } else {
            previous_word(t, p)
        };
        if let Some(q) = next {
            lemma_word_steps_fit(t, q, forward, (n - 1) as nat);
        }
    }
}

proof fn lemma_line_matches(t: Seq<char>, q: Seq<char>, k: int)
    requires
        q.len() > 0,
    ensures
        forall|j: int| 0 <= j < line_matches(t, q, k).len() ==> occurs_at(t, q, #[trigger] line_matches(t, q, k)[j]),
    decreases t.len() + 1 - k,
{
    if 0 <= k <= t.len() {
        lemma_next_occurrence(t, q, k);
        if let Some(p) = next_occurrence(t, q, k) {
            lemma_line_matches(t, q, p + q.len());
            let rest = line_matches(t, q, p + q.len());
            assert(line_matches(t, q, k) == seq![p] + rest);
            assert forall|j: int| 0 <= j < line_matches(t, q, k).len() implies occurs_at(
                t,
                q,
                #[trigger] line_matches(t, q, k)[j],
            ) by {
                if j > 0 {
                    assert(line_matches(t, q, k)[j] == rest[j - 1]);
                }
            }
        }
    }
}

/// Every match found lies on a line of `t`, at an occurrence of `q`.
pub proof fn lemma_all_matches(t: Seq<Seq<char>>, q: Seq<char>, n: int)
    requires
        q.len() > 0,
        n <= t.len(),
        bounded(t),
    ensures
        forall|j: int|
            0 <= j < all_matches(t, q, n).len() ==> {
                let p = #[trigger] all_matches(t, q, n)[j];
                &&& p.line < n
                &&& occurs_at(t[p.line as int], q, p.col as int)
            },
    decreases n,
{
    if 0 < n <= t.len() {
        lemma_all_matches(t, q, n - 1);
        let cols = line_matches(t[n - 1], q, 0);
        lemma_line_matches(t[n - 1], q, 0);
        lemma_line_cols(t[n - 1], q, 0);
        let head = all_matches(t, q, n - 1);
        let tail = Seq::new(cols.len(), |k: int| Pos { line: (n - 1) as usize, col: cols[k] as usize });
        assert(all_matches(t, q, n) == head + tail);
        assert forall|j: int| 0 <= j < all_matches(t, q, n).len() implies {
            let p = #[trigger] all_matches(t, q, n)[j];
            &&& p.line < n
            &&& occurs_at(t[p.line as int], q, p.col as int)
        } by {
            if j >= head.len() {
                let k = j - head.len();
                assert(all_matches(t, q, n)[j] == tail[k]);
                assert(occurs_at(t[n - 1], q, cols[k]));
            } else {
                assert(all_matches(t, q, n)[j] == head[j]);
            }
        }
    }
}

proof fn lemma_line_cols(t: Seq<char>, q: Seq<char>, k: int)
    requires
        q.len() > 0,
    ensures
        forall|j: int| 0 <= j < line_matches(t, q, k).len() ==> 0 <= #[trigger] line_matches(t, q, k)[j] <= t.len(),
{
    lemma_line_matches(t, q, k);
}

/// The cursor, and the anchor of a selection, always name a character of
/// the lines (the origin when there are none): every key keeps it so.
pub proof fn lemma_step_keeps_cursor_on_text(s: VimV, t: Seq<Seq<char>>, key: Key, half: usize)
    requires
        valid(s, t),
        bounded(t),
    ensures
        valid(step(s, t, key, half).0, t),
{
    match s.mode {
        ModeV::Search { query, from_cursor } => lemma_search_fits(s, t, key, query, from_cursor),
        ModeV::Visual { anchor, linewise } => lemma_visual_fits(s, t, key, anchor, linewise, half),
        ModeV::Cursor => lemma_cursor_fits(s, t, key, half),
        ModeV::Normal => lemma_normal_fits(s, t, key),
    }
}

proof fn lemma_search_fits(s: VimV, t: Seq<Seq<char>>, key: Key, query: Seq<char>, from_cursor: bool)
    requires
        fits(s.cursor, t),
        bounded(t),
        s.mode == (ModeV::Search { query, from_cursor }),
    ensures
        valid(sp_search(s, t, key, query, from_cursor).0, t),
{
    let q = if query.len() > 0 {
        query
    } else {
        s.last_search
    };
    let back = if from_cursor {
        ModeV::Cursor
    } else {
        ModeV::Normal
    };
    lemma_jump_fits(VimV { last_search: q, mode: back, ..s }, t, true);
}

#[verifier::rlimit(40)]
proof fn lemma_visual_fits(s: VimV, t: Seq<Seq<char>>, key: Key, anchor: Pos, linewise: bool, half: usize)
    requires
        valid(s, t),
        bounded(t),
        s.mode == (ModeV::Visual { anchor, linewise }),
    ensures
        valid(sp_visual(s, t, key, anchor, linewise, half).0, t),
{
    let counted = VimV { count: None, ..s };
    let r = repeat_of(s) as int;
    match key {
        Key::Esc | Key::Char('v') | Key::Char('V') | Key::Char('y') => {},
        Key::Char('j') | Key::Down => lemma_move_by_fits(counted, t, r),
        Key::Char('k') | Key::Up => lemma_move_by_fits(counted, t, -r),
        Key::Ctrl('d') => lemma_move_by_fits(counted, t, half * r),
        Key::Ctrl('u') => lemma_move_by_fits(counted, t, -(half * r)),
        Key::PageDown => lemma_move_by_fits(counted, t, half * 2 * r),
        Key::PageUp => lemma_move_by_fits(counted, t, -(half * 2 * r)),
        _ => lemma_cursor_fits(s, t, key, half),
    }
}

#[verifier::rlimit(40)]
proof fn lemma_normal_fits(s: VimV, t: Seq<Seq<char>>, key: Key)
    requires
        valid(s, t),
        bounded(t),
        s.mode == ModeV::Normal,
    ensures
        valid(sp_normal(s, t, key).0, t),
{
    if key != Key::Esc && !is_digit_key(key) {
        let base = reset_prefix(s);
        match key {
            Key::Char('n') => lemma_jump_fits(base, t, true),
            Key::Char('N') => lemma_jump_fits(base, t, false),
            _ => {},
        }
    }
}

proof fn lemma_move_by_fits(s: VimV, t: Seq<Seq<char>>, delta: int)
    requires
        fits(s.cursor, t),
        bounded(t),
    ensures
        fits(sp_move_by(s, t, delta).0.cursor, t),
{
}

proof fn lemma_jump_fits(s: VimV, t: Seq<Seq<char>>, forward: bool)
    requires
        fits(s.cursor, t),
        bounded(t),
    ensures
        fits(sp_jump_search(s, t, forward).0.cursor, t),
        sp_jump_search(s, t, forward).0.mode == s.mode,
{
    if s.last_search.len() > 0 {
        let m = all_matches(t, s.last_search, t.len() as int);
        lemma_all_matches(t, s.last_search, t.len() as int);
        lemma_first_after(m, s.cursor, 0);
        lemma_last_before(m, s.cursor, m.len() as int);
        if m.len() > 0 {
            let idx = if forward {
                match first_after(m, s.cursor, 0) {
                    Some(i) => i,
                    None => 0,
                }
            } else {
                match last_before(m, s.cursor, m.len() as int) {
                    Some(i) => i,
                    None => m.len() - 1,
                }
            };
            assert(occurs_at(t[m[idx].line as int], s.last_search, m[idx].col as int));
        }
    }
}

#[verifier::rlimit(40)]
proof fn lemma_cursor_fits(s: VimV, t: Seq<Seq<char>>, key: Key, half: usize)
    requires
        fits(s.cursor, t),
        bounded(t),
    ensures
        fits(sp_cursor(s, t, key, half).0.cursor, t),
        s.mode !is Visual ==> (sp_cursor(s, t, key, half).0.mode matches ModeV::Visual { anchor, .. }
            ==> anchor == s.cursor),
{
    if key != Key::Esc && !(is_digit_key(key) && !(key->Char_0 == '0' && s.count is None)) {
        let base = reset_prefix(s);
        let r = repeat_of(s) as int;
        match key {
            Key::Char('n') => lemma_jump_fits(base, t, true),
            Key::Char('N') => lemma_jump_fits(base, t, false),
            Key::Char('w') => lemma_word_steps_fit(t, s.cursor, true, r as nat),
            Key::Char('b') => lemma_word_steps_fit(t, s.cursor, false, r as nat),
            Key::Char('j') | Key::Down => lemma_move_by_fits(base, t, r),
            Key::Char('k') | Key::Up => lemma_move_by_fits(base, t, -r),
            Key::Ctrl('d') => lemma_move_by_fits(base, t, half * r),
            Key::Ctrl('u') => lemma_move_by_fits(base, t, -(half * r)),
            Key::PageDown => lemma_move_by_fits(base, t, half * 2 * r),
            Key::PageUp => lemma_move_by_fits(base, t, -(half * 2 * r)),
            _ => {},
        }
    }
}

/// A fresh navigator is valid on any lines; a reload leaves the cursor
/// valid on the new lines in Normal mode; placing the cursor puts it on
/// a line.
pub proof fn lemma_fresh_reload_and_place_fit(s: VimV, t: Seq<Seq<char>>, k: Option<Seq<char>>, v: Seq<Line>, line: usize)
    requires
        bounded(t),
        bounded(texts(v)),
    ensures
        valid(initial(), t),
        valid(spec_rebase(s, k, v), texts(v)),
        spec_rebase(s, k, v).mode == ModeV::Normal,
        fits(spec_place(s, t, line).cursor, t),
{
}

/// A reload keeps the cursor on its block: when a new line carries the
/// old block key, the cursor lands on the first such line.
pub proof fn lemma_reload_follows_block(s: VimV, k: Seq<char>, v: Seq<Line>, i: int)
    requires
        first_key(v, k, 0) == Some(i),
        bounded(texts(v)),
    ensures
        spec_rebase(s, Some(k), v).cursor.line == i,
        v[i].key@ == k,
        forall|j: int| 0 <= j < i ==> v[j].key@ != k,
{
    lemma_first_key_is_first(v, k, 0);
}

proof fn lemma_first_key_is_first(v: Seq<Line>, k: Seq<char>, i: int)
    requires
        0 <= i,
    ensures
        first_key(v, k, i) matches Some(j) ==> i <= j < v.len() && v[j].key@ == k && forall|m: int|
            i <= m < j ==> v[m].key@ != k,
    decreases v.len() - i,
{
    if 0 <= i < v.len() && v[i].key@ != k {
        lemma_first_key_is_first(v, k, i + 1);
    }
}

/// `y` in Visual mode yanks the selection, ends it, and leaves the cursor
/// at its start in Cursor mode.
pub proof fn lemma_visual_yank_ends_selection(s: VimV, t: Seq<Seq<char>>, half: usize, anchor: Pos, linewise: bool)
    requires
        s.mode == (ModeV::Visual { anchor, linewise }),
    ensures
        ({
            let (next, out) = step(s, t, Key::Char('y'), half);
            let (start, end) = spec_ordered(anchor, s.cursor);
            &&& next.mode == ModeV::Cursor
            &&& spec_selection(next) is None
            &&& next.cursor == start
            &&& out == OutcomeV::Yanked(spec_yank_range(t, start, end, linewise))
        }),
{
}

/// The characters of `text` that a highlight picks.
pub open spec fn picked(text: Seq<char>, h: Option<Highlight>) -> Seq<char> {
    match h {
        Some(Highlight::Whole) => text,
        Some(Highlight::Chars(from, to)) => char_slice(text, from as int, to as int),
        None => Seq::empty(),
    }
}

/// In charwise Visual mode what is highlighted is exactly what `y` yanks:
/// no line outside the selection is highlighted, and the highlighted
/// characters of the selected lines, joined by newlines, are the yanked
/// text. The selection lies within the lines and starts on a character of
/// its line (or on an empty line).
pub proof fn lemma_visual_highlight_is_yank(s: VimV, t: Seq<Seq<char>>, anchor: Pos)
    requires
        s.mode == (ModeV::Visual { anchor, linewise: false }),
        spec_ordered(anchor, s.cursor).1.line < t.len(),
        spec_ordered(anchor, s.cursor).0.col < t[spec_ordered(anchor, s.cursor).0.line as int].len()
            || t[spec_ordered(anchor, s.cursor).0.line as int].len() == 0,
        forall|i: int| 0 <= i < t.len() ==> #[trigger] t[i].len() <= usize::MAX,
    ensures
        ({
            let (start, end) = spec_ordered(anchor, s.cursor);
            &&& forall|l: usize, n: usize| (l < start.line || l > end.line) ==> #[trigger] spec_highlight(s, l, n) is None
            &&& spec_yank_range(t, start, end, false) == join_lines(
                Seq::new(
                    (end.line - start.line + 1) as nat,
                    |k: int| picked(t[start.line + k], spec_highlight(s, (start.line + k) as usize, t[start.line + k].len() as usize)),
                ),
            )
        }),
{
    let (start, end) = spec_ordered(anchor, s.cursor);
    let last = min(end.line as int, t.len() - 1);
    assert(last == end.line);
    let n = last - start.line + 1;
    let f = |k: int|
        {
            let i = start.line + k;
            let len = t[i].len() as int;
            let from = if i == start.line {
                min(start.col as int, len)
            } else {
                0
            };
            let to = if i == last {
                min(end.col + 1, len)
            } else {
                len
            };
            char_slice(t[i], from, to)
        };
    let g = |k: int| picked(t[start.line + k], spec_highlight(s, (start.line + k) as usize, t[start.line + k].len() as usize));
    assert forall|k: int| 0 <= k < n implies #[trigger] f(k) == g(k) by {
        let i = start.line + k;
        assert(t[i].len() <= usize::MAX);
        if t[i].len() == 0 {
            assert(t[i] =~= Seq::<char>::empty());
            assert(f(k) =~= Seq::<char>::empty());
        }
    }
    assert(Seq::new(n as nat, f) =~= Seq::new(n as nat, g));
}

/// In Normal mode the line keys scroll the viewport by the count and never
/// move the cursor or leave the mode.
pub proof fn lemma_normal_keys_scroll(s: VimV, t: Seq<Seq<char>>, key: Key, half: usize)
    requires
        s.mode == ModeV::Normal,
        key == Key::Char('j') || key == Key::Down || key == Key::Char('k') || key == Key::Up || key
            == Key::Ctrl('d') || key == Key::Ctrl('u') || key == Key::PageDown || key == Key::PageUp,
    ensures
        ({
            let (next, out) = step(s, t, key, half);
            let n = repeat_of(s) as isize;
            &&& next.cursor == s.cursor
            &&& next.mode == ModeV::Normal
            &&& next.count is None
            &&& out == if key == Key::Char('j') || key == Key::Down {
                OutcomeV::Scroll(n)
            } else if key == Key::Char('k') || key == Key::Up {
                OutcomeV::Scroll(neg(n))
            } else if key == Key::Ctrl('d') {
                OutcomeV::ScrollHalf(n)
            } else if key == Key::Ctrl('u') {
                OutcomeV::ScrollHalf(neg(n))
            } else if key == Key::PageDown {
                OutcomeV::ScrollPage(n)
            } else {
                OutcomeV::ScrollPage(neg(n))
            }
        }),
{
}

/// Esc steps out of a mode: Visual to Cursor, Cursor to Normal, a search
/// back where it began; in Normal it drops the count, pending keys and
/// message, and is ignored when there was none.
pub proof fn lemma_esc_steps_out(s: VimV, t: Seq<Seq<char>>, half: usize)
    ensures
        ({
            let (next, out) = step(s, t, Key::Esc, half);
            &&& next.message.len() == 0
            &&& next.cursor == s.cursor
            &&& match s.mode {
                ModeV::Visual { .. } => next.mode == ModeV::Cursor && out == OutcomeV::Changed,
                ModeV::Cursor => next.mode == ModeV::Normal && next.count is None && out == OutcomeV::Changed,
                ModeV::Search { from_cursor, .. } => next.mode == (if from_cursor {
                    ModeV::Cursor
                } else {
                    ModeV::Normal
                }) && out == OutcomeV::Changed,
                ModeV::Normal => {
                    &&& next.mode == ModeV::Normal
                    &&& next.count is None
                    &&& !next.pending_y
                    &&& !next.pending_g
                    &&& out == if s.count is Some || s.pending_y || s.pending_g || s.message.len() > 0 {
                        OutcomeV::Changed
                    } else {
                        OutcomeV::Ignored
                    }
                },
            }
        }),
{
}

/// `n` (and `N`) lands on an occurrence of the last search pattern and
/// clears the message; when there is none it only says so.
pub proof fn lemma_search_lands_on_match(s: VimV, t: Seq<Seq<char>>, key: Key, half: usize)
    requires
        s.mode == ModeV::Normal || s.mode == ModeV::Cursor,
        key == Key::Char('n') || key == Key::Char('N'),
        s.last_search.len() > 0,
        bounded(t),
    ensures
        ({
            let (next, out) = step(s, t, key, half);
            &&& out == OutcomeV::Changed
            &&& next.mode == s.mode
            &&& if all_matches(t, s.last_search, t.len() as int).len() > 0 {
                &&& next.cursor.line < t.len()
                &&& occurs_at(t[next.cursor.line as int], s.last_search, next.cursor.col as int)
                &&& next.message.len() == 0
            } else {
                next.cursor == s.cursor && next.message == not_found(s.last_search)
            }
        }),
{
    let base = reset_prefix(s);
    let forward = key == Key::Char('n');
    let m = all_matches(t, s.last_search, t.len() as int);
    lemma_all_matches(t, s.last_search, t.len() as int);
    lemma_first_after(m, s.cursor, 0);
    lemma_last_before(m, s.cursor, m.len() as int);
    if m.len() > 0 {
        let idx = if forward {
            match first_after(m, s.cursor, 0) {
                Some(i) => i,
                None => 0,
            }
        } else {
            match last_before(m, s.cursor, m.len() as int) {
                Some(i) => i,
                None => m.len() - 1,
            }
        };
        assert(sp_jump_search(base, t, forward).0.cursor == m[idx]);
    }
}

} // verus!
