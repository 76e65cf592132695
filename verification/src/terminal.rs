//! A small VT-style screen: a fixed grid of bytes driven by the output of an
//! interactive program (printable bytes, CR/LF/BS/TAB and a subset of CSI
//! escape sequences).

use vstd::prelude::*;

use crate::text::{ascii_chars, chars_of, decode_lossy, lemma_ascii_text, lossy_text, range_eq};

verus! {

pub const GRID_COLS: usize = 80;

pub const GRID_ROWS: usize = 22;

pub const GRID_CELLS: usize = GRID_COLS * GRID_ROWS;

/// The abstract state of a [`Screen`].
pub struct ScreenView {
    /// Row-major grid of `GRID_ROWS` rows of `GRID_COLS` bytes.
    pub cells: Seq<u8>,
    pub row: int,
    pub col: int,
    /// An ESC byte was seen and the next byte decides what follows.
    pub esc: bool,
    /// Inside a CSI sequence: parameter bytes are being collected.
    pub csi: bool,
    pub params: Seq<u8>,
}

impl ScreenView {
    /// The grid has its full size and the cursor lies inside it.
    pub open spec fn wf(self) -> bool {
        &&& self.cells.len() == GRID_CELLS
        &&& 0 <= self.row < GRID_ROWS
        &&& 0 <= self.col < GRID_COLS
    }
}

// ---------------------------------------------------------------------------
// The model
// ---------------------------------------------------------------------------

pub open spec fn blank() -> u8 {
    0x20u8
}

/// `cells` with the positions in `lo..hi` set to blanks.
pub open spec fn blanked(cells: Seq<u8>, lo: int, hi: int) -> Seq<u8> {
    Seq::new(cells.len(), |i: int| if lo <= i < hi { blank() } else { cells[i] })
}

/// `cells` moved up by one row, with a blank bottom row.
pub open spec fn scrolled(cells: Seq<u8>) -> Seq<u8> {
    Seq::new(
        cells.len(),
        |i: int| if i + GRID_COLS < cells.len() { cells[i + GRID_COLS] } else { blank() },
    )
}

pub open spec fn min_int(a: int, b: int) -> int {
    if a <= b { a } else { b }
}

/// `a - b`, or zero where that would be negative.
pub open spec fn sat_sub(a: int, b: int) -> int {
    if a >= b { a - b } else { 0 }
}

pub open spec fn spec_newline(s: ScreenView) -> ScreenView {
    if s.row + 1 >= GRID_ROWS {
        ScreenView { cells: scrolled(s.cells), ..s }
    } else {
        ScreenView { row: s.row + 1, ..s }
    }
}

pub open spec fn spec_put(s: ScreenView, b: u8) -> ScreenView {
    let cells = if s.row < GRID_ROWS {
        s.cells.update(s.row * GRID_COLS + s.col, b)
    } else {
        s.cells
    };
    if s.col + 1 >= GRID_COLS {
        spec_newline(ScreenView { cells, col: 0, ..s })
    } else {
        ScreenView { cells, col: s.col + 1, ..s }
    }
}

/// The cells after erasing in the cursor's line: mode 0 from the cursor to
/// the end of the line, mode 1 from its start through the cursor, otherwise
/// the whole line.
pub open spec fn spec_erase_line(s: ScreenView, mode: int) -> Seq<u8> {
    let start = s.row * GRID_COLS;
    if mode == 0 {
        blanked(s.cells, start + s.col, start + GRID_COLS)
    } else if mode == 1 {
        blanked(s.cells, start, min_int(start + s.col, start + GRID_COLS - 1) + 1)
    } else {
        blanked(s.cells, start, start + GRID_COLS)
    }
}

/// The cells after erasing in the screen: mode 0 from the cursor to the end,
/// mode 1 from the start through the cursor, otherwise everything.
pub open spec fn spec_erase_screen(s: ScreenView, mode: int) -> Seq<u8> {
    if mode == 0 {
        blanked(spec_erase_line(s, 0), (s.row + 1) * GRID_COLS, GRID_CELLS as int)
    } else if mode == 1 {
        blanked(spec_erase_line(s, 1), 0, s.row * GRID_COLS)
    } else {
        blanked(s.cells, 0, s.cells.len() as int)
    }
}

pub open spec fn is_digit(b: u8) -> bool {
    0x30 <= b <= 0x39
}

/// Scanning CSI parameter bytes: the parameters completed so far, the one
/// being read, and whether it has any digit yet.
pub open spec fn params_scan(data: Seq<u8>) -> (Seq<int>, int, bool)
    decreases data.len(),
{
    if data.len() == 0 {
        (Seq::empty(), 0, false)
    } else {
        let (out, cur, has) = params_scan(data.drop_last());
        let b = data.last();
        if is_digit(b) {
            (out, cur * 10 + (b - 0x30), true)
        } else if b == 0x3b {
            (out.push(if has { cur } else { 1 }), 0, false)
        } else {
            (out, cur, has)
        }
    }
}

/// The numeric parameters of a CSI sequence: `;`-separated decimal numbers,
/// an empty one counting as 1; other bytes are ignored.
pub open spec fn parsed_params(data: Seq<u8>) -> Seq<int> {
    let (out, cur, has) = params_scan(data);
    if has {
        out.push(cur)
    } else if out.len() == 0 {
        seq![1int]
    } else {
        out
    }
}

/// Every number read while scanning `data` fits in an `i32`.
pub open spec fn params_fit(data: Seq<u8>) -> bool {
    forall|k: int| 0 <= k <= data.len() ==> #[trigger] params_scan(data.take(k)).1 <= i32::MAX
}

/// Parameter `i`, at least 1, or 1 where it is missing.
pub open spec fn param_or_one(p: Seq<int>, i: int) -> int {
    if 0 <= i < p.len() {
        if p[i] >= 1 { p[i] } else { 1 }
    } else {
        1
    }
}

pub open spec fn first_param(p: Seq<int>) -> int {
    if p.len() > 0 { p[0] } else { 0 }
}

/// Final bytes of CSI sequences that are accepted and ignored.
pub open spec fn ignored_final(f: u8) -> bool {
    f == 0x6d || f == 0x68 || f == 0x6c || f == 0x72 || f == 0x73 || f == 0x75 || f == 0x74
        || f == 0x5a
}

pub open spec fn spec_csi_exec(s: ScreenView, params: Seq<u8>, f: u8) -> ScreenView {
    if ignored_final(f) {
        s
    } else {
        let p = parsed_params(params);
        let n0 = param_or_one(p, 0);
        if f == 0x48 || f == 0x66 {
            // H, f: cursor position
            ScreenView {
                row: min_int(sat_sub(n0, 1), GRID_ROWS - 1),
                col: min_int(sat_sub(param_or_one(p, 1), 1), GRID_COLS - 1),
                ..s
            }
        } else if f == 0x41 {
            // A: up
            ScreenView { row: sat_sub(s.row, n0), ..s }
        } else if f == 0x42 {
            // B: down
            ScreenView { row: min_int(s.row + n0, GRID_ROWS - 1), ..s }
        } else if f == 0x43 {
            // C: forward
            ScreenView { col: min_int(s.col + n0, GRID_COLS - 1), ..s }
        } else if f == 0x44 {
            // D: back
            ScreenView { col: sat_sub(s.col, n0), ..s }
        } else if f == 0x47 {
            // G: column
            ScreenView { col: min_int(sat_sub(n0, 1), GRID_COLS - 1), ..s }
        } else if f == 0x64 {
            // d: row
            ScreenView { row: min_int(sat_sub(n0, 1), GRID_ROWS - 1), ..s }
        } else if f == 0x4a {
            // J: erase in screen
            ScreenView { cells: spec_erase_screen(s, first_param(p)), ..s }
        } else if f == 0x4b {
            // K: erase in line
            ScreenView { cells: spec_erase_line(s, first_param(p)), ..s }
        } else {
            s
        }
    }
}

pub open spec fn is_csi_final(b: u8) -> bool {
    0x40 <= b <= 0x7e
}

/// The state after one byte of program output.
pub open spec fn spec_step(s: ScreenView, b: u8) -> ScreenView {
    if s.csi {
        if is_csi_final(b) {
            spec_csi_exec(ScreenView { csi: false, params: Seq::empty(), ..s }, s.params, b)
        } else {
            ScreenView { params: s.params.push(b), ..s }
        }
    } else if s.esc {
        if b == 0x5b {
            ScreenView { esc: false, csi: true, params: Seq::empty(), ..s }
        } else {
            ScreenView { esc: false, ..s }
        }
    } else if b == 0x1b {
        ScreenView { esc: true, ..s }
    } else if b == 0x0d {
        ScreenView { col: 0, ..s }
    } else if b == 0x0a {
        spec_newline(s)
    } else if b == 0x08 {
        if s.col > 0 {
            ScreenView { col: s.col - 1, ..s }
        } else {
            s
        }
    } else if b == 0x09 {
        ScreenView { col: min_int((s.col / 8 + 1) * 8, GRID_COLS - 1), ..s }
    } else if b >= 0x20 {
        spec_put(s, b)
    } else {
        s
    }
}

/// A byte can be taken in state `s` without a CSI parameter overflowing.
pub open spec fn step_ok(s: ScreenView, b: u8) -> bool {
    (s.csi && is_csi_final(b) && !ignored_final(b)) ==> params_fit(s.params)
}

/// The state after a sequence of program output.
pub open spec fn spec_feed(s: ScreenView, data: Seq<u8>) -> ScreenView
    decreases data.len(),
{
    if data.len() == 0 {
        s
    } else {
        spec_step(spec_feed(s, data.drop_last()), data.last())
    }
}

/// Every byte of `data` can be taken without a CSI parameter overflowing.
pub open spec fn feed_ok(s: ScreenView, data: Seq<u8>) -> bool
    decreases data.len(),
{
    if data.len() == 0 {
        true
    } else {
        feed_ok(s, data.drop_last()) && step_ok(spec_feed(s, data.drop_last()), data.last())
    }
}

/// Row `r` of the grid as text.
pub open spec fn row_text(cells: Seq<u8>, r: int) -> Seq<char> {
    lossy_text(cells.subrange(r * GRID_COLS, (r + 1) * GRID_COLS))
}

/// The first `k` rows as text, separated by newlines.
pub open spec fn rows_text(cells: Seq<u8>, k: int) -> Seq<char>
    decreases k,
{
    if k <= 0 {
        Seq::empty()
    } else if k == 1 {
        row_text(cells, 0)
    } else {
        rows_text(cells, k - 1) + seq!['\n'] + row_text(cells, k - 1)
    }
}

/// The whole grid as text.
pub open spec fn screen_text(cells: Seq<u8>) -> Seq<char> {
    rows_text(cells, GRID_ROWS as int)
}

pub open spec fn blank_screen() -> ScreenView {
    ScreenView {
        cells: Seq::new(GRID_CELLS as nat, |i: int| blank()),
        row: 0,
        col: 0,
        esc: false,
        csi: false,
        params: Seq::empty(),
    }
}

// ---------------------------------------------------------------------------
// Lemmas
// ---------------------------------------------------------------------------

pub proof fn lemma_step_wf(s: ScreenView, b: u8)
    requires
        s.wf(),
    ensures
        spec_step(s, b).wf(),
{
}

pub proof fn lemma_feed_wf(s: ScreenView, data: Seq<u8>)
    requires
        s.wf(),
    ensures
        spec_feed(s, data).wf(),
    decreases data.len(),
{
    if data.len() > 0 {
        lemma_feed_wf(s, data.drop_last());
        lemma_step_wf(spec_feed(s, data.drop_last()), data.last());
    }
}

proof fn lemma_take_last<T>(data: Seq<T>, i: int)
    requires
        0 <= i < data.len(),
    ensures
        data.take(i + 1).drop_last() == data.take(i),
        data.take(i + 1).last() == data[i],
{
    assert(data.take(i + 1).drop_last() =~= data.take(i));
}

proof fn lemma_feed_ok_prefix(s: ScreenView, data: Seq<u8>, k: int)
    requires
        feed_ok(s, data),
        0 <= k <= data.len(),
    ensures
        feed_ok(s, data.take(k)),
    decreases data.len(),
{
    if k == data.len() {
        assert(data.take(k) =~= data);
    } else {
        assert(data.drop_last().take(k) =~= data.take(k));
        lemma_feed_ok_prefix(s, data.drop_last(), k);
    }
}

/// Feeding output in two pieces gives the same screen as feeding it at once:
/// how the program's output is split into reads does not matter.
pub proof fn lemma_feed_concat(s: ScreenView, a: Seq<u8>, b: Seq<u8>)
    ensures
        spec_feed(s, a + b) == spec_feed(spec_feed(s, a), b),
        feed_ok(s, a + b) == (feed_ok(s, a) && feed_ok(spec_feed(s, a), b)),
    decreases b.len(),
{
    if b.len() == 0 {
        assert(a + b =~= a);
    } else {
        assert((a + b).drop_last() =~= a + b.drop_last());
        assert((a + b).last() == b.last());
        lemma_feed_concat(s, a, b.drop_last());
    }
}

/// Every cell holds a printable byte (a blank or a byte of at least 0x20).
pub open spec fn cells_printable(cells: Seq<u8>) -> bool {
    forall|i: int| 0 <= i < cells.len() ==> cells[i] >= 0x20
}

/// Program output never puts a control byte on the grid: control bytes only
/// move the cursor or start escape sequences.
pub proof fn lemma_feed_printable(s: ScreenView, data: Seq<u8>)
    requires
        s.wf(),
        cells_printable(s.cells),
    ensures
        cells_printable(spec_feed(s, data).cells),
    decreases data.len(),
{
    if data.len() > 0 {
        lemma_feed_printable(s, data.drop_last());
        lemma_feed_wf(s, data.drop_last());
        let t = spec_feed(s, data.drop_last());
        let b = data.last();
        let p = parsed_params(t.params);
        assert(cells_printable(spec_erase_line(t, first_param(p))));
        assert(cells_printable(spec_erase_screen(t, first_param(p))));
        assert(cells_printable(scrolled(t.cells)));
    }
}

/// A fresh screen shows blank rows of `GRID_COLS` spaces.
pub proof fn lemma_blank_screen_text(r: int)
    requires
        0 <= r < GRID_ROWS,
    ensures
        row_text(blank_screen().cells, r) == Seq::new(GRID_COLS as nat, |i: int| ' '),
{
    let row = blank_screen().cells.subrange(r * GRID_COLS, (r + 1) * GRID_COLS);
    lemma_ascii_text(row);
    assert(ascii_chars(row) =~= Seq::new(GRID_COLS as nat, |i: int| ' '));
}

/// ASCII text without control bytes.
pub open spec fn printable_ascii(data: Seq<u8>) -> bool {
    forall|i: int| 0 <= i < data.len() ==> 0x20 <= #[trigger] data[i] < 0x7f
}

/// A fresh screen after `data`, printable ASCII of at most one row.
pub open spec fn printed_screen(data: Seq<u8>) -> ScreenView {
    ScreenView {
        cells: Seq::new(
            GRID_CELLS as nat,
            |i: int| if i < data.len() { data[i] } else { blank() },
        ),
        row: if data.len() == GRID_COLS { 1 } else { 0 },
        col: (data.len() as int) % (GRID_COLS as int),
        esc: false,
        csi: false,
        params: Seq::empty(),
    }
}

proof fn lemma_printed_screen(data: Seq<u8>)
    requires
        printable_ascii(data),
        data.len() <= GRID_COLS,
    ensures
        spec_feed(blank_screen(), data) == printed_screen(data),
        feed_ok(blank_screen(), data),
    decreases data.len(),
{
    if data.len() == 0 {
        assert(blank_screen().cells =~= printed_screen(data).cells);
    } else {
        let prev = data.drop_last();
        lemma_printed_screen(prev);
        let t = printed_screen(prev);
        let b = data.last();
        assert(t.cells.update(prev.len() as int, b) =~= printed_screen(data).cells);
    }
}

/// Printable ASCII text of at most one row, written to a fresh screen, is
/// what its first line shows, followed by blanks.
pub proof fn lemma_print_first_row(data: Seq<u8>)
    requires
        printable_ascii(data),
        data.len() <= GRID_COLS,
    ensures
        feed_ok(blank_screen(), data),
        row_text(spec_feed(blank_screen(), data).cells, 0) == ascii_chars(data) + Seq::new(
            (GRID_COLS - data.len()) as nat,
            |i: int| ' ',
        ),
{
    lemma_printed_screen(data);
    let row = printed_screen(data).cells.subrange(0, GRID_COLS as int);
    assert forall|i: int| 0 <= i < row.len() implies row[i] < 0x80 by {
        if i < data.len() {
            assert(0x20 <= data[i] < 0x7f);
        }
    }
    lemma_ascii_text(row);
    assert(ascii_chars(row) =~= ascii_chars(data) + Seq::new(
        (GRID_COLS - data.len()) as nat,
        |i: int| ' ',
    ));
}

/// `ESC [ 2 J` blanks the whole grid and leaves the cursor where it is.
pub proof fn lemma_erase_all(s: ScreenView)
    requires
        s.wf(),
        !s.esc,
        !s.csi,
    ensures
        ({
            let t = spec_feed(s, seq![0x1bu8, 0x5bu8, 0x32u8, 0x4au8]);
            &&& t.cells == Seq::new(GRID_CELLS as nat, |i: int| blank())
            &&& t.row == s.row && t.col == s.col
            &&& !t.esc && !t.csi
        }),
        feed_ok(s, seq![0x1bu8, 0x5bu8, 0x32u8, 0x4au8]),
{
    let d = seq![0x1bu8, 0x5bu8, 0x32u8, 0x4au8];
    assert(d.drop_last() =~= seq![0x1bu8, 0x5bu8, 0x32u8]);
    assert(d.drop_last().drop_last() =~= seq![0x1bu8, 0x5bu8]);
    assert(d.drop_last().drop_last().drop_last() =~= seq![0x1bu8]);
    assert(d.drop_last().drop_last().drop_last().drop_last() =~= Seq::<u8>::empty());
    reveal_with_fuel(spec_feed, 5);
    reveal_with_fuel(feed_ok, 5);
    let params = seq![0x32u8];
    assert(params.drop_last() =~= Seq::<u8>::empty());
    assert(params.take(0) =~= Seq::<u8>::empty());
    assert(params.take(1) =~= params);
    assert(params_scan(params.drop_last()) == (Seq::<int>::empty(), 0int, false));
    assert(params_scan(params) == (Seq::<int>::empty(), 2int, true));
    assert(parsed_params(params) =~= seq![2int]);
    let t = spec_feed(s, d);
    assert(t.cells =~= Seq::new(GRID_CELLS as nat, |i: int| blank()));
}

/// The decimal digits of `n` as ASCII bytes.
pub open spec fn decimal_bytes(n: nat) -> Seq<u8>
    decreases n,
{
    if n < 10 {
        seq![(0x30 + n) as u8]
    } else {
        decimal_bytes(n / 10).push((0x30 + n % 10) as u8)
    }
}

/// `ESC [ row ; col H`: move the cursor to 1-based `row` and `col`.
pub open spec fn cursor_position_sequence(row: nat, col: nat) -> Seq<u8> {
    seq![0x1bu8, 0x5bu8] + decimal_bytes(row) + seq![0x3bu8] + decimal_bytes(col) + seq![0x48u8]
}

proof fn lemma_decimal_bytes_digits(n: nat)
    ensures
        decimal_bytes(n).len() > 0,
        forall|i: int| 0 <= i < decimal_bytes(n).len() ==> is_digit(#[trigger] decimal_bytes(n)[i]),
    decreases n,
{
    if n >= 10 {
        lemma_decimal_bytes_digits(n / 10);
    }
}

/// Scanning the digits of `n` after a completed parameter reads `n`, and
/// never holds more than `n` on the way.
proof fn lemma_scan_decimal(p: Seq<u8>, n: nat)
    requires
        params_scan(p).1 == 0,
        !params_scan(p).2,
    ensures
        params_scan(p + decimal_bytes(n)) == (params_scan(p).0, n as int, true),
        forall|j: int|
            0 <= j <= decimal_bytes(n).len() ==> #[trigger] params_scan(
                p + decimal_bytes(n).take(j),
            ).1 <= n,
    decreases n,
{
    let d = decimal_bytes(n);
    if n < 10 {
        assert((p + d).drop_last() =~= p);
        assert(p + d.take(0) =~= p);
        assert(d.take(1) =~= d);
    } else {
        let e = decimal_bytes(n / 10);
        lemma_scan_decimal(p, n / 10);
        assert((p + d).drop_last() =~= p + e);
        assert forall|j: int| 0 <= j <= d.len() implies #[trigger] params_scan(p + d.take(j)).1
            <= n by {
            if j < d.len() {
                assert(d.take(j) =~= e.take(j));
                assert(params_scan(p + e.take(j)).1 <= n / 10);
            } else {
                assert(d.take(j) =~= d);
            }
        }
    }
}

/// Bytes that cannot end a CSI sequence are collected as its parameters.
proof fn lemma_feed_params(s: ScreenView, p: Seq<u8>)
    requires
        s.csi,
        forall|i: int| 0 <= i < p.len() ==> !is_csi_final(#[trigger] p[i]),
    ensures
        spec_feed(s, p) == (ScreenView { params: s.params + p, ..s }),
        feed_ok(s, p),
    decreases p.len(),
{
    if p.len() == 0 {
        assert(s.params + p =~= s.params);
    } else {
        lemma_feed_params(s, p.drop_last());
        assert((s.params + p.drop_last()).push(p.last()) =~= s.params + p);
        assert(!is_csi_final(p.last()));
    }
}

/// `ESC [` starts a CSI sequence with no parameters yet.
proof fn lemma_csi_intro(s: ScreenView)
    requires
        !s.esc,
        !s.csi,
    ensures
        spec_feed(s, seq![0x1bu8, 0x5bu8]) == (ScreenView {
            esc: false,
            csi: true,
            params: Seq::<u8>::empty(),
            ..s
        }),
        feed_ok(s, seq![0x1bu8, 0x5bu8]),
{
    let intro = seq![0x1bu8, 0x5bu8];
    assert(intro.drop_last() =~= seq![0x1bu8]);
    assert(intro.drop_last().drop_last() =~= Seq::<u8>::empty());
    reveal_with_fuel(spec_feed, 3);
    reveal_with_fuel(feed_ok, 3);
}

/// The parameter bytes `row ; col` read as `[row, col]` and fit.
proof fn lemma_position_params(row: nat, col: nat)
    requires
        row <= i32::MAX,
        col <= i32::MAX,
    ensures
        parsed_params(decimal_bytes(row) + seq![0x3bu8] + decimal_bytes(col)) == seq![
            row as int,
            col as int,
        ],
        params_fit(decimal_bytes(row) + seq![0x3bu8] + decimal_bytes(col)),
{
    let dr = decimal_bytes(row);
    let dc = decimal_bytes(col);
    let q = dr + seq![0x3bu8] + dc;
    let e = Seq::<u8>::empty();
    lemma_decimal_bytes_digits(row);
    lemma_scan_decimal(e, row);
    assert(e + dr =~= dr);
    let drs = dr + seq![0x3bu8];
    assert(drs.drop_last() =~= dr);
    assert(params_scan(drs) == (seq![row as int], 0int, false));
    lemma_scan_decimal(drs, col);
    assert(q =~= drs + dc);
    assert(parsed_params(q) =~= seq![row as int, col as int]);
    assert forall|k: int| 0 <= k <= q.len() implies #[trigger] params_scan(q.take(k)).1
        <= i32::MAX by {
        if k <= dr.len() {
            assert(q.take(k) =~= e + dr.take(k));
        } else if k == dr.len() + 1 {
            assert(q.take(k) =~= drs);
        } else {
            assert(q.take(k) =~= drs + dc.take(k - dr.len() - 1));
        }
    }
}

/// `ESC [ row ; col H` moves the cursor to the 1-based `row` and `col`
/// (a 0 counting as 1, and clamped to the grid) and changes nothing else.
pub proof fn lemma_cursor_position(s: ScreenView, row: nat, col: nat)
    requires
        s.wf(),
        !s.esc,
        !s.csi,
        row <= i32::MAX,
        col <= i32::MAX,
    ensures
        feed_ok(s, cursor_position_sequence(row, col)),
        spec_feed(s, cursor_position_sequence(row, col)) == (ScreenView {
            row: min_int(sat_sub(if row >= 1 { row as int } else { 1 }, 1), GRID_ROWS - 1),
            col: min_int(sat_sub(if col >= 1 { col as int } else { 1 }, 1), GRID_COLS - 1),
            params: Seq::empty(),
            ..s
        }),
{
    let dr = decimal_bytes(row);
    let dc = decimal_bytes(col);
    let q = dr + seq![0x3bu8] + dc;
    let intro = seq![0x1bu8, 0x5bu8];
    lemma_csi_intro(s);
    let s1 = spec_feed(s, intro);
    lemma_decimal_bytes_digits(row);
    lemma_decimal_bytes_digits(col);
    assert forall|i: int| 0 <= i < q.len() implies !is_csi_final(#[trigger] q[i]) by {
        if i < dr.len() {
            assert(q[i] == dr[i]);
        } else if i > dr.len() {
            assert(q[i] == dc[i - dr.len() - 1]);
        }
    }
    lemma_feed_params(s1, q);
    assert(Seq::<u8>::empty() + q =~= q);
    lemma_feed_concat(s, intro, q);
    let pre = intro + q;
    let s2 = spec_feed(s, pre);
    assert(s2 == ScreenView { esc: false, csi: true, params: q, ..s });
    lemma_position_params(row, col);
    let all = cursor_position_sequence(row, col);
    assert(all =~= pre.push(0x48u8));
    assert(all.drop_last() =~= pre);
    assert(all.last() == 0x48u8);
    assert(step_ok(s2, 0x48u8));
}

/// Output may reach the screen in any pieces: where one call of `feed` may
/// take `x ++ y`, two calls may take `x` and then `y` (their preconditions
/// hold), and both leave the same screen, also when an escape sequence is
/// split between `x` and `y`; feeding nothing changes nothing.
pub proof fn lemma_feed_split(s: ScreenView, x: Seq<u8>, y: Seq<u8>)
    requires
        s.wf(),
        feed_ok(s, x + y),
    ensures
        feed_ok(s, x),
        spec_feed(s, x).wf(),
        feed_ok(spec_feed(s, x), y),
        spec_feed(spec_feed(s, x), y) == spec_feed(s, x + y),
        spec_feed(s, Seq::<u8>::empty()) == s,
        feed_ok(s, Seq::<u8>::empty()),
{
    lemma_feed_concat(s, x, y);
    lemma_feed_wf(s, x);
}

/// `ESC [`, the parameter bytes `q` and the final byte `f`.
pub open spec fn csi_sequence(q: Seq<u8>, f: u8) -> Seq<u8> {
    seq![0x1bu8, 0x5bu8] + q + seq![f]
}

/// A complete CSI sequence, fed outside any escape, acts on the screen with
/// its parameters and leaves no escape pending.
proof fn lemma_csi_sequence(s: ScreenView, q: Seq<u8>, f: u8)
    requires
        s.wf(),
        !s.esc,
        !s.csi,
        forall|i: int| 0 <= i < q.len() ==> !is_csi_final(#[trigger] q[i]),
        is_csi_final(f),
        ignored_final(f) || params_fit(q),
    ensures
        feed_ok(s, csi_sequence(q, f)),
        spec_feed(s, csi_sequence(q, f)) == spec_csi_exec(
            ScreenView { esc: false, csi: false, params: Seq::empty(), ..s },
            q,
            f,
        ),
{
    let intro = seq![0x1bu8, 0x5bu8];
    lemma_csi_intro(s);
    let s1 = spec_feed(s, intro);
    lemma_feed_params(s1, q);
    assert(Seq::<u8>::empty() + q =~= q);
    lemma_feed_concat(s, intro, q);
    let pre = intro + q;
    let s2 = spec_feed(s, pre);
    assert(s2 == ScreenView { esc: false, csi: true, params: q, ..s });
    let all = csi_sequence(q, f);
    assert(all =~= pre.push(f));
    assert(all.drop_last() =~= pre);
    assert(all.last() == f);
    assert(step_ok(s2, f));
}

/// No parameter bytes read as the single parameter 1, and fit.
proof fn lemma_no_params()
    ensures
        parsed_params(Seq::<u8>::empty()) == seq![1int],
        params_fit(Seq::<u8>::empty()),
{
    let e = Seq::<u8>::empty();
    assert(parsed_params(e) =~= seq![1int]);
    assert forall|k: int| 0 <= k <= e.len() implies #[trigger] params_scan(e.take(k)).1
        <= i32::MAX by {
        assert(e.take(k) =~= e);
    }
}

/// The digits of `n` read as the single parameter `n`, and fit.
proof fn lemma_one_param(n: nat)
    requires
        n <= i32::MAX,
    ensures
        parsed_params(decimal_bytes(n)) == seq![n as int],
        params_fit(decimal_bytes(n)),
        forall|i: int| 0 <= i < decimal_bytes(n).len() ==> !is_csi_final(#[trigger] decimal_bytes(n)[i]),
{
    let e = Seq::<u8>::empty();
    let d = decimal_bytes(n);
    lemma_decimal_bytes_digits(n);
    lemma_scan_decimal(e, n);
    assert(e + d =~= d);
    assert(parsed_params(d) =~= seq![n as int]);
    assert forall|k: int| 0 <= k <= d.len() implies #[trigger] params_scan(d.take(k)).1
        <= i32::MAX by {
        assert(e + d.take(k) =~= d.take(k));
    }
}

/// The parameter bytes of a one-parameter sequence: none, or the digits of
/// `n`.
pub open spec fn one_param_bytes(n: Option<nat>) -> Seq<u8> {
    match n {
        None => Seq::empty(),
        Some(n) => decimal_bytes(n),
    }
}

/// The count that a one-parameter cursor sequence moves by: the parameter,
/// or 1 where it is missing or 0.
pub open spec fn move_count(n: Option<nat>) -> int {
    match n {
        Some(n) if n >= 1 => n as int,
        _ => 1,
    }
}

/// The mode that an erase sequence is given: the parameter, or 1 where it
/// is missing.
pub open spec fn erase_mode(n: Option<nat>) -> int {
    match n {
        Some(n) => n as int,
        None => 1,
    }
}

pub open spec fn param_ok(n: Option<nat>) -> bool {
    match n {
        Some(n) => n <= i32::MAX,
        None => true,
    }
}

proof fn lemma_one_param_sequence(s: ScreenView, n: Option<nat>, f: u8)
    requires
        s.wf(),
        !s.esc,
        !s.csi,
        param_ok(n),
        is_csi_final(f),
    ensures
        feed_ok(s, csi_sequence(one_param_bytes(n), f)),
        spec_feed(s, csi_sequence(one_param_bytes(n), f)) == spec_csi_exec(
            ScreenView { esc: false, csi: false, params: Seq::empty(), ..s },
            one_param_bytes(n),
            f,
        ),
        parsed_params(one_param_bytes(n)) == seq![
            match n {
                Some(n) => n as int,
                None => 1int,
            },
        ],
{
    match n {
        None => lemma_no_params(),
        Some(k) => lemma_one_param(k),
    }
    lemma_csi_sequence(s, one_param_bytes(n), f);
}

/// `ESC [ H` and `ESC [ n H` (or `f`): the cursor goes to the first column of
/// row `n` (the top row where `n` is missing or 0, the last row beyond it);
/// no cell changes.
pub proof fn lemma_cursor_home(s: ScreenView, n: Option<nat>, f: u8)
    requires
        s.wf(),
        !s.esc,
        !s.csi,
        param_ok(n),
        f == 0x48 || f == 0x66,
    ensures
        feed_ok(s, csi_sequence(one_param_bytes(n), f)),
        spec_feed(s, csi_sequence(one_param_bytes(n), f)) == (ScreenView {
            row: if move_count(n) - 1 <= GRID_ROWS - 1 { move_count(n) - 1 } else { GRID_ROWS - 1 },
            col: 0,
            esc: false,
            csi: false,
            params: Seq::empty(),
            ..s
        }),
{
    lemma_one_param_sequence(s, n, f);
}

/// The bare `ESC [ H` that `clear` and full-screen programs send puts the
/// cursor in the top-left corner, whatever column it was in, and changes no
/// cell.
pub proof fn lemma_bare_cursor_home(s: ScreenView)
    requires
        s.wf(),
        !s.esc,
        !s.csi,
    ensures
        feed_ok(s, seq![0x1bu8, 0x5bu8, 0x48u8]),
        spec_feed(s, seq![0x1bu8, 0x5bu8, 0x48u8]) == (ScreenView {
            row: 0,
            col: 0,
            esc: false,
            csi: false,
            params: Seq::empty(),
            ..s
        }),
{
    assert(csi_sequence(one_param_bytes(None), 0x48u8) =~= seq![0x1bu8, 0x5bu8, 0x48u8]);
    lemma_cursor_home(s, None, 0x48u8);
}

/// `ESC [ n A`, `B`, `C`, `D`: the cursor moves up, down, right or left by
/// `n` (1 where it is missing or 0), stopping at the edge of the grid; no
/// cell changes.
pub proof fn lemma_cursor_moves(s: ScreenView, n: Option<nat>)
    requires
        s.wf(),
        !s.esc,
        !s.csi,
        param_ok(n),
    ensures
        ({
            let m = move_count(n);
            let base = ScreenView { esc: false, csi: false, params: Seq::<u8>::empty(), ..s };
            &&& spec_feed(s, csi_sequence(one_param_bytes(n), 0x41u8)) == (ScreenView {
                row: if s.row >= m { s.row - m } else { 0 },
                ..base
            })
            &&& spec_feed(s, csi_sequence(one_param_bytes(n), 0x42u8)) == (ScreenView {
                row: if s.row + m <= GRID_ROWS - 1 { s.row + m } else { GRID_ROWS - 1 },
                ..base
            })
            &&& spec_feed(s, csi_sequence(one_param_bytes(n), 0x43u8)) == (ScreenView {
                col: if s.col + m <= GRID_COLS - 1 { s.col + m } else { GRID_COLS - 1 },
                ..base
            })
            &&& spec_feed(s, csi_sequence(one_param_bytes(n), 0x44u8)) == (ScreenView {
                col: if s.col >= m { s.col - m } else { 0 },
                ..base
            })
        }),
        feed_ok(s, csi_sequence(one_param_bytes(n), 0x41u8)),
        feed_ok(s, csi_sequence(one_param_bytes(n), 0x42u8)),
        feed_ok(s, csi_sequence(one_param_bytes(n), 0x43u8)),
        feed_ok(s, csi_sequence(one_param_bytes(n), 0x44u8)),
{
    lemma_one_param_sequence(s, n, 0x41u8);
    lemma_one_param_sequence(s, n, 0x42u8);
    lemma_one_param_sequence(s, n, 0x43u8);
    lemma_one_param_sequence(s, n, 0x44u8);
}

/// `ESC [ n G` puts the cursor in column `n`, `ESC [ n d` in row `n` (1 where
/// `n` is missing or 0, the last one beyond the grid); the other coordinate
/// and the cells stay.
pub proof fn lemma_cursor_absolute(s: ScreenView, n: Option<nat>)
    requires
        s.wf(),
        !s.esc,
        !s.csi,
        param_ok(n),
    ensures
        ({
            let m = move_count(n);
            let base = ScreenView { esc: false, csi: false, params: Seq::<u8>::empty(), ..s };
            &&& spec_feed(s, csi_sequence(one_param_bytes(n), 0x47u8)) == (ScreenView {
                col: if m - 1 <= GRID_COLS - 1 { m - 1 } else { GRID_COLS - 1 },
                ..base
            })
            &&& spec_feed(s, csi_sequence(one_param_bytes(n), 0x64u8)) == (ScreenView {
                row: if m - 1 <= GRID_ROWS - 1 { m - 1 } else { GRID_ROWS - 1 },
                ..base
            })
        }),
        feed_ok(s, csi_sequence(one_param_bytes(n), 0x47u8)),
        feed_ok(s, csi_sequence(one_param_bytes(n), 0x64u8)),
{
    lemma_one_param_sequence(s, n, 0x47u8);
    lemma_one_param_sequence(s, n, 0x64u8);
}

/// `ESC [ n K` erases in the cursor's line and `ESC [ n J` in the screen,
/// cell by cell: mode 0 from the cursor on, mode 1 up to and including the
/// cursor, any other mode everything (the line, or the whole grid); a missing
/// parameter is mode 1. The cursor stays.
pub proof fn lemma_erase(s: ScreenView, n: Option<nat>)
    requires
        s.wf(),
        !s.esc,
        !s.csi,
        param_ok(n),
    ensures
        ({
            let mode = erase_mode(n);
            let cur = s.row * GRID_COLS + s.col;
            let line_start = s.row * GRID_COLS;
            let line_end = line_start + GRID_COLS;
            let k = spec_feed(s, csi_sequence(one_param_bytes(n), 0x4bu8));
            let j = spec_feed(s, csi_sequence(one_param_bytes(n), 0x4au8));
            &&& k.row == s.row && k.col == s.col && !k.esc && !k.csi && k.params.len() == 0
            &&& j.row == s.row && j.col == s.col && !j.esc && !j.csi && j.params.len() == 0
            &&& k.cells.len() == GRID_CELLS && j.cells.len() == GRID_CELLS
            &&& forall|i: int|
                0 <= i < GRID_CELLS ==> #[trigger] k.cells[i] == if line_start <= i < line_end && (
                (mode == 0 && i >= cur) || (mode == 1 && i <= cur) || (mode != 0 && mode != 1)) {
                    0x20u8
                } else {
                    s.cells[i]
                }
            &&& forall|i: int|
                0 <= i < GRID_CELLS ==> #[trigger] j.cells[i] == if (mode == 0 && i >= cur) || (mode
                == 1 && i <= cur) || (mode != 0 && mode != 1) {
                    0x20u8
                } else {
                    s.cells[i]
                }
        }),
        feed_ok(s, csi_sequence(one_param_bytes(n), 0x4bu8)),
        feed_ok(s, csi_sequence(one_param_bytes(n), 0x4au8)),
{
    lemma_one_param_sequence(s, n, 0x4bu8);
    lemma_one_param_sequence(s, n, 0x4au8);
}

// ---------------------------------------------------------------------------
// The screen
// ---------------------------------------------------------------------------

/// A fixed grid of bytes with a cursor, fed with a program's output.
pub struct Screen {
    cells: Vec<u8>,
    row: usize,
    col: usize,
    esc: bool,
    csi: bool,
    csi_params: Vec<u8>,
}

impl View for Screen {
    type V = ScreenView;

    closed spec fn view(&self) -> ScreenView {
        ScreenView {
            cells: self.cells@,
            row: self.row as int,
            col: self.col as int,
            esc: self.esc,
            csi: self.csi,
            params: self.csi_params@,
        }
    }
}

fn is_ignored_final(f: u8) -> (r: bool)
    ensures
        r == ignored_final(f),
{
    f == 0x6du8 || f == 0x68u8 || f == 0x6cu8 || f == 0x72u8 || f == 0x73u8 || f == 0x75u8 || f == 0x74u8
        || f == 0x5au8
}

/// Parses CSI parameter bytes, or gives `None` where a number does not fit
/// in an `i32`.
fn parse_params_checked(data: &[u8]) -> (r: Option<Vec<i32>>)
    ensures
        r is Some <==> params_fit(data@),
        r matches Some(v) ==> v@.map_values(|x: i32| x as int) == parsed_params(data@),
{
    let mut out: Vec<i32> = Vec::new();
    let mut cur: i32 = 0;
    let mut has_cur = false;
    let mut i: usize = 0;
    proof {
        assert(data@.take(0) =~= Seq::<u8>::empty());
    }
    while i < data.len()
        invariant
            0 <= i <= data.len(),
            params_scan(data@.take(i as int)) == (
                out@.map_values(|x: i32| x as int),
                cur as int,
                has_cur,
            ),
            forall|k: int| 0 <= k <= i ==> #[trigger] params_scan(data@.take(k)).1 <= i32::MAX,
            cur >= 0,
        decreases data.len() - i,
    {
        let b = data[i];
        proof {
            lemma_take_last(data@, i as int);
        }
        if 0x30u8 <= b && b <= 0x39u8 {
            let next: i64 = cur as i64 * 10 + (b - 0x30u8) as i64;
            if next > i32::MAX as i64 {
                assert(params_scan(data@.take(i + 1)).1 > i32::MAX);
                return None;
            }
            cur = next as i32;
            has_cur = true;
        } else if b == 0x3bu8 {
            let v = if has_cur { cur } else { 1 };
            out.push(v);
            cur = 0;
            has_cur = false;
        }
        proof {
            assert(out@.map_values(|x: i32| x as int) =~= params_scan(data@.take(i + 1)).0);
        }
        i = i + 1;
    }
    proof {
        assert(data@.take(data.len() as int) =~= data@);
    }
    if has_cur {
        out.push(cur);
    } else if out.len() == 0 {
        out.push(1);
    }
    proof {
        assert(out@.map_values(|x: i32| x as int) =~= parsed_params(data@));
    }
    Some(out)
}

/// The numeric parameters of a CSI sequence.
fn parse_params(data: &[u8]) -> (v: Vec<i32>)
    requires
        params_fit(data@),
    ensures
        v@.map_values(|x: i32| x as int) == parsed_params(data@),
{
    match parse_params_checked(data) {
        Some(v) => v,
        None => Vec::new(),
    }
}

fn param_or_one_at(p: &Vec<i32>, i: usize) -> (n: usize)
    requires
        forall|j: int| 0 <= j < p@.len() ==> p@[j] >= 0,
    ensures
        n == param_or_one(p@.map_values(|x: i32| x as int), i as int),
        1 <= n <= i32::MAX,
{
    if i < p.len() {
        let v = p[i];
        if v >= 1 { v as usize } else { 1 }
    } else {
        1
    }
}

fn min_usize(a: usize, b: usize) -> (m: usize)
    ensures
        m == min_int(a as int, b as int),
{
    if a <= b { a } else { b }
}

proof fn lemma_parsed_params_nonneg(data: Seq<u8>)
    ensures
        forall|j: int| 0 <= j < parsed_params(data).len() ==> parsed_params(data)[j] >= 0,
        parsed_params(data).len() > 0,
{
    lemma_params_scan_nonneg(data);
}

proof fn lemma_params_scan_nonneg(data: Seq<u8>)
    ensures
        params_scan(data).1 >= 0,
        forall|j: int| 0 <= j < params_scan(data).0.len() ==> params_scan(data).0[j] >= 0,
    decreases data.len(),
{
    if data.len() > 0 {
        lemma_params_scan_nonneg(data.drop_last());
    }
}

impl Screen {
    /// A blank screen with the cursor at the top left.
    pub fn new() -> (s: Self)
        ensures
            s@ == blank_screen(),
            s@.wf(),
    {
        let s = Screen {
            cells: vec![0x20u8; GRID_CELLS],
            row: 0,
            col: 0,
            esc: false,
            csi: false,
            csi_params: Vec::new(),
        };
        proof {
            assert(s@.cells =~= blank_screen().cells);
        }
        s
    }

    /// Takes a sequence of program output.
    pub fn feed(&mut self, data: &[u8])
        requires
            old(self)@.wf(),
            feed_ok(old(self)@, data@),
        ensures
            final(self)@ == spec_feed(old(self)@, data@),
            final(self)@.wf(),
    {
        let _ = self.try_feed(data);
    }

    /// Takes a sequence of program output, stopping before the first byte
    /// that would complete a CSI sequence with a parameter too large for an
    /// `i32`; returns whether all of it was taken.
    pub fn try_feed(&mut self, data: &[u8]) -> (all: bool)
        requires
            old(self)@.wf(),
        ensures
            all == feed_ok(old(self)@, data@),
            all ==> final(self)@ == spec_feed(old(self)@, data@),
            !all ==> exists|k: int|
                0 <= k < data@.len() && feed_ok(old(self)@, data@.take(k)) && !step_ok(
                    #[trigger] spec_feed(old(self)@, data@.take(k)),
                    data@[k],
                ) && final(self)@ == spec_feed(old(self)@, data@.take(k)),
            final(self)@.wf(),
    {
        let ghost start = self@;
        let mut i: usize = 0;
        proof {
            assert(data@.take(0) =~= Seq::<u8>::empty());
        }
        while i < data.len()
            invariant
                0 <= i <= data.len(),
                start == old(self)@,
                start.wf(),
                self@ == spec_feed(start, data@.take(i as int)),
                feed_ok(start, data@.take(i as int)),
                self@.wf(),
            decreases data.len() - i,
        {
            let b = data[i];
            proof {
                lemma_take_last(data@, i as int);
            }
            if !self.step(b) {
                proof {
                    let t = data@.take(i + 1);
                    assert(t.drop_last() == data@.take(i as int));
                    assert(!step_ok(spec_feed(start, t.drop_last()), t.last()));
                    assert(!feed_ok(start, t));
                    if feed_ok(start, data@) {
                        lemma_feed_ok_prefix(start, data@, i + 1);
                    }
                    assert(!step_ok(spec_feed(start, data@.take(i as int)), data@[i as int]));
                }
                return false;
            }
            i = i + 1;
        }
        proof {
            assert(data@.take(data.len() as int) =~= data@);
        }
        true
    }

    /// Takes one byte; where it would complete a CSI sequence whose
    /// parameters overflow, leaves the screen as it is and returns false.
    fn step(&mut self, b: u8) -> (ok: bool)
        requires
            old(self)@.wf(),
        ensures
            ok == step_ok(old(self)@, b),
            ok ==> final(self)@ == spec_step(old(self)@, b),
            !ok ==> final(self)@ == old(self)@,
            final(self)@.wf(),
    {
        if self.csi {
            if 0x40 <= b && b <= 0x7e {
                if !is_ignored_final(b) && parse_params_checked(self.csi_params.as_slice()).is_none() {
                    return false;
                }
                self.csi = false;
                let mut params: Vec<u8> = Vec::new();
                std::mem::swap(&mut params, &mut self.csi_params);
                self.csi_exec(params.as_slice(), b);
            } else {
                self.csi_params.push(b);
            }
            return true;
        }
        if self.esc {
            self.esc = false;
            if b == 0x5bu8 {
                self.csi = true;
                self.csi_params.clear();
            }
            return true;
        }
        if b == 0x1b {
            self.esc = true;
        } else if b == 0x0du8 {
            self.col = 0;
        } else if b == 0x0au8 {
            self.newline();
        } else if b == 0x08 {
            if self.col > 0 {
                self.col -= 1;
            }
        } else if b == 0x09u8 {
            self.col = (self.col / 8 + 1) * 8;
            if self.col >= GRID_COLS {
                self.col = GRID_COLS - 1;
            }
        } else if b >= 0x20 {
            self.put(b);
        }
        true
    }

    fn put(&mut self, b: u8)
        requires
            old(self)@.wf(),
        ensures
            final(self)@ == spec_put(old(self)@, b),
    {
        if self.row < GRID_ROWS {
            self.cells.set(self.row * GRID_COLS + self.col, b);
        }
        self.col += 1;
        if self.col >= GRID_COLS {
            self.col = 0;
            self.newline();
        }
    }

    fn newline(&mut self)
        requires
            old(self)@.wf(),
        ensures
            final(self)@ == spec_newline(old(self)@),
    {
        if self.row + 1 >= GRID_ROWS {
            self.scroll_up();
        } else {
            self.row += 1;
        }
    }

    fn scroll_up(&mut self)
        requires
            old(self)@.cells.len() == GRID_CELLS,
        ensures
            final(self)@ == (ScreenView { cells: scrolled(old(self)@.cells), ..old(self)@ }),
    {
        let ghost old_cells = self.cells@;
        let mut i: usize = 0;
        while i < GRID_CELLS - GRID_COLS
            invariant
                0 <= i <= GRID_CELLS - GRID_COLS,
                self.cells@.len() == GRID_CELLS,
                old_cells.len() == GRID_CELLS,
                self@ == (ScreenView { cells: self.cells@, ..old(self)@ }),
                forall|j: int| 0 <= j < i ==> self.cells@[j] == old_cells[j + GRID_COLS],
                forall|j: int| i <= j < GRID_CELLS ==> self.cells@[j] == old_cells[j],
            decreases GRID_CELLS - GRID_COLS - i,
        {
            let v = self.cells[i + GRID_COLS];
            self.cells.set(i, v);
            i = i + 1;
        }
        self.fill_blank(GRID_CELLS - GRID_COLS, GRID_CELLS);
        proof {
            assert(self.cells@ =~= scrolled(old_cells));
        }
    }

    /// Blanks the cells in `lo..hi`.
    fn fill_blank(&mut self, lo: usize, hi: usize)
        requires
            lo <= hi <= old(self)@.cells.len(),
        ensures
            final(self)@ == (ScreenView {
                cells: blanked(old(self)@.cells, lo as int, hi as int),
                ..old(self)@
            }),
    {
        let ghost old_cells = self.cells@;
        let mut i = lo;
        while i < hi
            invariant
                lo <= i <= hi,
                hi <= old_cells.len(),
                self.cells@.len() == old_cells.len(),
                self@ == (ScreenView { cells: self.cells@, ..old(self)@ }),
                forall|j: int|
                    0 <= j < old_cells.len() ==> self.cells@[j] == (if lo <= j < i {
                        blank()
                    } else {
                        old_cells[j]
                    }),
            decreases hi - i,
        {
            self.cells.set(i, 0x20u8);
            i = i + 1;
        }
        proof {
            assert(self.cells@ =~= blanked(old_cells, lo as int, hi as int));
        }
    }

    fn erase_line(&mut self, mode: i32)
        requires
            old(self)@.wf(),
        ensures
            final(self)@ == (ScreenView {
                cells: spec_erase_line(old(self)@, mode as int),
                ..old(self)@
            }),
    {
        let row_start = self.row * GRID_COLS;
        if mode == 0 {
            self.fill_blank(row_start + self.col, row_start + GRID_COLS);
        } else if mode == 1 {
            let end = min_usize(row_start + self.col, row_start + GRID_COLS - 1);
            self.fill_blank(row_start, end + 1);
        } else {
            self.fill_blank(row_start, row_start + GRID_COLS);
        }
    }

    fn erase_screen(&mut self, mode: i32)
        requires
            old(self)@.wf(),
        ensures
            final(self)@ == (ScreenView {
                cells: spec_erase_screen(old(self)@, mode as int),
                ..old(self)@
            }),
    {
        if mode == 0 {
            self.erase_line(0);
            let mut r = self.row + 1;
            proof {
                let c = spec_erase_line(old(self)@, 0);
                assert(c =~= blanked(c, (old(self)@.row + 1) * GRID_COLS, r * GRID_COLS));
            }
            while r < GRID_ROWS
                invariant
                    self@.wf(),
                    r <= GRID_ROWS,
                    self@.row == old(self)@.row,
                    r >= old(self)@.row + 1,
                    self@ == (ScreenView {
                        cells: blanked(
                            spec_erase_line(old(self)@, 0),
                            (old(self)@.row + 1) * GRID_COLS,
                            r * GRID_COLS,
                        ),
                        ..old(self)@
                    }),
                decreases GRID_ROWS - r,
            {
                self.fill_blank(r * GRID_COLS, (r + 1) * GRID_COLS);
                proof {
                    assert(self@.cells =~= blanked(
                        spec_erase_line(old(self)@, 0),
                        (old(self)@.row + 1) * GRID_COLS,
                        (r + 1) * GRID_COLS,
                    ));
                }
                r = r + 1;
            }
        } else if mode == 1 {
            self.erase_line(1);
            let mut r: usize = 0;
            proof {
                let c = spec_erase_line(old(self)@, 1);
                assert(c =~= blanked(c, 0, 0));
            }
            while r < self.row
                invariant
                    self@.wf(),
                    self@.row == old(self)@.row,
                    r <= old(self)@.row,
                    self@ == (ScreenView {
                        cells: blanked(spec_erase_line(old(self)@, 1), 0, r * GRID_COLS),
                        ..old(self)@
                    }),
                decreases self@.row - r,
            {
                self.fill_blank(r * GRID_COLS, (r + 1) * GRID_COLS);
                proof {
                    assert(self@.cells =~= blanked(
                        spec_erase_line(old(self)@, 1),
                        0,
                        (r + 1) * GRID_COLS,
                    ));
                }
                r = r + 1;
            }
        } else {
            self.fill_blank(0, GRID_CELLS);
        }
    }

    fn csi_exec(&mut self, params: &[u8], final_byte: u8)
        requires
            old(self)@.wf(),
            ignored_final(final_byte) || params_fit(params@),
        ensures
            final(self)@ == spec_csi_exec(old(self)@, params@, final_byte),
    {
        if is_ignored_final(final_byte) {
            return;
        }
        let p = parse_params(params);
        proof {
            lemma_parsed_params_nonneg(params@);
            assert forall|j: int| 0 <= j < p@.len() implies p@[j] >= 0 by {
                assert(p@.map_values(|x: i32| x as int)[j] == p@[j] as int);
            }
        }
        if final_byte == 0x48u8 || final_byte == 0x66u8 {
            self.row = min_usize(param_or_one_at(&p, 0).saturating_sub(1), GRID_ROWS - 1);
            self.col = min_usize(param_or_one_at(&p, 1).saturating_sub(1), GRID_COLS - 1);
        } else if final_byte == 0x41u8 {
            self.row = self.row.saturating_sub(param_or_one_at(&p, 0));
        } else if final_byte == 0x42u8 {
            self.row = min_usize(self.row + param_or_one_at(&p, 0), GRID_ROWS - 1);
        } else if final_byte == 0x43u8 {
            self.col = min_usize(self.col + param_or_one_at(&p, 0), GRID_COLS - 1);
        } else if final_byte == 0x44u8 {
            self.col = self.col.saturating_sub(param_or_one_at(&p, 0));
        } else if final_byte == 0x47u8 {
            self.col = min_usize(param_or_one_at(&p, 0).saturating_sub(1), GRID_COLS - 1);
        } else if final_byte == 0x64u8 {
            self.row = min_usize(param_or_one_at(&p, 0).saturating_sub(1), GRID_ROWS - 1);
        } else if final_byte == 0x4au8 {
            let mode = if p.len() > 0 { p[0] } else { 0 };
            self.erase_screen(mode);
        } else if final_byte == 0x4bu8 {
            let mode = if p.len() > 0 { p[0] } else { 0 };
            self.erase_line(mode);
        }
    }

    /// The screen's text where it differs from `last`, which then becomes
    /// it; `None`, with `last` left as it is, where nothing changed. (The UI
    /// is only sent text that changed.)
    pub fn text_update(&self, last: &mut String) -> (r: Option<String>)
        requires
            self@.wf(),
        ensures
            r is Some <==> screen_text(self@.cells) != old(last)@,
            r matches Some(t) ==> t@ == screen_text(self@.cells) && final(last)@ == t@,
            r is None ==> final(last)@ == old(last)@,
    {
        let text = self.as_text();
        if text == *last {
            None
        } else {
            *last = text.clone();
            Some(text)
        }
    }

    /// The grid as text: one line per row, rows separated by `\n`.
    pub fn as_text(&self) -> (s: String)
        requires
            self@.wf(),
        ensures
            s@ == screen_text(self@.cells),
    {
        let mut s = String::new();
        let mut r: usize = 0;
        while r < GRID_ROWS
            invariant
                r <= GRID_ROWS,
                self@.wf(),
                s@ == rows_text(self@.cells, r as int),
            decreases GRID_ROWS - r,
        {
            if r > 0 {
                s.append("\n");
            }
            let line = decode_lossy(&self.cells.as_slice()[r * GRID_COLS..(r + 1) * GRID_COLS]);
            s.append(line.as_str());
            proof {
                reveal_strlit("\n");
            }
            r = r + 1;
        }
        s
    }
}

/// The bytes sent to the terminal's program for a key the UI reports:
/// arrow keys become their ANSI cursor sequences, backspace and delete both
/// become DEL, and any other text is sent as it is.
pub open spec fn spec_terminal_key(text: Seq<char>) -> Seq<char> {
    if text == "ArrowUp"@ {
        "\x1b[A"@
    } else if text == "ArrowDown"@ {
        "\x1b[B"@
    } else if text == "ArrowRight"@ {
        "\x1b[C"@
    } else if text == "ArrowLeft"@ {
        "\x1b[D"@
    } else if text == "\r"@ {
        "\r"@
    } else if text == "\x7f"@ || text == "\x08"@ {
        "\x7f"@
    } else {
        text
    }
}

fn text_is(text: &Vec<char>, literal: &str) -> (r: bool)
    ensures
        r == (text@ == literal@),
{
    let l = chars_of(literal);
    proof {
        assert(text@.subrange(0, text@.len() as int) =~= text@);
    }
    range_eq(text.as_slice(), 0, text.len(), l.as_slice())
}

/// The bytes sent to the terminal's program for a key the UI reports.
pub fn terminal_key_to_bytes(text: &str) -> (out: &str)
    ensures
        out@ == spec_terminal_key(text@),
{
    let t = chars_of(text);
    if text_is(&t, "ArrowUp") {
        "\x1b[A"
    } else if text_is(&t, "ArrowDown") {
        "\x1b[B"
    } else if text_is(&t, "ArrowRight") {
        "\x1b[C"
    } else if text_is(&t, "ArrowLeft") {
        "\x1b[D"
    } else if text_is(&t, "\r") {
        "\r"
    } else if text_is(&t, "\x7f") || text_is(&t, "\x08") {
        "\x7f"
    } else {
        text
    }
}

} // verus!
