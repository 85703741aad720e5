//! Log levels and their colours, and the pairing of two loggers.

use vstd::prelude::*;

verus! {

/// The level of a log message.
#[derive(Clone, Copy, PartialEq, Eq, Structural, Debug)]
pub enum LogLevel {
    Debug,
    Warn,
    Error,
    Info,
}

/// A colour of the text screen.
#[derive(Clone, Copy, PartialEq, Eq, Structural, Debug)]
pub enum TextColour {
    Black,
    Blue,
    Green,
    Cyan,
    Red,
    Magenta,
    Brown,
    LightGray,
    Gray,
    LightBlue,
    LightGreen,
    LightCyan,
    LightRed,
    Pink,
    Yellow,
    White,
}

/// The colour in which messages of a level are shown.
pub open spec fn colour_of(level: LogLevel) -> TextColour {
    match level {
        LogLevel::Debug => TextColour::Gray,
        LogLevel::Warn => TextColour::Yellow,
        LogLevel::Error => TextColour::Red,
        LogLevel::Info => TextColour::Cyan,
    }
}

/// The colour in which messages of `level` are shown.
pub fn level_colour(level: LogLevel) -> (r: TextColour)
    ensures
        r == colour_of(level),
{
    match level {
        LogLevel::Debug => TextColour::Gray,
        LogLevel::Warn => TextColour::Yellow,
        LogLevel::Error => TextColour::Red,
        LogLevel::Info => TextColour::Cyan,
    }
}

/// Two loggers that every message goes to, `a` first.
pub struct LoggerMux<A, B> {
    pub a: A,
    pub b: B,
}

impl<A, B> LoggerMux<A, B> {
    pub fn new(a: A, b: B) -> (r: Self)
        ensures
            r.a == a,
            r.b == b,
    {
        Self { a, b }
    }
}

/// A cell of the text screen: a character, its foreground and its background colour.
pub type Cell = (char, TextColour, TextColour);

/// A blank cell.
pub open spec fn blank() -> Cell {
    (' ', TextColour::Black, TextColour::Black)
}

/// The cells of a text screen of `width` columns, row after row.
pub struct TextBuffer {
    width: usize,
    height: usize,
    cells: Vec<Cell>,
}

/// The cell at column `x` of row `y`, or a blank one off the screen.
pub open spec fn cell_at(cells: Seq<Cell>, width: int, height: int, x: int, y: int) -> Cell {
    if 0 <= x < width && 0 <= y < height {
        cells[y * width + x]
    } else {
        blank()
    }
}

/// The cells once column `x` of row `y` holds `c`; a cell off the screen is not written.
pub open spec fn put_cell(cells: Seq<Cell>, width: int, height: int, x: int, y: int, c: Cell) -> Seq<Cell> {
    if 0 <= x < width && 0 <= y < height {
        cells.update(y * width + x, c)
    } else {
        cells
    }
}

/// The index of a cell on the screen lies within the cells.
pub proof fn lemma_cell_index(width: int, height: int, x: int, y: int)
    requires
        0 <= x < width,
        0 <= y < height,
    ensures
        0 <= y * width + x < width * height,
{
    vstd::arithmetic::mul::lemma_mul_inequality(y + 1, height, width);
    vstd::arithmetic::mul::lemma_mul_is_distributive_add_other_way(width, y, 1);
    vstd::arithmetic::mul::lemma_mul_nonnegative(y, width);
    vstd::arithmetic::mul::lemma_mul_is_commutative(height, width);
}

impl TextBuffer {
    pub closed spec fn width_spec(&self) -> int {
        self.width as int
    }

    pub closed spec fn height_spec(&self) -> int {
        self.height as int
    }

    pub closed spec fn cells_spec(&self) -> Seq<Cell> {
        self.cells@
    }

    /// One cell per column of each row.
    pub open spec fn wf(&self) -> bool {
        self.cells_spec().len() == self.width_spec() * self.height_spec()
    }

    /// A blank screen of `width` columns and `height` rows.
    pub fn new(width: usize, height: usize) -> (r: Self)
        requires
            width * height <= usize::MAX,
        ensures
            r.wf(),
            r.width_spec() == width,
            r.height_spec() == height,
            forall|i: int| 0 <= i < width * height ==> r.cells_spec()[i] == blank(),
    {
        let n: usize = width * height;
        let mut cells: Vec<Cell> = Vec::new();
        let mut i: usize = 0;
        while i < n
            invariant
                0 <= i <= n,
                cells@.len() == i,
                forall|j: int| 0 <= j < i ==> cells@[j] == blank(),
            decreases n - i,
        {
            cells.push((' ', TextColour::Black, TextColour::Black));
            i = i + 1;
        }
        TextBuffer { width, height, cells }
    }

    pub fn width(&self) -> (r: usize)
        ensures
            r == self.width_spec(),
    {
        self.width
    }

    pub fn height(&self) -> (r: usize)
        ensures
            r == self.height_spec(),
    {
        self.height
    }

    /// The cell at column `x` of row `y`; blank off the screen.
    pub fn get_coloured(&self, x: usize, y: usize) -> (r: Cell)
        requires
            self.wf(),
        ensures
            r == cell_at(self.cells_spec(), self.width_spec(), self.height_spec(), x as int, y as int),
    {
        let n: usize = self.cells.len();
        if x < self.width && y < self.height {
            proof {
                lemma_cell_index(self.width as int, self.height as int, x as int, y as int);
                assert(y * self.width + x < n);
            }
            self.cells[y * self.width + x]
        } else {
            (' ', TextColour::Black, TextColour::Black)
        }
    }

    /// Write `c` with colours `fg` on `bg` at column `x` of row `y`; nothing happens off the
    /// screen.
    pub fn put_coloured(&mut self, x: usize, y: usize, c: char, fg: TextColour, bg: TextColour)
        requires
            old(self).wf(),
        ensures
            final(self).wf(),
            final(self).width_spec() == old(self).width_spec(),
            final(self).height_spec() == old(self).height_spec(),
            final(self).cells_spec() == put_cell(
                old(self).cells_spec(),
                old(self).width_spec(),
                old(self).height_spec(),
                x as int,
                y as int,
                (c, fg, bg),
            ),
    {
        let n: usize = self.cells.len();
        if x < self.width && y < self.height {
            proof {
                lemma_cell_index(self.width as int, self.height as int, x as int, y as int);
                assert(y * self.width + x < n);
            }
            self.cells.set(y * self.width + x, (c, fg, bg));
        }
    }
}

/// The width of a tab on the screen, in columns.
pub const TAB_WIDTH: usize = 2;

/// The column, the number of line breaks and the index of the last line break that pushes
/// the first row off a screen of `height` rows, after the first `n` characters of `text`
/// written from column `col0` of a screen of `width` columns: a line breaks at a newline or when
/// the column reaches the width, and a tab takes three columns.
pub open spec fn scan(text: Seq<char>, n: int, col0: int, width: int, height: int) -> (int, int, int)
    decreases n,
{
    if n <= 0 {
        (col0, 0, 0)
    } else {
        let (cw, lines, start) = scan(text, n - 1, col0, width, height);
        let c = text[n - 1];
        let (cw1, lines1, start1) = if cw >= width || c == '\n' {
            (0, lines + 1, if lines + 1 >= height { n - 1 } else { start })
        } else {
            (cw, lines, start)
        };
        (cw1 + 1 + if c == '\t' { TAB_WIDTH as int } else { 0 }, lines1, start1)
    }
}

/// The rows that scrolling by `shift` with the cursor on row `line` leaves: each row above
/// `line - shift` gets the row `shift` below it, blank past the bottom; the others stay.
pub open spec fn scrolled(cells: Seq<Cell>, width: int, height: int, shift: int, line: int) -> Seq<Cell> {
    Seq::new(
        cells.len(),
        |k: int|
            if k / width < line - shift {
                cell_at(cells, width, height, k % width, k / width + shift)
            } else {
                cells[k]
            },
    )
}

/// The cells once row `line` is blanked from column `col` to the right edge.
pub open spec fn cleared(cells: Seq<Cell>, width: int, height: int, line: int, col: int) -> Seq<Cell> {
    Seq::new(
        cells.len(),
        |k: int|
            if k / width == line && k % width >= col && line < height {
                blank()
            } else {
                cells[k]
            },
    )
}

/// The screen, the row and the column after writing `c` in colour `fg` at column `col` of
/// row `line`: a newline, or a character past the right edge, blanks the rest of the row and
/// moves to the start of the next one (the character itself is not shown); a tab writes two
/// blanks; any other character is written and the column moves on.
pub open spec fn put_char(
    state: (Seq<Cell>, int, int),
    width: int,
    height: int,
    fg: TextColour,
    c: char,
) -> (Seq<Cell>, int, int) {
    let (cells, line, col) = state;
    if col >= width || c == '\n' {
        (cleared(cells, width, height, line, col), line + 1, 0)
    } else if c == '\t' {
        (
            put_cell(
                put_cell(cells, width, height, col, line, (' ', fg, TextColour::Black)),
                width,
                height,
                col + 1,
                line,
                (' ', fg, TextColour::Black),
            ),
            line,
            col + 2,
        )
    } else {
        (put_cell(cells, width, height, col, line, (c, fg, TextColour::Black)), line, col + 1)
    }
}

/// The screen, row and column after writing `chars` one after the other.
pub open spec fn put_chars(
    state: (Seq<Cell>, int, int),
    width: int,
    height: int,
    fg: TextColour,
    chars: Seq<char>,
) -> (Seq<Cell>, int, int)
    decreases chars.len(),
{
    if chars.len() == 0 {
        state
    } else {
        put_char(put_chars(state, width, height, fg, chars.drop_last()), width, height, fg, chars.last())
    }
}

/// The scrolling that writing `lines` line breaks from row `line` needs, at most a screen.
pub open spec fn shift_for(line: int, lines: int, height: int) -> int {
    let over = if line + lines > height { line + lines - height } else { 0 };
    if over < height { over } else { height }
}

/// The screen that log messages are written to, with its cursor and the level of the message
/// being written.
pub struct BufferData {
    buffer: TextBuffer,
    line: usize,
    col: usize,
    current_level: LogLevel,
}

impl BufferData {
    pub closed spec fn cells_spec(&self) -> Seq<Cell> {
        self.buffer.cells_spec()
    }

    pub closed spec fn width_spec(&self) -> int {
        self.buffer.width_spec()
    }

    pub closed spec fn height_spec(&self) -> int {
        self.buffer.height_spec()
    }

    pub closed spec fn line_spec(&self) -> int {
        self.line as int
    }

    pub closed spec fn col_spec(&self) -> int {
        self.col as int
    }

    pub closed spec fn level_spec(&self) -> LogLevel {
        self.current_level
    }

    /// The screen has its cells and the cursor is at most two columns past its right edge.
    pub open spec fn wf(&self) -> bool {
        &&& self.cells_spec().len() == self.width_spec() * self.height_spec()
        &&& self.col_spec() <= self.width_spec() + TAB_WIDTH
        &&& self.width_spec() + 2 * TAB_WIDTH + 4 <= usize::MAX
    }

    /// Messages written to `buffer`, from the start of its third row, as information.
    pub fn new(buffer: TextBuffer) -> (r: Self)
        requires
            buffer.wf(),
            buffer.width_spec() + 2 * TAB_WIDTH + 4 <= usize::MAX,
        ensures
            r.wf(),
            r.cells_spec() == buffer.cells_spec(),
            r.width_spec() == buffer.width_spec(),
            r.height_spec() == buffer.height_spec(),
            r.line_spec() == 2,
            r.col_spec() == 0,
            r.level_spec() == LogLevel::Info,
    {
        BufferData { buffer, line: 2, col: 0, current_level: LogLevel::Info }
    }

    /// The screen.
    pub fn buffer(&self) -> (r: &TextBuffer)
        ensures
            r.cells_spec() == self.cells_spec(),
            r.width_spec() == self.width_spec(),
            r.height_spec() == self.height_spec(),
    {
        &self.buffer
    }

    /// The row of the cursor.
    pub fn line(&self) -> (r: usize)
        ensures
            r == self.line_spec(),
    {
        self.line
    }

    /// The column of the cursor.
    pub fn col(&self) -> (r: usize)
        ensures
            r == self.col_spec(),
    {
        self.col
    }
}

/// The cell of column `x` of row `y` is at index `y * width + x`, and that index gives the
/// row and column back.
proof fn lemma_index(width: int, height: int, x: int, y: int)
    requires
        0 <= x < width,
        0 <= y < height,
    ensures
        0 <= y * width + x < width * height,
        (y * width + x) / width == y,
        (y * width + x) % width == x,
{
    lemma_cell_index(width, height, x, y);
    vstd::arithmetic::div_mod::lemma_fundamental_div_mod_converse(y * width + x, width, y, x);
}

/// Every index is the one of its row and column.
proof fn lemma_split(width: int, k: int)
    requires
        width > 0,
        k >= 0,
    ensures
        k == (k / width) * width + k % width,
        0 <= k % width < width,
        k / width >= 0,
{
    vstd::arithmetic::div_mod::lemma_fundamental_div_mod(k, width);
    vstd::arithmetic::mul::lemma_mul_is_commutative(width, k / width);
    vstd::arithmetic::div_mod::lemma_mod_pos_bound(k, width);
    vstd::arithmetic::div_mod::lemma_div_pos_is_pos(k, width);
}

impl BufferData {
    /// The column, line breaks and start of the shown text after the first characters.
    fn count_lines(text: &str, col0: usize, width: usize, height: usize) -> (r: (usize, usize, usize))
        requires
            col0 <= width + TAB_WIDTH,
            width + 2 * TAB_WIDTH + 4 <= usize::MAX,
        ensures
            (r.0 as int, r.1 as int, r.2 as int) == scan(text@, text@.len() as int, col0 as int, width as int, height as int),
    {
        let n: usize = text.unicode_len();
        let mut current_width: usize = col0;
        let mut lines: usize = 0;
        let mut start_char: usize = 0;
        let mut i: usize = 0;
        while i < n
            invariant
                n == text@.len(),
                0 <= i <= n,
                lines <= i,
                start_char <= i,
                current_width <= width + TAB_WIDTH + 1 || current_width <= 3,
                width + 2 * TAB_WIDTH + 4 <= usize::MAX,
                (current_width as int, lines as int, start_char as int) == scan(text@, i as int, col0 as int, width as int, height as int),
            decreases n - i,
        {
            let c = text.get_char(i);
            if current_width >= width || c == '\n' {
                current_width = 0;
                lines = lines + 1;
                if lines >= height {
                    start_char = i;
                }
            }
            current_width = current_width + 1;
            if c == '\t' {
                current_width = current_width + TAB_WIDTH;
            }
            i = i + 1;
        }
        (current_width, lines, start_char)
    }

    /// Scroll the screen up by `shift` rows, the cursor being on row `self.line`.
    fn scroll(&mut self, shift: usize)
        requires
            old(self).wf(),
            shift > 0,
        ensures
            final(self).wf(),
            final(self).width_spec() == old(self).width_spec(),
            final(self).height_spec() == old(self).height_spec(),
            final(self).line_spec() == old(self).line_spec(),
            final(self).col_spec() == old(self).col_spec(),
            final(self).level_spec() == old(self).level_spec(),
            final(self).cells_spec() == scrolled(
                old(self).cells_spec(),
                old(self).width_spec(),
                old(self).height_spec(),
                shift as int,
                old(self).line_spec(),
            ),
    {
        let ghost old_cells = self.cells_spec();
        let width: usize = self.buffer.width();
        let height: usize = self.buffer.height();
        let ghost w = width as int;
        let ghost h = height as int;
        proof {
            if old_cells.len() > 0 {
                vstd::arithmetic::mul::lemma_mul_nonnegative(w, h);
                if w == 0 {
                    assert(w * h == 0);
                }
            }
            assert forall|k: int| 0 <= k < old_cells.len() implies #[trigger] scrolled(old_cells, w, h, shift as int, shift as int)[k]
                == old_cells[k] by {
                lemma_split(w, k);
            }
            assert(self.cells_spec() =~= scrolled(old_cells, w, h, shift as int, shift as int));
        }
        let mut shift_row: usize = shift;
        while shift_row < self.line
            invariant
                w == width,
                h == height,
                old_cells.len() > 0 ==> w > 0,
                old_cells.len() == w * h,
                self.cells_spec().len() == old_cells.len(),
                self.wf(),
                shift > 0,
                shift <= shift_row,
                shift_row <= self.line_spec() || shift_row == shift,
                width == self.width_spec(),
                height == self.height_spec(),
                self.line_spec() == old(self).line_spec(),
                self.col_spec() == old(self).col_spec(),
                self.level_spec() == old(self).level_spec(),
                old_cells == old(self).cells_spec(),
                self.cells_spec() == scrolled(old_cells, w, h, shift as int, shift_row as int),
            decreases self.line - shift_row,
        {
            let dest: usize = shift_row - shift;
            if dest >= height {
                let mut x: usize = 0;
                while x < width
                    invariant
                        w == width,
                        h == height,
                        self.wf(),
                        width == self.width_spec(),
                        height == self.height_spec(),
                        dest >= height,
                        self.line_spec() == old(self).line_spec(),
                        self.col_spec() == old(self).col_spec(),
                        self.level_spec() == old(self).level_spec(),
                        self.cells_spec() == scrolled(old_cells, w, h, shift as int, shift_row as int),
                    decreases width - x,
                {
                    self.buffer.put_coloured(x, dest, ' ', TextColour::Black, TextColour::Black);
                    x = x + 1;
                }
                proof {
                    assert forall|k: int| 0 <= k < old_cells.len() implies #[trigger] scrolled(old_cells, w, h, shift as int, shift_row as int)[k]
                        == scrolled(old_cells, w, h, shift as int, shift_row + 1)[k] by {
                        lemma_split(w, k);
                        if k / w >= h {
                            vstd::arithmetic::mul::lemma_mul_inequality(h, k / w, w);
                            vstd::arithmetic::mul::lemma_mul_is_commutative(h, w);
                        }
                    }
                    assert(scrolled(old_cells, w, h, shift as int, shift_row as int) =~= scrolled(old_cells, w, h, shift as int, shift_row + 1));
                }
            } else {
                let mut x: usize = 0;
                while x < width
                    invariant
                        w == width,
                        h == height,
                        old_cells.len() > 0 ==> w > 0,
                        old_cells.len() == w * h,
                        shift_row < self.line_spec(),
                        self.wf(),
                        width == self.width_spec(),
                        height == self.height_spec(),
                        dest < height,
                        dest == shift_row - shift,
                        shift > 0,
                        self.line_spec() == old(self).line_spec(),
                        self.col_spec() == old(self).col_spec(),
                        self.level_spec() == old(self).level_spec(),
                        0 <= x <= width,
                        self.cells_spec() == Seq::new(
                            old_cells.len(),
                            |k: int|
                                if k / w < dest || (k / w == dest && k % w < x) {
                                    cell_at(old_cells, w, h, k % w, k / w + shift)
                                } else {
                                    old_cells[k]
                                },
                        ),
                    decreases width - x,
                {
                    let cell = self.buffer.get_coloured(x, shift_row);
                    proof {
                        let k0 = shift_row * w + x;
                        if shift_row < h {
                            lemma_index(w, h, x as int, shift_row as int);
                            assert(self.cells_spec()[k0] == old_cells[k0]);
                        }
                    }
                    self.buffer.put_coloured(x, dest, cell.0, cell.1, cell.2);
                    proof {
                        lemma_index(w, h, x as int, dest as int);
                        let target = Seq::new(
                            old_cells.len(),
                            |k: int|
                                if k / w < dest || (k / w == dest && k % w < x + 1) {
                                    cell_at(old_cells, w, h, k % w, k / w + shift)
                                } else {
                                    old_cells[k]
                                },
                        );
                        assert forall|k: int| 0 <= k < old_cells.len() implies #[trigger] self.cells_spec()[k] == target[k] by {
                            lemma_split(w, k);
                            if k == dest * w + x {
                                assert(k / w == dest && k % w == x);
                            } else {
                                if k / w == dest && k % w == x {
                                    assert(k == dest * w + x);
                                }
                            }
                        }
                        assert(self.cells_spec() =~= target);
                    }
                    x = x + 1;
                }
                proof {
                    let target = scrolled(old_cells, w, h, shift as int, shift_row + 1);
                    assert forall|k: int| 0 <= k < old_cells.len() implies #[trigger] self.cells_spec()[k] == target[k] by {
                        lemma_split(w, k);
                    }
                    assert(self.cells_spec() =~= target);
                }
            }
            shift_row = shift_row + 1;
        }
        proof {
            let target = scrolled(old_cells, w, h, shift as int, self.line as int);
            assert forall|k: int| 0 <= k < old_cells.len() implies #[trigger] self.cells_spec()[k] == target[k] by {
                lemma_split(w, k);
            }
            assert(self.cells_spec() =~= target);
        }
    }
}

impl BufferData {
    /// Blank the row of the cursor from its column to the right edge.
    fn clear_row(&mut self)
        requires
            old(self).wf(),
        ensures
            final(self).wf(),
            final(self).width_spec() == old(self).width_spec(),
            final(self).height_spec() == old(self).height_spec(),
            final(self).line_spec() == old(self).line_spec(),
            final(self).col_spec() == old(self).col_spec(),
            final(self).level_spec() == old(self).level_spec(),
            final(self).cells_spec() == cleared(
                old(self).cells_spec(),
                old(self).width_spec(),
                old(self).height_spec(),
                old(self).line_spec(),
                old(self).col_spec(),
            ),
    {
        let ghost old_cells = self.cells_spec();
        let width: usize = self.buffer.width();
        let height: usize = self.buffer.height();
        let ghost w = width as int;
        let ghost h = height as int;
        let line = self.line;
        let col = self.col;
        proof {
            if old_cells.len() > 0 {
                vstd::arithmetic::mul::lemma_mul_nonnegative(w, h);
                if w == 0 {
                    assert(w * h == 0);
                }
            }
        }
        let mut i: usize = col;
        while i < width
            invariant
                w == width,
                h == height,
                line == self.line_spec(),
                col == self.col_spec(),
                col <= i,
                old_cells.len() > 0 ==> w > 0,
                old_cells.len() == w * h,
                self.wf(),
                width == self.width_spec(),
                height == self.height_spec(),
                self.line_spec() == old(self).line_spec(),
                self.col_spec() == old(self).col_spec(),
                self.level_spec() == old(self).level_spec(),
                old_cells == old(self).cells_spec(),
                self.cells_spec() == Seq::new(
                    old_cells.len(),
                    |k: int|
                        if k / w == line && col <= k % w < i && line < h {
                            blank()
                        } else {
                            old_cells[k]
                        },
                ),
            decreases width - i,
        {
            self.buffer.put_coloured(i, line, ' ', TextColour::Black, TextColour::Black);
            proof {
                let target = Seq::new(
                    old_cells.len(),
                    |k: int|
                        if k / w == line && col <= k % w < i + 1 && line < h {
                            blank()
                        } else {
                            old_cells[k]
                        },
                );
                if line < h {
                    lemma_index(w, h, i as int, line as int);
                }
                assert forall|k: int| 0 <= k < old_cells.len() implies #[trigger] self.cells_spec()[k] == target[k] by {
                    lemma_split(w, k);
                    if k / w == line && k % w == i {
                        assert(k == line * w + i);
                    }
                }
                assert(self.cells_spec() =~= target);
            }
            i = i + 1;
        }
        proof {
            let target = cleared(old_cells, w, h, line as int, col as int);
            assert forall|k: int| 0 <= k < old_cells.len() implies #[trigger] self.cells_spec()[k] == target[k] by {
                lemma_split(w, k);
            }
            assert(self.cells_spec() =~= target);
        }
    }

    /// Write the characters of `text` from index `start` on, in colour `fg`.
    fn write_chars(&mut self, text: &str, start: usize, fg: TextColour)
        requires
            old(self).wf(),
            start <= text@.len(),
            old(self).line_spec() + text@.len() <= usize::MAX,
        ensures
            final(self).wf(),
            final(self).width_spec() == old(self).width_spec(),
            final(self).height_spec() == old(self).height_spec(),
            final(self).level_spec() == old(self).level_spec(),
            (final(self).cells_spec(), final(self).line_spec(), final(self).col_spec()) == put_chars(
                (old(self).cells_spec(), old(self).line_spec(), old(self).col_spec()),
                old(self).width_spec(),
                old(self).height_spec(),
                fg,
                text@.subrange(start as int, text@.len() as int),
            ),
    {
        let n: usize = text.unicode_len();
        let width: usize = self.buffer.width();
        let ghost w = width as int;
        let ghost h = self.height_spec();
        let mut i: usize = start;
        while i < n
            invariant
                n == text@.len(),
                start <= i <= n,
                w == width,
                h == self.height_spec(),
                width == self.width_spec(),
                self.wf(),
                self.line_spec() <= old(self).line_spec() + (i - start),
                old(self).line_spec() + text@.len() <= usize::MAX,
                self.width_spec() == old(self).width_spec(),
                self.height_spec() == old(self).height_spec(),
                self.level_spec() == old(self).level_spec(),
                (self.cells_spec(), self.line_spec(), self.col_spec()) == put_chars(
                    (old(self).cells_spec(), old(self).line_spec(), old(self).col_spec()),
                    w,
                    h,
                    fg,
                    text@.subrange(start as int, i as int),
                ),
            decreases n - i,
        {
            let c = text.get_char(i);
            proof {
                let s = text@.subrange(start as int, i as int + 1);
                assert(s.drop_last() =~= text@.subrange(start as int, i as int));
                assert(s.last() == c);
            }
            if self.col >= width || c == '\n' {
                self.clear_row();
                self.line = self.line + 1;
                self.col = 0;
            } else if c == '\t' {
                self.buffer.put_coloured(self.col, self.line, ' ', fg, TextColour::Black);
                self.col = self.col + 1;
                self.buffer.put_coloured(self.col, self.line, ' ', fg, TextColour::Black);
                self.col = self.col + 1;
            } else {
                self.buffer.put_coloured(self.col, self.line, c, fg, TextColour::Black);
                self.col = self.col + 1;
            }
            i = i + 1;
        }
    }

    /// Write `text` to the screen in the colour of the current level.
    ///
    /// The line breaks of the text are counted first; when the text would run past the
    /// bottom, the screen scrolls up by the excess, at most a screen, and only the part of the
    /// text from the last line break that pushes the first row off is written. The text may not
    /// hold more line breaks than the screen has rows below the cursor's row plus the rows
    /// above it.
    pub fn write_str(&mut self, text: &str)
        requires
            old(self).wf(),
            old(self).line_spec() + text@.len() <= usize::MAX,
            shift_for(
                old(self).line_spec(),
                scan(text@, text@.len() as int, old(self).col_spec(), old(self).width_spec(), old(self).height_spec()).1,
                old(self).height_spec(),
            ) <= old(self).line_spec(),
        ensures
            final(self).wf(),
            final(self).width_spec() == old(self).width_spec(),
            final(self).height_spec() == old(self).height_spec(),
            final(self).level_spec() == old(self).level_spec(),
            ({
                let w = old(self).width_spec();
                let h = old(self).height_spec();
                let (_, lines, start) = scan(text@, text@.len() as int, old(self).col_spec(), w, h);
                let shift = shift_for(old(self).line_spec(), lines, h);
                let cells = if shift > 0 {
                    scrolled(old(self).cells_spec(), w, h, shift, old(self).line_spec())
                } else {
                    old(self).cells_spec()
                };
                (final(self).cells_spec(), final(self).line_spec(), final(self).col_spec()) == put_chars(
                    (cells, old(self).line_spec() - shift, old(self).col_spec()),
                    w,
                    h,
                    colour_of(old(self).level_spec()),
                    text@.subrange(start, text@.len() as int),
                )
            }),
    {
        let width: usize = self.buffer.width();
        let height: usize = self.buffer.height();
        let (_, lines, start_char) = Self::count_lines(text, self.col, width, height);
        proof {
            lemma_scan_bounds(text@, text@.len() as int, self.col as int, width as int, height as int);
        }
        let total: usize = self.line + lines;
        let over: usize = if total > height {
            total - height
        } else {
            0
        };
        let required_shift: usize = if over < height {
            over
        } else {
            height
        };
        if required_shift > 0 {
            self.scroll(required_shift);
        }
        self.line = self.line - required_shift;
        let fg = level_colour(self.current_level);
        self.write_chars(text, start_char, fg);
    }

    /// Write the message `text` of level `level`.
    pub fn log(&mut self, level: LogLevel, text: &str)
        requires
            old(self).wf(),
            old(self).line_spec() + text@.len() <= usize::MAX,
            shift_for(
                old(self).line_spec(),
                scan(text@, text@.len() as int, old(self).col_spec(), old(self).width_spec(), old(self).height_spec()).1,
                old(self).height_spec(),
            ) <= old(self).line_spec(),
        ensures
            final(self).wf(),
            final(self).level_spec() == level,
            final(self).width_spec() == old(self).width_spec(),
            final(self).height_spec() == old(self).height_spec(),
            ({
                let w = old(self).width_spec();
                let h = old(self).height_spec();
                let (_, lines, start) = scan(text@, text@.len() as int, old(self).col_spec(), w, h);
                let shift = shift_for(old(self).line_spec(), lines, h);
                let cells = if shift > 0 {
                    scrolled(old(self).cells_spec(), w, h, shift, old(self).line_spec())
                } else {
                    old(self).cells_spec()
                };
                (final(self).cells_spec(), final(self).line_spec(), final(self).col_spec()) == put_chars(
                    (cells, old(self).line_spec() - shift, old(self).col_spec()),
                    w,
                    h,
                    colour_of(level),
                    text@.subrange(start, text@.len() as int),
                )
            }),
    {
        self.current_level = level;
        self.write_str(text);
    }
}

/// The counts of a scan stay within the characters scanned.
pub proof fn lemma_scan_bounds(text: Seq<char>, n: int, col0: int, width: int, height: int)
    requires
        0 <= n <= text.len(),
    ensures
        0 <= scan(text, n, col0, width, height).1 <= n,
        0 <= scan(text, n, col0, width, height).2 <= n,
    decreases n,
{
    if n > 0 {
        lemma_scan_bounds(text, n - 1, col0, width, height);
    }
}

impl BufferData {
    /// Whether `text` can be written: the cursor's row plus the characters stay within a
    /// `usize`, and the text does not need more scrolling than there are rows above the
    /// cursor.
    pub fn can_write(&self, text: &str) -> (r: bool)
        requires
            self.wf(),
        ensures
            r == (self.line_spec() + text@.len() <= usize::MAX && shift_for(
                self.line_spec(),
                scan(text@, text@.len() as int, self.col_spec(), self.width_spec(), self.height_spec()).1,
                self.height_spec(),
            ) <= self.line_spec()),
    {
        let n: usize = text.unicode_len();
        if n > usize::MAX - self.line {
            return false;
        }
        let width: usize = self.buffer.width();
        let height: usize = self.buffer.height();
        let (_, lines, _) = Self::count_lines(text, self.col, width, height);
        proof {
            lemma_scan_bounds(text@, text@.len() as int, self.col as int, width as int, height as int);
        }
        let total: usize = self.line + lines;
        let over: usize = if total > height {
            total - height
        } else {
            0
        };
        let shift: usize = if over < height {
            over
        } else {
            height
        };
        shift <= self.line
    }
}

} // verus!
