//! Options for printing tables and aligned lists in a terminal.

use vstd::prelude::*;
use vstd::string::{StrSliceExecFns, StringExecFns};

verus! {

#[derive(Clone, Copy, Debug, PartialEq, Eq, Structural)]
pub enum AnsiiColor {
    Plain,
    Red,
    Yellow,
    Green,
    Cyan,
    Blue,
    Magenta,
}

/// The SGR parameter that selects a color.
pub open spec fn color_code(c: AnsiiColor) -> Seq<char> {
    match c {
        AnsiiColor::Plain => seq!['0'],
        AnsiiColor::Red => seq!['3', '1'],
        AnsiiColor::Yellow => seq!['3', '3'],
        AnsiiColor::Green => seq!['3', '2'],
        AnsiiColor::Cyan => seq!['3', '5'],
        AnsiiColor::Blue => seq!['3', '4'],
        AnsiiColor::Magenta => seq!['3', '6'],
    }
}

impl AnsiiColor {
    /// The SGR parameter that selects this color.
    pub fn code(&self) -> (r: &'static str)
        ensures
            r@ == color_code(*self),
    {
        proof {
            reveal_strlit("0");
            reveal_strlit("31");
            reveal_strlit("33");
            reveal_strlit("32");
            reveal_strlit("35");
            reveal_strlit("34");
            reveal_strlit("36");
        }
        proof {
            assert("0"@ =~= seq!['0']);
            assert("31"@ =~= seq!['3', '1']);
            assert("33"@ =~= seq!['3', '3']);
            assert("32"@ =~= seq!['3', '2']);
            assert("35"@ =~= seq!['3', '5']);
            assert("34"@ =~= seq!['3', '4']);
            assert("36"@ =~= seq!['3', '6']);
        }
        match self {
            AnsiiColor::Plain => "0",
            AnsiiColor::Red => "31",
            AnsiiColor::Yellow => "33",
            AnsiiColor::Green => "32",
            AnsiiColor::Cyan => "35",
            AnsiiColor::Blue => "34",
            AnsiiColor::Magenta => "36",
        }
    }
}

impl Default for AnsiiColor {
    fn default() -> (r: Self)
        ensures
            r == AnsiiColor::Plain,
    {
        AnsiiColor::Plain
    }
}

#[derive(Clone, Copy, Debug, PartialEq, Eq, Structural)]
pub struct ColorOptions {
    pub headers: AnsiiColor,
    pub lines: AnsiiColor,
}

#[derive(Clone, Copy, Debug, PartialEq, Eq, Structural)]
pub struct TableCapOptions {
    pub dr: char,
    pub dl: char,
    pub ur: char,
    pub ul: char,
    pub hd: char,
    pub hu: char,
}

/// The characters a table is drawn with; `caps` draws the top and bottom
/// border.
#[derive(Clone, Copy, Debug, PartialEq, Eq, Structural)]
pub struct TableCharOptions {
    pub caps: Option<TableCapOptions>,
    pub v: char,
    pub h: char,
    pub vr: char,
    pub vl: char,
    pub hv: char,
}

impl TableCharOptions {
    /// Box-drawing characters with square corners.
    pub fn sharp() -> (r: Self)
        ensures
            r == (TableCharOptions {
                caps: Some(TableCapOptions { dr: '┌', dl: '┐', ur: '└', ul: '┘', hd: '┬', hu: '┴' }),
                v: '│',
                h: '─',
                vr: '├',
                vl: '┤',
                hv: '┼',
            }),
    {
        TableCharOptions {
            caps: Some(TableCapOptions { dr: '┌', dl: '┐', ur: '└', ul: '┘', hd: '┬', hu: '┴' }),
            v: '│',
            h: '─',
            vr: '├',
            vl: '┤',
            hv: '┼',
        }
    }

    /// Box-drawing characters with rounded corners.
    pub fn rounded() -> (r: Self)
        ensures
            r == (TableCharOptions {
                caps: Some(TableCapOptions { dr: '╭', dl: '╮', ur: '╰', ul: '╯', hd: '┬', hu: '┴' }),
                v: '│',
                h: '─',
                vr: '├',
                vl: '┤',
                hv: '┼',
            }),
    {
        TableCharOptions {
            caps: Some(TableCapOptions { dr: '╭', dl: '╮', ur: '╰', ul: '╯', hd: '┬', hu: '┴' }),
            v: '│',
            h: '─',
            vr: '├',
            vl: '┤',
            hv: '┼',
        }
    }

    /// Plain ASCII in the shape of a Markdown table, without borders.
    pub fn ascii_markdown() -> (r: Self)
        ensures
            r == (TableCharOptions { caps: None, v: '|', h: '-', vr: '|', vl: '|', hv: '|' }),
    {
        TableCharOptions { caps: None, v: '|', h: '-', vr: '|', vl: '|', hv: '|' }
    }
}

impl Default for TableCharOptions {
    fn default() -> (r: Self)
        ensures
            r == (TableCharOptions { caps: None, v: '|', h: '-', vr: '|', vl: '|', hv: '|' }),
    {
        Self::ascii_markdown()
    }
}

#[derive(Clone, Copy, Debug, PartialEq, Eq, Structural)]
pub struct TablePrintOptions {
    pub colors: Option<ColorOptions>,
    pub chars: TableCharOptions,
}

impl Default for TablePrintOptions {
    fn default() -> (r: Self)
        ensures
            r == (TablePrintOptions { colors: None, chars: TableCharOptions { caps: None, v: '|', h: '-', vr: '|', vl: '|', hv: '|' } }),
    {
        TablePrintOptions { colors: None, chars: TableCharOptions::ascii_markdown() }
    }
}

/// Columns under headers.
#[derive(Clone, Debug)]
pub struct Table<K, V> {
    pub keys: Vec<K>,
    pub columns: Vec<Vec<V>>,
    pub options: TablePrintOptions,
}

impl<K, V> Table<K, V> {
    /// A table with default options.
    pub fn new(keys: Vec<K>, columns: Vec<Vec<V>>) -> (r: Self)
        ensures
            r.keys == keys,
            r.columns == columns,
            r.options == (TablePrintOptions { colors: None, chars: TableCharOptions { caps: None, v: '|', h: '-', vr: '|', vl: '|', hv: '|' } }),
    {
        Table { keys, columns, options: TablePrintOptions::default() }
    }

    /// Replaces the print options.
    pub fn with_options(&mut self, options: TablePrintOptions) -> (r: &mut Self)
        ensures
            (*r).options == options,
            (*r).keys == old(self).keys,
            (*r).columns == old(self).columns,
            *final(self) == *final(r),
    {
        self.options = options;
        self
    }
}

#[derive(Clone, Debug)]
pub struct ListPrintOptions {
    pub bullet: String,
    pub colors: Option<ColorOptions>,
}

impl Default for ListPrintOptions {
    fn default() -> (r: Self)
        ensures
            r.bullet@ == seq!['-', '>', ' '],
            r.colors is None,
    {
        proof {
            reveal_strlit("-> ");
        }
        ListPrintOptions { bullet: "-> ".to_owned(), colors: None }
    }
}

/// Key-value pairs printed one per line with aligned separators.
#[derive(Clone, Debug)]
pub struct AlignedList<K, V> {
    pub keys: Vec<K>,
    pub vals: Vec<V>,
    pub options: ListPrintOptions,
}

impl<K, V> AlignedList<K, V> {
    /// A list with default options.
    pub fn new(keys: Vec<K>, vals: Vec<V>) -> (r: Self)
        ensures
            r.keys == keys,
            r.vals == vals,
            r.options.bullet@ == seq!['-', '>', ' '],
            r.options.colors is None,
    {
        AlignedList { keys, vals, options: ListPrintOptions::default() }
    }

    /// Replaces the print options.
    pub fn with_options(&mut self, options: ListPrintOptions) -> (r: &mut Self)
        ensures
            (*r).options == options,
            (*r).keys == old(self).keys,
            (*r).vals == old(self).vals,
            *final(self) == *final(r),
    {
        self.options = options;
        self
    }
}

/// Relies on `String::push`: the character is appended.
#[verifier::external_body]
pub(crate) fn push_char(out: &mut String, c: char)
    ensures
        final(out)@ == old(out)@.push(c),
{
    out.push(c);
}

pub open spec fn repeat_char(c: char, n: int) -> Seq<char> {
    Seq::new(n as nat, |_i: int| c)
}

fn push_repeat(out: &mut String, c: char, n: usize)
    ensures
        final(out)@ == old(out)@ + repeat_char(c, n as int),
{
    let ghost start = out@;
    let mut i: usize = 0;
    while i < n
        invariant
            i <= n,
            out@ == start + repeat_char(c, i as int),
        decreases n - i,
    {
        push_char(out, c);
        proof {
            assert(start + repeat_char(c, i + 1) =~= (start + repeat_char(c, i as int)).push(c));
        }
        i += 1;
    }
}

/// The escape sequence that selects a color.
pub open spec fn escape_text(c: AnsiiColor) -> Seq<char> {
    seq!['\u{1b}', '['] + color_code(c) + seq!['m']
}

fn escape(c: AnsiiColor) -> (r: String)
    ensures
        r@ == escape_text(c),
{
    proof {
        reveal_strlit("\u{1b}[");
        reveal_strlit("m");
        assert("\u{1b}["@ =~= seq!['\u{1b}', '[']);
        assert("m"@ =~= seq!['m']);
    }
    let mut out = String::new();
    out.append("\u{1b}[");
    out.append(c.code());
    out.append("m");
    proof {
        assert(out@ =~= escape_text(c));
    }
    out
}

/// The escape sequences for headers, lines and reset; empty without colors.
pub open spec fn color_texts(colors: Option<ColorOptions>) -> (Seq<char>, Seq<char>, Seq<char>) {
    match colors {
        Some(co) => (escape_text(co.headers), escape_text(co.lines), escape_text(AnsiiColor::Plain)),
        None => (Seq::empty(), Seq::empty(), Seq::empty()),
    }
}

fn colors_of(colors: Option<ColorOptions>) -> (r: (String, String, String))
    ensures
        (r.0@, r.1@, r.2@) == color_texts(colors),
{
    match colors {
        Some(co) => (escape(co.headers), escape(co.lines), escape(AnsiiColor::Plain)),
        None => (String::new(), String::new(), String::new()),
    }
}

/// The width of a column: its widest cell or header, in characters.
pub open spec fn column_width(key: Seq<char>, col: Seq<Seq<char>>) -> int
    decreases col.len(),
{
    if col.len() == 0 {
        key.len() as int
    } else {
        let w = column_width(key, col.drop_last());
        if col.last().len() > w {
            col.last().len() as int
        } else {
            w
        }
    }
}

proof fn lemma_column_width(key: Seq<char>, col: Seq<Seq<char>>)
    ensures
        column_width(key, col) >= key.len(),
        forall|r: int| 0 <= r < col.len() ==> column_width(key, col) >= (#[trigger] col[r]).len(),
        column_width(key, col) == key.len() || exists|r: int| 0 <= r < col.len() && column_width(key, col) == (#[trigger] col[r]).len(),
    decreases col.len(),
{
    if col.len() > 0 {
        let p = col.drop_last();
        lemma_column_width(key, p);
        assert forall|r: int| 0 <= r < col.len() implies column_width(key, col) >= (#[trigger] col[r]).len() by {
            if r < p.len() {
                assert(col[r] == p[r]);
            }
        }
        if column_width(key, col) != key.len() && column_width(key, col) != col.last().len() {
            let r = choose|r: int| 0 <= r < p.len() && column_width(key, p) == (#[trigger] p[r]).len();
            assert(col[r] == p[r]);
        }
    }
}

/// A border line: a corner or junction, then the rule over each column.
pub open spec fn rule_line(ws: Seq<int>, first: char, mid: char, h: char, n: int) -> Seq<char>
    decreases n,
{
    if n <= 0 {
        Seq::empty()
    } else {
        rule_line(ws, first, mid, h, n - 1) + seq![
            if n - 1 == 0 {
                first
            } else {
                mid
            },
        ] + repeat_char(h, ws[n - 1]) + seq![h, h]
    }
}

/// One cell: the text padded to the column width, between spaces, then the
/// vertical line.
pub open spec fn cell(text: Seq<char>, w: int, before: Seq<char>, after: Seq<char>, v: char) -> Seq<char> {
    seq![' '] + before + text + repeat_char(' ', w - text.len()) + seq![' '] + after + seq![v]
}

pub open spec fn cells(texts: Seq<Seq<char>>, ws: Seq<int>, before: Seq<char>, after: Seq<char>, v: char, n: int) -> Seq<char>
    decreases n,
{
    if n <= 0 {
        Seq::empty()
    } else {
        cells(texts, ws, before, after, v, n - 1) + cell(texts[n - 1], ws[n - 1], before, after, v)
    }
}

/// The number of rows: the length of the longest column.
pub open spec fn max_rows(cols: Seq<Seq<Seq<char>>>) -> int
    decreases cols.len(),
{
    if cols.len() == 0 {
        0
    } else {
        let m = max_rows(cols.drop_last());
        if cols.last().len() > m {
            cols.last().len() as int
        } else {
            m
        }
    }
}

pub open spec fn row_texts(cols: Seq<Seq<Seq<char>>>, r: int) -> Seq<Seq<char>> {
    Seq::new(cols.len(), |i: int| cols[i][r])
}

pub open spec fn rows_text(
    cols: Seq<Seq<Seq<char>>>,
    ws: Seq<int>,
    line: Seq<char>,
    reset: Seq<char>,
    v: char,
    n: int,
) -> Seq<char>
    decreases n,
{
    if n <= 0 {
        Seq::empty()
    } else {
        rows_text(cols, ws, line, reset, v, n - 1) + seq!['\n'] + line + seq![v] + cells(
            row_texts(cols, n - 1),
            ws,
            reset,
            line,
            v,
            ws.len() as int,
        )
    }
}

pub open spec fn keys_view(t: Table<String, String>) -> Seq<Seq<char>> {
    t.keys@.map_values(|k: String| k@)
}

pub open spec fn columns_view(t: Table<String, String>) -> Seq<Seq<Seq<char>>> {
    t.columns@.map_values(|c: Vec<String>| c@.map_values(|s: String| s@))
}

/// The column widths of a table.
pub open spec fn widths(t: Table<String, String>) -> Seq<int> {
    Seq::new(keys_view(t).len(), |i: int| column_width(keys_view(t)[i], columns_view(t)[i]))
}

/// The text of a table: an optional top border, the headers, a separator,
/// one line per row and an optional bottom border, each column padded to
/// its widest cell.
pub open spec fn table_text(t: Table<String, String>) -> Seq<char> {
    let keys = keys_view(t);
    let cols = columns_view(t);
    let ws = widths(t);
    let c = t.options.chars;
    let (hc, lc, rc) = color_texts(t.options.colors);
    let n = keys.len() as int;
    let top = match c.caps {
        Some(cap) => rule_line(ws, cap.dr, cap.hd, c.h, n) + seq![cap.dl, '\n'],
        None => Seq::empty(),
    };
    let header = seq![c.v] + cells(keys, ws, hc, lc, c.v, n) + seq!['\n'];
    let separator = rule_line(ws, c.vr, c.hv, c.h, n) + seq![c.vl] + rc;
    let rows = rows_text(cols, ws, lc, rc, c.v, max_rows(cols));
    let bottom = match c.caps {
        Some(cap) => seq!['\n'] + rule_line(ws, cap.ur, cap.hu, c.h, n) + seq![cap.ul],
        None => Seq::empty(),
    };
    lc + top + header + separator + rows + bottom + rc
}

fn push_rule(out: &mut String, ws: &Vec<usize>, first: char, mid: char, h: char)
    ensures
        final(out)@ == old(out)@ + rule_line(ws@.map_values(|w: usize| w as int), first, mid, h, ws@.len() as int),
{
    let ghost start = out@;
    let ghost wv = ws@.map_values(|w: usize| w as int);
    let mut i: usize = 0;
    while i < ws.len()
        invariant
            i <= ws@.len(),
            wv == ws@.map_values(|w: usize| w as int),
            out@ == start + rule_line(wv, first, mid, h, i as int),
        decreases ws.len() - i,
    {
        let ghost before = out@;
        push_char(out, if i == 0 { first } else { mid });
        push_repeat(out, h, ws[i]);
        push_char(out, h);
        push_char(out, h);
        proof {
            assert(wv[i as int] == ws@[i as int] as int);
            assert(out@ =~= start + rule_line(wv, first, mid, h, i + 1));
        }
        i += 1;
    }
}

fn push_cell(out: &mut String, text: &str, w: usize, before: &str, after: &str, v: char)
    requires
        text@.len() <= w,
    ensures
        final(out)@ == old(out)@ + cell(text@, w as int, before@, after@, v),
{
    let ghost start = out@;
    let len = text.unicode_len();
    push_char(out, ' ');
    out.append(before);
    out.append(text);
    push_repeat(out, ' ', w - len);
    push_char(out, ' ');
    out.append(after);
    push_char(out, v);
    proof {
        assert(out@ =~= start + cell(text@, w as int, before@, after@, v));
    }
}

impl Table<String, String> {
    /// Whether every column under a header is as long as the longest column.
    pub open spec fn is_complete(&self) -> bool {
        &&& self.columns@.len() >= self.keys@.len()
        &&& forall|i: int| 0 <= i < self.keys@.len() ==> (#[trigger] self.columns@[i])@.len() >= max_rows(columns_view(*self))
    }

    fn column_widths(&self) -> (ws: Vec<usize>)
        requires
            self.columns@.len() >= self.keys@.len(),
        ensures
            ws@.map_values(|w: usize| w as int) == widths(*self),
            ws@.len() == self.keys@.len(),
    {
        let ghost keys = keys_view(*self);
        let ghost cols = columns_view(*self);
        let n = self.keys.len();
        let mut ws: Vec<usize> = Vec::new();
        let mut i: usize = 0;
        while i < n
            invariant
                n == self.keys@.len(),
                self.columns@.len() >= n,
                keys == keys_view(*self),
                cols == columns_view(*self),
                i <= n,
                ws@.len() == i,
                forall|k: int| 0 <= k < i ==> ws@[k] as int == column_width(keys[k], cols[k]),
            decreases n - i,
        {
            let key = &self.keys[i];
            let col = &self.columns[i];
            proof {
                assert(keys[i as int] == key@);
                assert(cols[i as int] == col@.map_values(|s: String| s@));
            }
            let mut w = key.as_str().unicode_len();
            let mut r: usize = 0;
            proof {
                assert(cols[i as int].subrange(0, 0) =~= Seq::<Seq<char>>::empty());
            }
            while r < col.len()
                invariant
                    r <= col@.len(),
                    cols[i as int] == col@.map_values(|s: String| s@),
                    w == column_width(keys[i as int], cols[i as int].subrange(0, r as int)),
                decreases col.len() - r,
            {
                let l = col[r].as_str().unicode_len();
                proof {
                    let sub = cols[i as int].subrange(0, r + 1);
                    assert(sub.drop_last() =~= cols[i as int].subrange(0, r as int));
                    assert(sub.last() == col@[r as int]@);
                }
                if l > w {
                    w = l;
                }
                r += 1;
            }
            proof {
                assert(cols[i as int].subrange(0, col@.len() as int) =~= cols[i as int]);
            }
            ws.push(w);
            i += 1;
        }
        proof {
            assert(ws@.map_values(|w: usize| w as int) =~= widths(*self));
        }
        ws
    }

    fn row_count(&self) -> (m: usize)
        ensures
            m == max_rows(columns_view(*self)),
    {
        let ghost cols = columns_view(*self);
        let mut m: usize = 0;
        let mut k: usize = 0;
        while k < self.columns.len()
            invariant
                k <= self.columns@.len(),
                cols == columns_view(*self),
                m == max_rows(cols.subrange(0, k as int)),
            decreases self.columns.len() - k,
        {
            proof {
                let sub = cols.subrange(0, k + 1);
                assert(sub.drop_last() =~= cols.subrange(0, k as int));
                assert(sub.last() == cols[k as int]);
                assert(cols[k as int].len() == self.columns@[k as int]@.len());
            }
            if self.columns[k].len() > m {
                m = self.columns[k].len();
            }
            k += 1;
        }
        proof {
            assert(cols.subrange(0, self.columns@.len() as int) =~= cols);
        }
        m
    }

    fn push_header(&self, out: &mut String, ws: &Vec<usize>, before: &str, after: &str, v: char)
        requires
            self.columns@.len() >= self.keys@.len(),
            ws@.map_values(|w: usize| w as int) == widths(*self),
            ws@.len() == self.keys@.len(),
        ensures
            final(out)@ == old(out)@ + cells(keys_view(*self), widths(*self), before@, after@, v, self.keys@.len() as int),
    {
        let ghost keys = keys_view(*self);
        let ghost cols = columns_view(*self);
        let ghost wv = widths(*self);
        let ghost start = out@;
        let n = self.keys.len();
        let mut i: usize = 0;
        while i < n
            invariant
                n == self.keys@.len(),
                self.columns@.len() >= n,
                i <= n,
                ws@.len() == n,
                keys == keys_view(*self),
                cols == columns_view(*self),
                wv == ws@.map_values(|w: usize| w as int),
                wv == widths(*self),
                out@ == start + cells(keys, wv, before@, after@, v, i as int),
            decreases n - i,
        {
            proof {
                lemma_column_width(keys[i as int], cols[i as int]);
                assert(keys[i as int] == self.keys@[i as int]@);
                assert(wv[i as int] == ws@[i as int] as int);
            }
            push_cell(out, self.keys[i].as_str(), ws[i], before, after, v);
            i += 1;
        }
    }

    fn push_row(&self, out: &mut String, ws: &Vec<usize>, r: usize, before: &str, after: &str, v: char)
        requires
            self.is_complete(),
            r < max_rows(columns_view(*self)),
            ws@.map_values(|w: usize| w as int) == widths(*self),
            ws@.len() == self.keys@.len(),
        ensures
            final(out)@ == old(out)@ + cells(row_texts(columns_view(*self), r as int), widths(*self), before@, after@, v, self.keys@.len() as int),
    {
        let ghost keys = keys_view(*self);
        let ghost cols = columns_view(*self);
        let ghost wv = widths(*self);
        let ghost start = out@;
        let n = self.keys.len();
        let mut i: usize = 0;
        while i < n
            invariant
                n == self.keys@.len(),
                i <= n,
                self.is_complete(),
                r < max_rows(cols),
                ws@.len() == n,
                keys == keys_view(*self),
                cols == columns_view(*self),
                wv == ws@.map_values(|w: usize| w as int),
                wv == widths(*self),
                out@ == start + cells(row_texts(cols, r as int), wv, before@, after@, v, i as int),
            decreases n - i,
        {
            proof {
                assert(self.columns@[i as int]@.len() >= max_rows(cols));
                assert(cols[i as int] == self.columns@[i as int]@.map_values(|s: String| s@));
                lemma_column_width(keys[i as int], cols[i as int]);
                assert(cols[i as int][r as int] == self.columns@[i as int]@[r as int]@);
                assert(row_texts(cols, r as int)[i as int] == cols[i as int][r as int]);
                assert(wv[i as int] == ws@[i as int] as int);
            }
            push_cell(out, self.columns[i][r].as_str(), ws[i], before, after, v);
            i += 1;
        }
    }

    /// The table as text.
    #[verifier::rlimit(60)]
    pub fn render(&self) -> (r: String)
        requires
            self.is_complete(),
        ensures
            r@ == table_text(*self),
    {
        let ghost cols = columns_view(*self);
        let ghost wv = widths(*self);
        let ws = self.column_widths();
        let total_rows = self.row_count();
        let c = self.options.chars;
        let (hc, lc, rc) = colors_of(self.options.colors);
        let ghost n = self.keys@.len() as int;
        let ghost keys = keys_view(*self);
        let mut out = lc.clone();
        match c.caps {
            Some(cap) => {
                push_rule(&mut out, &ws, cap.dr, cap.hd, c.h);
                push_char(&mut out, cap.dl);
                push_char(&mut out, '\n');
            },
            None => {},
        }
        let ghost t1 = out@;
        push_char(&mut out, c.v);
        self.push_header(&mut out, &ws, hc.as_str(), lc.as_str(), c.v);
        push_char(&mut out, '\n');
        let ghost t2 = out@;
        push_rule(&mut out, &ws, c.vr, c.hv, c.h);
        push_char(&mut out, c.vl);
        out.append(rc.as_str());
        let ghost t3 = out@;
        proof {
            assert(t2 =~= t1 + (seq![c.v] + cells(keys, wv, hc@, lc@, c.v, n) + seq!['\n']));
            assert(t3 =~= t2 + (rule_line(wv, c.vr, c.hv, c.h, n) + seq![c.vl] + rc@));
        }
        let mut r: usize = 0;
        while r < total_rows
            invariant
                r <= total_rows,
                total_rows == max_rows(cols),
                self.is_complete(),
                cols == columns_view(*self),
                wv == widths(*self),
                ws@.map_values(|w: usize| w as int) == wv,
                ws@.len() == self.keys@.len(),
                out@ == t3 + rows_text(cols, wv, lc@, rc@, c.v, r as int),
            decreases total_rows - r,
        {
            push_char(&mut out, '\n');
            out.append(lc.as_str());
            push_char(&mut out, c.v);
            self.push_row(&mut out, &ws, r, rc.as_str(), lc.as_str(), c.v);
            proof {
                assert(wv.len() == self.keys@.len());
                assert(out@ =~= t3 + rows_text(cols, wv, lc@, rc@, c.v, r + 1));
            }
            r += 1;
        }
        let ghost t4 = out@;
        match c.caps {
            Some(cap) => {
                push_char(&mut out, '\n');
                push_rule(&mut out, &ws, cap.ur, cap.hu, c.h);
                push_char(&mut out, cap.ul);
            },
            None => {},
        }
        let ghost t5 = out@;
        out.append(rc.as_str());
        proof {
            let top = match c.caps {
                Some(cap) => rule_line(wv, cap.dr, cap.hd, c.h, n) + seq![cap.dl, '\n'],
                None => Seq::empty(),
            };
            let bottom = match c.caps {
                Some(cap) => seq!['\n'] + rule_line(wv, cap.ur, cap.hu, c.h, n) + seq![cap.ul],
                None => Seq::empty(),
            };
            assert(t1 =~= lc@ + top);
            assert(t5 =~= t4 + bottom);
            assert(color_texts(self.options.colors) == (hc@, lc@, rc@));
        }
        out
    }
}

/// The key-value pairs among the first `n` whose value is not empty.
pub open spec fn kept_pairs(keys: Seq<Seq<char>>, vals: Seq<Seq<char>>, n: int) -> Seq<(Seq<char>, Seq<char>)>
    decreases n,
{
    if n <= 0 {
        Seq::empty()
    } else {
        let p = kept_pairs(keys, vals, n - 1);
        if vals[n - 1].len() > 0 {
            p.push((keys[n - 1], vals[n - 1]))
        } else {
            p
        }
    }
}

/// The widest key of the pairs, in characters.
pub open spec fn key_width(pairs: Seq<(Seq<char>, Seq<char>)>) -> int
    decreases pairs.len(),
{
    if pairs.len() == 0 {
        0
    } else {
        let w = key_width(pairs.drop_last());
        if pairs.last().0.len() > w {
            pairs.last().0.len() as int
        } else {
            w
        }
    }
}

proof fn lemma_key_width(pairs: Seq<(Seq<char>, Seq<char>)>)
    ensures
        forall|i: int| 0 <= i < pairs.len() ==> key_width(pairs) >= (#[trigger] pairs[i]).0.len(),
        key_width(pairs) >= 0,
    decreases pairs.len(),
{
    if pairs.len() > 0 {
        let p = pairs.drop_last();
        lemma_key_width(p);
        assert forall|i: int| 0 <= i < pairs.len() implies key_width(pairs) >= (#[trigger] pairs[i]).0.len() by {
            if i < p.len() {
                assert(pairs[i] == p[i]);
            }
        }
    }
}

/// The first `n` lines of a list: bullet, key padded to `w`, `: ` and value.
pub open spec fn list_lines(
    pairs: Seq<(Seq<char>, Seq<char>)>,
    w: int,
    bullet: Seq<char>,
    texts: (Seq<char>, Seq<char>, Seq<char>),
    n: int,
) -> Seq<char>
    decreases n,
{
    if n <= 0 {
        Seq::empty()
    } else {
        let (hc, lc, rc) = texts;
        let (k, v) = pairs[n - 1];
        list_lines(pairs, w, bullet, texts, n - 1) + (if n - 1 == 0 {
            Seq::empty()
        } else {
            seq!['\n']
        }) + lc + bullet + hc + k + repeat_char(' ', w - k.len()) + seq![' '] + lc + seq![':', ' '] + rc + v
    }
}

/// The text of a list: one line per pair whose value is not empty, keys
/// padded to the widest of them.
pub open spec fn list_text(l: AlignedList<String, String>) -> Seq<char> {
    let keys = l.keys@.map_values(|k: String| k@);
    let vals = l.vals@.map_values(|v: String| v@);
    let m = if keys.len() < vals.len() {
        keys.len() as int
    } else {
        vals.len() as int
    };
    let pairs = kept_pairs(keys, vals, m);
    list_lines(pairs, key_width(pairs), l.options.bullet@, color_texts(l.options.colors), pairs.len() as int)
}

impl AlignedList<String, String> {
    /// The list as text.
    pub fn render(&self) -> (r: String)
        ensures
            r@ == list_text(*self),
    {
        let ghost keys = self.keys@.map_values(|k: String| k@);
        let ghost vals = self.vals@.map_values(|v: String| v@);
        let m = if self.keys.len() < self.vals.len() {
            self.keys.len()
        } else {
            self.vals.len()
        };
        let ghost pairs = kept_pairs(keys, vals, m as int);
        let mut w: usize = 0;
        let mut i: usize = 0;
        while i < m
            invariant
                m <= self.keys@.len(),
                m <= self.vals@.len(),
                i <= m,
                keys == self.keys@.map_values(|k: String| k@),
                vals == self.vals@.map_values(|v: String| v@),
                w == key_width(kept_pairs(keys, vals, i as int)),
            decreases m - i,
        {
            proof {
                assert(keys[i as int] == self.keys@[i as int]@);
                assert(vals[i as int] == self.vals@[i as int]@);
            }
            if self.vals[i].as_str().unicode_len() > 0 {
                let l = self.keys[i].as_str().unicode_len();
                proof {
                    let p = kept_pairs(keys, vals, i as int);
                    let p2 = p.push((keys[i as int], vals[i as int]));
                    assert(p2.drop_last() =~= p);
                }
                if l > w {
                    w = l;
                }
            }
            i += 1;
        }
        let (hc, lc, rc) = colors_of(self.options.colors);
        let ghost texts = (hc@, lc@, rc@);
        proof {
            lemma_key_width(pairs);
            assert(kept_pairs(keys, vals, 0) == pairs.subrange(0, 0)) by {
                assert(pairs.subrange(0, 0) =~= Seq::<(Seq<char>, Seq<char>)>::empty());
            }
        }
        let mut out = String::new();
        let mut count: usize = 0;
        let mut i: usize = 0;
        while i < m
            invariant
                m <= self.keys@.len(),
                m <= self.vals@.len(),
                i <= m,
                keys == self.keys@.map_values(|k: String| k@),
                vals == self.vals@.map_values(|v: String| v@),
                pairs == kept_pairs(keys, vals, m as int),
                w == key_width(pairs),
                forall|j: int| 0 <= j < pairs.len() ==> w >= (#[trigger] pairs[j]).0.len(),
                count == kept_pairs(keys, vals, i as int).len(),
                kept_pairs(keys, vals, i as int) == pairs.subrange(0, count as int),
                count <= pairs.len(),
                texts == (hc@, lc@, rc@),
                out@ == list_lines(pairs, w as int, self.options.bullet@, texts, count as int),
            decreases m - i,
        {
            proof {
                assert(keys[i as int] == self.keys@[i as int]@);
                assert(vals[i as int] == self.vals@[i as int]@);
                lemma_kept_prefix(keys, vals, i as int + 1, m as int);
            }
            if self.vals[i].as_str().unicode_len() > 0 {
                let ghost before = out@;
                proof {
                    assert(kept_pairs(keys, vals, i + 1) == kept_pairs(keys, vals, i as int).push((keys[i as int], vals[i as int])));
                    assert(kept_pairs(keys, vals, i + 1)[count as int] == (keys[i as int], vals[i as int]));
                    assert(count < pairs.len());
                    lemma_kept_len(keys, vals, m as int);
                    assert(pairs[count as int] == (keys[i as int], vals[i as int]));
                }
                if count > 0 {
                    push_char(&mut out, '\n');
                }
                out.append(lc.as_str());
                out.append(self.options.bullet.as_str());
                out.append(hc.as_str());
                let k = self.keys[i].as_str();
                out.append(k);
                push_repeat(&mut out, ' ', w - k.unicode_len());
                push_char(&mut out, ' ');
                out.append(lc.as_str());
                push_char(&mut out, ':');
                push_char(&mut out, ' ');
                out.append(rc.as_str());
                out.append(self.vals[i].as_str());
                proof {
                    assert(out@ =~= list_lines(pairs, w as int, self.options.bullet@, texts, count + 1));
                    assert(pairs.subrange(0, count + 1) =~= pairs.subrange(0, count as int).push(pairs[count as int]));
                }
                count += 1;
            }
            i += 1;
        }
        proof {
            assert(pairs.subrange(0, count as int) =~= pairs);
            assert(color_texts(self.options.colors) == texts);
        }
        out
    }
}

proof fn lemma_kept_len(keys: Seq<Seq<char>>, vals: Seq<Seq<char>>, n: int)
    requires
        0 <= n,
    ensures
        kept_pairs(keys, vals, n).len() <= n,
    decreases n,
{
    if n > 0 {
        lemma_kept_len(keys, vals, n - 1);
    }
}

/// The kept pairs of a shorter prefix are a prefix of the kept pairs.
proof fn lemma_kept_prefix(keys: Seq<Seq<char>>, vals: Seq<Seq<char>>, i: int, m: int)
    requires
        0 <= i <= m,
    ensures
        kept_pairs(keys, vals, i).len() <= kept_pairs(keys, vals, m).len(),
        kept_pairs(keys, vals, i) == kept_pairs(keys, vals, m).subrange(0, kept_pairs(keys, vals, i).len() as int),
    decreases m - i,
{
    if i < m {
        lemma_kept_prefix(keys, vals, i, m - 1);
        let p = kept_pairs(keys, vals, m - 1);
        let q = kept_pairs(keys, vals, m);
        assert(p =~= q.subrange(0, p.len() as int));
    } else {
        let q = kept_pairs(keys, vals, m);
        assert(q.subrange(0, q.len() as int) =~= q);
    }
}

} // verus!
