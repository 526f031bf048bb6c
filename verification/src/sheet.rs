//! Spreadsheets: one line per cell, one line per row, or one line per sheet.

use vstd::prelude::*;

use crate::options::{keys_for, opt_text, same_text, Keys, Options};
use crate::text::{
    append_chars, chars_of, col_spec, decimal, esc_spec, lemma_decimal_one_line, lemma_esc_one_line,
    lemma_one_line_concat, one_line, push_all, push_column, push_decimal, push_escaped, push_str,
};

verus! {

/// The used range of a worksheet, with every cell already rendered as text.
pub struct Grid {
    /// Zero-based row and column of the top-left cell; `None` for an empty range.
    pub start: Option<(u32, u32)>,
    /// Number of rows of the range.
    pub height: usize,
    /// Number of columns of the range.
    pub width: usize,
    /// The rows, top to bottom, each cell left to right; `None` for an empty cell.
    pub rows: Vec<Vec<Option<String>>>,
}

/// One worksheet: its name, and its range or why it could not be read.
pub struct Sheet {
    pub name: String,
    pub content: Result<Grid, String>,
}

/// A workbook: its sheets in workbook order.
pub struct Workbook {
    pub sheets: Vec<Sheet>,
}

/// Whether the sheet filter lets the sheet `name` through.
pub open spec fn selected(filter: Option<Seq<char>>, name: Seq<char>) -> bool {
    match filter {
        Some(f) => f == name,
        None => true,
    }
}

/// Whether the options let the sheet of this name through: every sheet, or
/// the one that `--sheet` names.
pub fn sheet_selected(opts: &Options, name: &str) -> (res: bool)
    ensures
        res == selected(opt_text(opts.sheet), name@),
{
    match &opts.sheet {
        Some(only) => same_text(only.as_str(), name),
        None => true,
    }
}

/// The number of non-empty cells of a row.
pub open spec fn row_filled(row: Seq<Option<String>>) -> nat
    decreases row.len(),
{
    if row.len() == 0 {
        0
    } else {
        row_filled(row.drop_last()) + if row.last() is Some { 1nat } else { 0nat }
    }
}

/// The number of non-empty cells of a range.
pub open spec fn filled(rows: Seq<Vec<Option<String>>>) -> nat
    decreases rows.len(),
{
    if rows.len() == 0 {
        0
    } else {
        filled(rows.drop_last()) + row_filled(rows.last()@)
    }
}

/// Non-empty cells are counted one by one: a cell counts one when it holds
/// a value and nothing when it is empty, and two runs of cells together
/// count what each counts.
pub proof fn the_cells_of_a_row_add_up(a: Seq<Option<String>>, b: Seq<Option<String>>)
    ensures
        row_filled(a + b) == row_filled(a) + row_filled(b),
        forall|c: Option<String>| #[trigger] row_filled(seq![c]) == if c is Some { 1nat } else { 0nat },
        row_filled(Seq::<Option<String>>::empty()) == 0,
    decreases b.len(),
{
    assert forall|c: Option<String>| #[trigger] row_filled(seq![c]) == if c is Some { 1nat } else { 0nat } by {
        let one = seq![c];
        assert(one.drop_last() =~= Seq::<Option<String>>::empty());
        assert(row_filled(one.drop_last()) == 0);
        assert(one.last() == c);
        assert(row_filled(one) == row_filled(one.drop_last()) + if one.last() is Some { 1nat } else { 0nat });
    }
    if b.len() == 0 {
        assert(a + b =~= a);
    } else {
        the_cells_of_a_row_add_up(a, b.drop_last());
        assert((a + b).drop_last() =~= a + b.drop_last());
        assert((a + b).last() == b.last());
    }
}

/// The `--list` count is that of all non-empty cells over all rows: a row
/// counts its own non-empty cells, and two runs of rows together count what
/// each counts.
pub proof fn the_cells_of_a_range_add_up(a: Seq<Vec<Option<String>>>, b: Seq<Vec<Option<String>>>)
    ensures
        filled(a + b) == filled(a) + filled(b),
        forall|r: Vec<Option<String>>| #[trigger] filled(seq![r]) == row_filled(r@),
        filled(Seq::<Vec<Option<String>>>::empty()) == 0,
    decreases b.len(),
{
    assert forall|r: Vec<Option<String>>| #[trigger] filled(seq![r]) == row_filled(r@) by {
        let one = seq![r];
        assert(one.drop_last() =~= Seq::<Vec<Option<String>>>::empty());
        assert(filled(one.drop_last()) == 0);
        assert(one.last() == r);
        assert(filled(one) == filled(one.drop_last()) + row_filled(one.last()@));
    }
    if b.len() == 0 {
        assert(a + b =~= a);
    } else {
        the_cells_of_a_range_add_up(a, b.drop_last());
        assert((a + b).drop_last() =~= a + b.drop_last());
        assert((a + b).last() == b.last());
    }
}

/// The line that `--list` gives a sheet: name, dimensions, non-empty cells.
pub open spec fn list_line(name: Seq<char>, g: Grid) -> Seq<char> {
    name + "\t"@ + decimal(g.height as nat) + "x"@ + decimal(g.width as nat) + "\t"@ + decimal(
        filled(g.rows@),
    ) + " cells\n"@
}

/// The entry of a cell in a row line: tab, column, `=`, escaped value.
pub open spec fn row_entry(col: nat, cell: Option<String>) -> Seq<char> {
    match cell {
        Some(v) => "\t"@ + col_spec(col) + "="@ + esc_spec(v@),
        None => Seq::empty(),
    }
}

/// The entries of the non-empty cells of a row whose first cell is in column `c0`.
pub open spec fn row_entries(row: Seq<Option<String>>, c0: nat) -> Seq<char>
    decreases row.len(),
{
    if row.len() == 0 {
        Seq::empty()
    } else {
        row_entries(row.drop_last(), c0) + row_entry((c0 + row.len() - 1) as nat, row.last())
    }
}

/// With content keys a row is one line: the sheet name and the entries of
/// its non-empty cells; a row without any gives no line. The row number is
/// not part of it.
pub open spec fn row_line(name: Seq<char>, c0: nat, row: Seq<Option<String>>) -> Seq<char> {
    if row_entries(row, c0).len() == 0 {
        Seq::empty()
    } else {
        name + row_entries(row, c0) + "\n"@
    }
}

/// With address keys every non-empty cell is a line: `Sheet!B62`, tab,
/// escaped value.
pub open spec fn cell_line(name: Seq<char>, row_no: nat, col: nat, cell: Option<String>) -> Seq<char> {
    match cell {
        Some(v) => name + "!"@ + col_spec(col) + decimal(row_no) + "\t"@ + esc_spec(v@) + "\n"@,
        None => Seq::empty(),
    }
}

/// The cell lines of a row numbered `row_no` whose first cell is in column `c0`.
pub open spec fn cell_lines(name: Seq<char>, row_no: nat, c0: nat, row: Seq<Option<String>>) -> Seq<char>
    decreases row.len(),
{
    if row.len() == 0 {
        Seq::empty()
    } else {
        cell_lines(name, row_no, c0, row.drop_last()) + cell_line(name, row_no, (c0 + row.len() - 1) as nat, row.last())
    }
}

/// The lines of the row at offset `ri` of a range starting at `(r0, c0)`.
pub open spec fn row_output(name: Seq<char>, r0: nat, c0: nat, ri: nat, row: Seq<Option<String>>, keys: Keys) -> Seq<char> {
    match keys {
        Keys::Content => row_line(name, c0, row),
        Keys::Address => cell_lines(name, r0 + ri + 1, c0, row),
    }
}

/// The lines of all rows of a range starting at `(r0, c0)`, top to bottom.
pub open spec fn rows_output(name: Seq<char>, r0: nat, c0: nat, rows: Seq<Vec<Option<String>>>, keys: Keys) -> Seq<char>
    decreases rows.len(),
{
    if rows.len() == 0 {
        Seq::empty()
    } else {
        rows_output(name, r0, c0, rows.drop_last(), keys) + row_output(name, r0, c0, (rows.len() - 1) as nat, rows.last()@, keys)
    }
}

/// The top-left corner of a range, `(0, 0)` for an empty one.
pub open spec fn origin(g: Grid) -> (nat, nat) {
    match g.start {
        Some((r, c)) => (r as nat, c as nat),
        None => (0, 0),
    }
}

/// The lines of one sheet: nothing when the filter leaves it out, a marked
/// line when it cannot be read, its list line with `--list`, its rows otherwise.
pub open spec fn sheet_output(s: Sheet, filter: Option<Seq<char>>, list: bool, keys: Keys) -> Seq<char> {
    if !selected(filter, s.name@) {
        Seq::empty()
    } else {
        match s.content {
            Err(e) => "!! sheet "@ + s.name@ + ": "@ + e@ + "\n"@,
            Ok(g) => if list {
                list_line(s.name@, g)
            } else {
                rows_output(s.name@, origin(g).0, origin(g).1, g.rows@, keys)
            },
        }
    }
}

/// The lines of the sheets, in workbook order.
pub open spec fn sheets_output(sheets: Seq<Sheet>, filter: Option<Seq<char>>, list: bool, keys: Keys) -> Seq<char>
    decreases sheets.len(),
{
    if sheets.len() == 0 {
        Seq::empty()
    } else {
        sheets_output(sheets.drop_last(), filter, list, keys) + sheet_output(sheets.last(), filter, list, keys)
    }
}

/// The lines of a workbook under the given options.
pub open spec fn workbook_output(book: Workbook, opts: Options) -> Seq<char> {
    sheets_output(book.sheets@, opt_text(opts.sheet), opts.list, keys_for(opts.row))
}


/// Appends the row line of `row`, whose first cell is in column `c0`.
fn push_row_line(name: &[char], c0: u32, row: &Vec<Option<String>>, buf: &mut Vec<char>)
    ensures
        final(buf)@ == old(buf)@ + row_line(name@, c0 as nat, row@),
{
    let mut ent: Vec<char> = Vec::new();
    let mut ci: usize = 0;
    while ci < row.len()
        invariant
            ci <= row@.len(),
            ent@ == row_entries(row@.take(ci as int), c0 as nat),
        decreases row@.len() - ci,
    {
        let ghost before = ent@;
        match &row[ci] {
            Some(v) => {
                push_str(&mut ent, "\t");
                push_column(&mut ent, c0 as u128 + ci as u128);
                push_str(&mut ent, "=");
                let vc = chars_of(v.as_str());
                push_escaped(&mut ent, vc.as_slice());
            },
            None => {},
        }
        assert(row@.take(ci + 1).drop_last() =~= row@.take(ci as int));
        assert(ent@ =~= before + row_entry((c0 + ci) as nat, row@[ci as int]));
        ci = ci + 1;
    }
    assert(row@.take(row@.len() as int) =~= row@);
    if ent.len() > 0 {
        let ghost start = buf@;
        push_all(buf, name);
        push_all(buf, ent.as_slice());
        push_str(buf, "\n");
        assert(buf@ =~= start + row_line(name@, c0 as nat, row@));
    }
}

/// Appends the cell lines of `row`, numbered `row_no`, whose first cell is in column `c0`.
fn push_cell_lines(name: &[char], row_no: u128, c0: u32, row: &Vec<Option<String>>, buf: &mut Vec<char>)
    ensures
        final(buf)@ == old(buf)@ + cell_lines(name@, row_no as nat, c0 as nat, row@),
{
    let ghost start = buf@;
    let mut ci: usize = 0;
    while ci < row.len()
        invariant
            ci <= row@.len(),
            buf@ == start + cell_lines(name@, row_no as nat, c0 as nat, row@.take(ci as int)),
        decreases row@.len() - ci,
    {
        let ghost before = buf@;
        match &row[ci] {
            Some(v) => {
                push_all(buf, name);
                push_str(buf, "!");
                push_column(buf, c0 as u128 + ci as u128);
                push_decimal(buf, row_no);
                push_str(buf, "\t");
                let vc = chars_of(v.as_str());
                push_escaped(buf, vc.as_slice());
                push_str(buf, "\n");
            },
            None => {},
        }
        assert(row@.take(ci + 1).drop_last() =~= row@.take(ci as int));
        assert(buf@ =~= before + cell_line(name@, row_no as nat, (c0 + ci) as nat, row@[ci as int]));
        ci = ci + 1;
    }
    assert(row@.take(row@.len() as int) =~= row@);
}

/// The number of non-empty cells of `row`.
fn count_filled(row: &Vec<Option<String>>) -> (res: usize)
    ensures
        res == row_filled(row@),
{
    let mut n: usize = 0;
    let mut ci: usize = 0;
    while ci < row.len()
        invariant
            ci <= row@.len(),
            n <= ci,
            n == row_filled(row@.take(ci as int)),
        decreases row@.len() - ci,
    {
        assert(row@.take(ci + 1).drop_last() =~= row@.take(ci as int));
        if row[ci].is_some() {
            n = n + 1;
        }
        ci = ci + 1;
    }
    assert(row@.take(row@.len() as int) =~= row@);
    n
}

/// Appends the `--list` line of a sheet.
fn push_list_line(name: &[char], g: &Grid, buf: &mut Vec<char>)
    ensures
        final(buf)@ == old(buf)@ + list_line(name@, *g),
{
    let mut total: u128 = 0;
    let mut ri: usize = 0;
    while ri < g.rows.len()
        invariant
            ri <= g.rows@.len(),
            total == filled(g.rows@.take(ri as int)),
            total <= ri as int * usize::MAX as int,
        decreases g.rows@.len() - ri,
    {
        assert(g.rows@.take(ri + 1).drop_last() =~= g.rows@.take(ri as int));
        let k = count_filled(&g.rows[ri]);
        assert(total + k <= (ri + 1) as int * usize::MAX as int) by (nonlinear_arith)
            requires
                total <= ri as int * usize::MAX as int,
                k <= usize::MAX;
        assert((ri + 1) as int * usize::MAX as int <= u128::MAX) by (nonlinear_arith)
            requires
                ri < usize::MAX,
                usize::MAX <= u64::MAX;
        total = total + k as u128;
        ri = ri + 1;
    }
    assert(g.rows@.take(g.rows@.len() as int) =~= g.rows@);
    let ghost start = buf@;
    push_all(buf, name);
    push_str(buf, "\t");
    push_decimal(buf, g.height as u128);
    push_str(buf, "x");
    push_decimal(buf, g.width as u128);
    push_str(buf, "\t");
    push_decimal(buf, total);
    push_str(buf, " cells\n");
    assert(buf@ =~= start + list_line(name@, *g));
}

/// Appends the lines of one sheet.
fn push_sheet(s: &Sheet, opts: &Options, buf: &mut Vec<char>)
    ensures
        final(buf)@ == old(buf)@ + sheet_output(*s, opt_text(opts.sheet), opts.list, keys_for(opts.row)),
{
    if !sheet_selected(opts, s.name.as_str()) {
        return;
    }
    let name = chars_of(s.name.as_str());
    let ghost start = buf@;
    match &s.content {
        Err(e) => {
            push_str(buf, "!! sheet ");
            push_all(buf, name.as_slice());
            push_str(buf, ": ");
            push_str(buf, e.as_str());
            push_str(buf, "\n");
            assert(buf@ =~= start + sheet_output(*s, opt_text(opts.sheet), opts.list, keys_for(opts.row)));
        },
        Ok(g) => {
            if opts.list {
                push_list_line(name.as_slice(), g, buf);
            } else {
                let (r0, c0): (u32, u32) = match g.start {
                    Some(rc) => rc,
                    None => (0, 0),
                };
                let keys = opts.keys();
                let mut ri: usize = 0;
                while ri < g.rows.len()
                    invariant
                        ri <= g.rows@.len(),
                        name@ == s.name@,
                        (r0 as nat, c0 as nat) == origin(*g),
                        keys == keys_for(opts.row),
                        buf@ == start + rows_output(name@, r0 as nat, c0 as nat, g.rows@.take(ri as int), keys),
                    decreases g.rows@.len() - ri,
                {
                    let ghost before = buf@;
                    match keys {
                        Keys::Content => push_row_line(name.as_slice(), c0, &g.rows[ri], buf),
                        Keys::Address => push_cell_lines(name.as_slice(), r0 as u128 + ri as u128 + 1, c0, &g.rows[ri], buf),
                    }
                    assert(g.rows@.take(ri + 1).drop_last() =~= g.rows@.take(ri as int));
                    assert(buf@ =~= before + row_output(name@, r0 as nat, c0 as nat, ri as nat, g.rows@[ri as int]@, keys));
                    ri = ri + 1;
                }
                assert(g.rows@.take(g.rows@.len() as int) =~= g.rows@);
            }
        },
    }
}

/// Renders a workbook: for each sheet that the options select, its cells
/// (address keys), its rows (content keys) or its dimensions (`--list`); a
/// sheet that could not be read gives one marked line and does not hide the
/// others.
pub fn spreadsheet(book: &Workbook, opts: &Options, out: &mut String)
    ensures
        final(out)@ == old(out)@ + workbook_output(*book, *opts),
{
    let mut buf: Vec<char> = Vec::new();
    let mut k: usize = 0;
    while k < book.sheets.len()
        invariant
            k <= book.sheets@.len(),
            buf@ == sheets_output(book.sheets@.take(k as int), opt_text(opts.sheet), opts.list, keys_for(opts.row)),
        decreases book.sheets@.len() - k,
    {
        push_sheet(&book.sheets[k], opts, &mut buf);
        assert(book.sheets@.take(k + 1).drop_last() =~= book.sheets@.take(k as int));
        k = k + 1;
    }
    assert(book.sheets@.take(book.sheets@.len() as int) =~= book.sheets@);
    append_chars(out, buf.as_slice());
}


/// With content keys, the lines of two runs of rows one after the other are
/// the lines of the first run followed by those of the second.
pub proof fn content_rows_concatenate(
    name: Seq<char>,
    r0: nat,
    c0: nat,
    a: Seq<Vec<Option<String>>>,
    b: Seq<Vec<Option<String>>>,
)
    ensures
        rows_output(name, r0, c0, a + b, Keys::Content) == rows_output(name, r0, c0, a, Keys::Content)
            + rows_output(name, r0, c0, b, Keys::Content),
    decreases b.len(),
{
    if b.len() == 0 {
        assert(a + b =~= a);
        assert(rows_output(name, r0, c0, b, Keys::Content) =~= Seq::<char>::empty());
        assert(rows_output(name, r0, c0, a, Keys::Content) + Seq::<char>::empty() =~= rows_output(name, r0, c0, a, Keys::Content));
    } else {
        content_rows_concatenate(name, r0, c0, a, b.drop_last());
        assert((a + b).drop_last() =~= a + b.drop_last());
        assert((a + b).last() == b.last());
        let x = rows_output(name, r0, c0, a, Keys::Content);
        let y = rows_output(name, r0, c0, b.drop_last(), Keys::Content);
        let z = row_line(name, c0, b.last()@);
        assert(x + y + z =~= x + (y + z));
    }
}

/// Why the key carries no position: with content keys, inserting a row into
/// a sheet adds that row's line (at most one line) and leaves every other
/// line as it was, in the same order, so that a diff of the two renderings
/// shows the new row and nothing else.
pub proof fn inserting_a_row_adds_only_its_line(
    name: Seq<char>,
    r0: nat,
    c0: nat,
    rows: Seq<Vec<Option<String>>>,
    k: int,
    row: Vec<Option<String>>,
)
    requires
        0 <= k <= rows.len(),
    ensures
        rows_output(name, r0, c0, rows, Keys::Content) == rows_output(name, r0, c0, rows.take(k), Keys::Content)
            + rows_output(name, r0, c0, rows.skip(k), Keys::Content),
        rows_output(name, r0, c0, rows.insert(k, row), Keys::Content) == rows_output(
            name,
            r0,
            c0,
            rows.take(k),
            Keys::Content,
        ) + row_line(name, c0, row@) + rows_output(name, r0, c0, rows.skip(k), Keys::Content),
{
    assert(rows =~= rows.take(k) + rows.skip(k));
    content_rows_concatenate(name, r0, c0, rows.take(k), rows.skip(k));
    let single = seq![row];
    assert(rows.insert(k, row) =~= rows.take(k) + single + rows.skip(k));
    content_rows_concatenate(name, r0, c0, rows.take(k) + single, rows.skip(k));
    content_rows_concatenate(name, r0, c0, rows.take(k), single);
    assert(single.drop_last() =~= Seq::<Vec<Option<String>>>::empty());
    assert(rows_output(name, r0, c0, single.drop_last(), Keys::Content) =~= Seq::<char>::empty());
    assert(single.last() == row);
    assert(rows_output(name, r0, c0, single, Keys::Content) =~= Seq::<char>::empty() + row_line(name, c0, row@));
    assert(rows_output(name, r0, c0, single, Keys::Content) =~= row_line(name, c0, row@));
}

/// `n` empty cells.
pub open spec fn empty_cells(n: nat) -> Seq<Option<String>> {
    Seq::new(n, |i: int| None::<String>)
}

proof fn lemma_entries_trailing_empty(row: Seq<Option<String>>, c0: nat, m: nat)
    ensures
        row_entries(row + empty_cells(m), c0) == row_entries(row, c0),
    decreases m,
{
    if m == 0 {
        assert(row + empty_cells(0) =~= row);
    } else {
        let r = row + empty_cells(m);
        assert(r.drop_last() =~= row + empty_cells((m - 1) as nat));
        assert(r.last() is None);
        lemma_entries_trailing_empty(row, c0, (m - 1) as nat);
        assert(row_entries(r, c0) =~= row_entries(r.drop_last(), c0));
    }
}

proof fn lemma_entries_leading_empty(row: Seq<Option<String>>, c0: nat, k: nat)
    requires
        k <= c0,
    ensures
        row_entries(empty_cells(k) + row, (c0 - k) as nat) == row_entries(row, c0),
    decreases row.len(),
{
    let base = (c0 - k) as nat;
    if row.len() == 0 {
        assert(empty_cells(k) + row =~= empty_cells(k));
        lemma_entries_trailing_empty(Seq::<Option<String>>::empty(), base, k);
        assert(Seq::<Option<String>>::empty() + empty_cells(k) =~= empty_cells(k));
    } else {
        let r = empty_cells(k) + row;
        assert(r.drop_last() =~= empty_cells(k) + row.drop_last());
        assert(r.last() == row.last());
        lemma_entries_leading_empty(row.drop_last(), c0, k);
        assert((base + r.len() - 1) as nat == (c0 + row.len() - 1) as nat);
    }
}

/// Row lines name columns absolutely: widening the range of a sheet with
/// empty cells before a row (the start column moved left to match) and after
/// it leaves the line of the row as it was.
pub proof fn widening_the_range_keeps_row_lines(name: Seq<char>, c0: nat, k: nat, row: Seq<Option<String>>, m: nat)
    requires
        k <= c0,
    ensures
        row_line(name, (c0 - k) as nat, empty_cells(k) + row + empty_cells(m)) == row_line(name, c0, row),
{
    lemma_entries_trailing_empty(empty_cells(k) + row, (c0 - k) as nat, m);
    lemma_entries_leading_empty(row, c0, k);
}

proof fn lemma_widened_rows(
    name: Seq<char>,
    r0: nat,
    r1: nat,
    c0: nat,
    k: nat,
    m: nat,
    rows: Seq<Vec<Option<String>>>,
    wide: Seq<Vec<Option<String>>>,
)
    requires
        k <= c0,
        wide.len() == rows.len(),
        forall|i: int| 0 <= i < rows.len() ==> #[trigger] wide[i]@ == empty_cells(k) + rows[i]@ + empty_cells(m),
    ensures
        rows_output(name, r1, (c0 - k) as nat, wide, Keys::Content) == rows_output(name, r0, c0, rows, Keys::Content),
    decreases rows.len(),
{
    if rows.len() > 0 {
        lemma_widened_rows(name, r0, r1, c0, k, m, rows.drop_last(), wide.drop_last());
        assert(wide.last()@ == empty_cells(k) + rows.last()@ + empty_cells(m));
        widening_the_range_keeps_row_lines(name, c0, k, rows.last()@, m);
    }
}

/// The content-key law for a whole sheet as a spreadsheet application saves
/// it: inserting a row, even one that widens the used range to the left or
/// to the right (every other row gaining empty cells, the start column
/// moving to match), adds that row's line and leaves every other line as it
/// was, in the same order. `rows` are the old rows, `wide` the same rows in
/// the widened range.
pub proof fn inserting_a_row_into_a_widened_range_adds_only_its_line(
    name: Seq<char>,
    r0: nat,
    r1: nat,
    c0: nat,
    k: nat,
    m: nat,
    rows: Seq<Vec<Option<String>>>,
    wide: Seq<Vec<Option<String>>>,
    pos: int,
    row: Vec<Option<String>>,
)
    requires
        k <= c0,
        0 <= pos <= rows.len(),
        wide.len() == rows.len(),
        forall|i: int| 0 <= i < rows.len() ==> #[trigger] wide[i]@ == empty_cells(k) + rows[i]@ + empty_cells(m),
    ensures
        rows_output(name, r1, (c0 - k) as nat, wide.insert(pos, row), Keys::Content) == rows_output(
            name,
            r0,
            c0,
            rows.take(pos),
            Keys::Content,
        ) + row_line(name, (c0 - k) as nat, row@) + rows_output(name, r0, c0, rows.skip(pos), Keys::Content),
{
    inserting_a_row_adds_only_its_line(name, r1, (c0 - k) as nat, wide, pos, row);
    lemma_widened_rows(name, r0, r1, c0, k, m, rows.take(pos), wide.take(pos));
    lemma_widened_rows(name, r0, r1, c0, k, m, rows.skip(pos), wide.skip(pos));
}

/// With content keys a row is at most one line: nothing for a row without
/// cells, or a line that ends in its only newline, as long as the sheet's
/// name holds none.
pub proof fn a_row_is_at_most_one_line(name: Seq<char>, c0: nat, row: Seq<Option<String>>)
    requires
        one_line(name),
    ensures
        row_line(name, c0, row).len() == 0 || (row_line(name, c0, row).last() == '\n' && one_line(
            row_line(name, c0, row).drop_last(),
        )),
{
    reveal_strlit("\n");
    let e = row_entries(row, c0);
    if e.len() > 0 {
        row_entries_one_line(row, c0);
        lemma_one_line_concat(name, e);
        assert(row_line(name, c0, row) =~= (name + e).push('\n'));
        assert(row_line(name, c0, row).drop_last() =~= name + e);
    }
}

/// With address keys a cell is at most one line: nothing for an empty cell,
/// or a line that ends in its only newline, as long as the sheet's name
/// holds none.
pub proof fn a_cell_is_at_most_one_line(name: Seq<char>, row_no: nat, col: nat, cell: Option<String>)
    requires
        one_line(name),
    ensures
        cell_line(name, row_no, col, cell).len() == 0 || (cell_line(name, row_no, col, cell).last() == '\n'
            && one_line(cell_line(name, row_no, col, cell).drop_last())),
{
    reveal_strlit("!");
    reveal_strlit("\t");
    reveal_strlit("\n");
    if let Some(v) = cell {
        assert(one_line("!"@) && one_line("\t"@));
        crate::text::col_letters_round_trip(col);
        assert(one_line(col_spec(col))) by {
            assert forall|i: int| 0 <= i < col_spec(col).len() implies #[trigger] col_spec(col)[i] != '\n' by {
                assert('A' <= col_spec(col)[i] <= 'Z');
            }
        }
        lemma_decimal_one_line(row_no);
        lemma_esc_one_line(v@);
        lemma_one_line_concat(name, "!"@);
        lemma_one_line_concat(name + "!"@, col_spec(col));
        lemma_one_line_concat(name + "!"@ + col_spec(col), decimal(row_no));
        lemma_one_line_concat(name + "!"@ + col_spec(col) + decimal(row_no), "\t"@);
        lemma_one_line_concat(name + "!"@ + col_spec(col) + decimal(row_no) + "\t"@, esc_spec(v@));
        let body = name + "!"@ + col_spec(col) + decimal(row_no) + "\t"@ + esc_spec(v@);
        assert(cell_line(name, row_no, col, cell) =~= body.push('\n'));
        assert(cell_line(name, row_no, col, cell).drop_last() =~= body);
    }
}

proof fn row_entries_one_line(row: Seq<Option<String>>, c0: nat)
    ensures
        one_line(row_entries(row, c0)),
    decreases row.len(),
{
    if row.len() > 0 {
        row_entries_one_line(row.drop_last(), c0);
        let a = row_entries(row.drop_last(), c0);
        let col = (c0 + row.len() - 1) as nat;
        let b = row_entry(col, row.last());
        assert forall|i: int| 0 <= i < b.len() implies #[trigger] b[i] != '\n' by {
            match row.last() {
                Some(v) => {
                    reveal_strlit("\t");
                    reveal_strlit("=");
                    crate::text::esc_keeps_one_line(v@);
                    crate::text::col_letters_round_trip(col);
                    let t = "\t"@ + col_spec(col) + "="@;
                    assert(b =~= t + esc_spec(v@));
                    if i < t.len() {
                        if i >= 1 && i < 1 + col_spec(col).len() {
                            assert(t[i] == col_spec(col)[i - 1]);
                        }
                    } else {
                        assert(b[i] == esc_spec(v@)[i - t.len()]);
                    }
                },
                None => {},
            }
        }
        assert forall|i: int| 0 <= i < row_entries(row, c0).len() implies #[trigger] row_entries(row, c0)[i] != '\n' by {
            if i < a.len() {
                assert(row_entries(row, c0)[i] == a[i]);
            } else {
                assert(row_entries(row, c0)[i] == b[i - a.len()]);
            }
        }
    }
}

/// Sheets are rendered one after the other and independently: the lines of
/// a workbook are those of its first sheets followed by those of the rest, so
/// a sheet that cannot be read costs nothing but its own marked line.
pub proof fn sheets_render_independently(
    a: Seq<Sheet>,
    b: Seq<Sheet>,
    filter: Option<Seq<char>>,
    list: bool,
    keys: Keys,
)
    ensures
        sheets_output(a + b, filter, list, keys) == sheets_output(a, filter, list, keys) + sheets_output(
            b,
            filter,
            list,
            keys,
        ),
    decreases b.len(),
{
    if b.len() == 0 {
        assert(a + b =~= a);
        assert(sheets_output(a, filter, list, keys) + Seq::<char>::empty() =~= sheets_output(a, filter, list, keys));
    } else {
        sheets_render_independently(a, b.drop_last(), filter, list, keys);
        assert((a + b).drop_last() =~= a + b.drop_last());
        let x = sheets_output(a, filter, list, keys);
        let y = sheets_output(b.drop_last(), filter, list, keys);
        let z = sheet_output(b.last(), filter, list, keys);
        assert(x + y + z =~= x + (y + z));
    }
}

/// `--sheet NAME` renders exactly what the sheets of that name render, in
/// workbook order, as if the workbook held no other sheet.
pub proof fn the_filter_keeps_only_the_named_sheets(sheets: Seq<Sheet>, name: Seq<char>, list: bool, keys: Keys)
    ensures
        sheets_output(sheets, Some(name), list, keys) == sheets_output(
            sheets.filter(|s: Sheet| s.name@ == name),
            None,
            list,
            keys,
        ),
    decreases sheets.len(),
{
    reveal_with_fuel(Seq::filter, 1);
    if sheets.len() > 0 {
        the_filter_keeps_only_the_named_sheets(sheets.drop_last(), name, list, keys);
        let f = sheets.filter(|s: Sheet| s.name@ == name);
        let g = sheets.drop_last().filter(|s: Sheet| s.name@ == name);
        if sheets.last().name@ == name {
            assert(f == g.push(sheets.last()));
            assert(f.drop_last() =~= g);
        } else {
            assert(f == g);
            assert(sheet_output(sheets.last(), Some(name), list, keys) =~= Seq::<char>::empty());
            assert(sheets_output(sheets.drop_last(), Some(name), list, keys) + Seq::<char>::empty()
                =~= sheets_output(sheets.drop_last(), Some(name), list, keys));
        }
    }
}

} // verus!
