//! Command-line options and the key scheme they select.

use vstd::prelude::*;

use crate::text::chars_of;

verus! {

/// The one-line usage message.
pub const USAGE: &'static str = "usage: oyomi [--sheet NAME] [--list] [--row] <file.xlsx|.docx|.pptx>";

/// What a line is keyed by.
#[derive(Clone, Copy, Debug, PartialEq, Eq, Structural)]
pub enum Keys {
    /// Position: cell address, paragraph ordinal, table coordinates.
    Address,
    /// Content only. A row inserted above no longer rewrites every key below it.
    Content,
}

/// The options of one invocation.
#[derive(Clone, Debug)]
pub struct Options {
    /// Render only the sheet of this name.
    pub sheet: Option<String>,
    /// List sheets with their dimensions instead of their cells.
    pub list: bool,
    /// Key lines by content (one line per row) instead of by position.
    pub row: bool,
}

/// The abstract value of an optional text.
pub open spec fn opt_text(o: Option<String>) -> Option<Seq<char>> {
    match o {
        Some(s) => Some(s@),
        None => None,
    }
}

impl Default for Options {
    fn default() -> (res: Options)
        ensures
            res.sheet is None,
            !res.list,
            !res.row,
    {
        Options { sheet: None, list: false, row: false }
    }
}

/// The key scheme that options with this `row` flag select.
pub open spec fn keys_for(row: bool) -> Keys {
    if row {
        Keys::Content
    } else {
        Keys::Address
    }
}

impl Options {
    /// Content keys with `--row`, address keys otherwise.
    pub fn keys(&self) -> (res: Keys)
        ensures
            res == keys_for(self.row),
    {
        if self.row {
            Keys::Content
        } else {
            Keys::Address
        }
    }
}

/// What a successful parse yields: the path, the sheet filter, `--list`, `--row`.
pub type ParsedSpec = (Seq<char>, Option<Seq<char>>, bool, bool);

/// Whether an argument has the shape of an option.
pub open spec fn is_flag(a: Seq<char>) -> bool {
    a.len() >= 2 && a[0] == '-' && a[1] == '-'
}

/// Parses `args` from position `i` on, with the path and options seen so far.
/// Options may come in any order; the last path wins.
pub open spec fn parse_from(
    args: Seq<Seq<char>>,
    i: int,
    path: Option<Seq<char>>,
    sheet: Option<Seq<char>>,
    list: bool,
    row: bool,
) -> Result<(Option<Seq<char>>, Option<Seq<char>>, bool, bool), Seq<char>>
    decreases args.len() - i,
{
    if i < 0 || i >= args.len() {
        Ok((path, sheet, list, row))
    } else {
        let a = args[i];
        if a == "--sheet"@ {
            if i + 1 < args.len() {
                parse_from(args, i + 2, path, Some(args[i + 1]), list, row)
            } else {
                Err("--sheet needs a sheet name"@)
            }
        } else if a == "--list"@ {
            parse_from(args, i + 1, path, sheet, true, row)
        } else if a == "--row"@ {
            parse_from(args, i + 1, path, sheet, list, true)
        } else if is_flag(a) {
            Err("unknown option: "@ + a)
        } else {
            parse_from(args, i + 1, Some(a), sheet, list, row)
        }
    }
}

/// The outcome of parsing a whole argument list: a missing path is the
/// usage message.
pub open spec fn parse_spec(args: Seq<Seq<char>>) -> Result<ParsedSpec, Seq<char>> {
    match parse_from(args, 0, None, None, false, false) {
        Err(e) => Err(e),
        Ok((None, _, _, _)) => Err(USAGE@),
        Ok((Some(p), sheet, list, row)) => Ok((p, sheet, list, row)),
    }
}

/// Whether the arguments of `args` from position `i` on pair up among
/// themselves: no `--sheet` there takes its value from beyond their end.
pub open spec fn pairs_up(args: Seq<Seq<char>>, i: int) -> bool
    decreases args.len() - i,
{
    if i < 0 || i >= args.len() {
        true
    } else if args[i] == "--sheet"@ {
        i + 1 < args.len() && pairs_up(args, i + 2)
    } else {
        pairs_up(args, i + 1)
    }
}

proof fn lemma_parse_shift(p: Seq<Seq<char>>, b: Seq<Seq<char>>, j: int, path: Option<Seq<char>>, sheet: Option<Seq<char>>, list: bool, row: bool)
    requires
        0 <= j <= b.len(),
    ensures
        parse_from(p + b, p.len() + j, path, sheet, list, row) == parse_from(b, j, path, sheet, list, row),
    decreases b.len() - j,
{
    if j < b.len() {
        let x = p + b;
        assert(x[p.len() + j] == b[j]);
        if j + 1 < b.len() {
            assert(x[p.len() + j + 1] == b[j + 1]);
        }
        if b[j] == "--sheet"@ {
            if j + 1 < b.len() {
                lemma_parse_shift(p, b, j + 2, path, Some(b[j + 1]), list, row);
            }
        } else if b[j] == "--list"@ {
            lemma_parse_shift(p, b, j + 1, path, sheet, true, row);
        } else if b[j] == "--row"@ {
            lemma_parse_shift(p, b, j + 1, path, sheet, list, true);
        } else if !is_flag(b[j]) {
            lemma_parse_shift(p, b, j + 1, Some(b[j]), sheet, list, row);
        }
    }
}

/// A whole argument: `--list`, `--row`, `--sheet` with its value, or a path.
pub open spec fn is_whole_argument(x: Seq<Seq<char>>) -> bool {
    ||| x.len() == 1 && (x[0] == "--list"@ || x[0] == "--row"@ || !is_flag(x[0]))
    ||| x.len() == 2 && x[0] == "--sheet"@
}

/// What a whole argument sets: its flag, the sheet filter, or the path.
pub open spec fn set_by(
    x: Seq<Seq<char>>,
    st: (Option<Seq<char>>, Option<Seq<char>>, bool, bool),
) -> (Option<Seq<char>>, Option<Seq<char>>, bool, bool) {
    if x.len() == 2 {
        (st.0, Some(x[1]), st.2, st.3)
    } else if x[0] == "--list"@ {
        (st.0, st.1, true, st.3)
    } else if x[0] == "--row"@ {
        (st.0, st.1, st.2, true)
    } else {
        (Some(x[0]), st.1, st.2, st.3)
    }
}

/// Whether the arguments of `args` from `i` on set nothing that the whole
/// argument `x` sets too (a second path, or a second `--sheet`), so that
/// which of the two comes last does not matter.
pub open spec fn leaves_alone(args: Seq<Seq<char>>, i: int, x: Seq<Seq<char>>) -> bool
    decreases args.len() - i,
{
    if i < 0 || i >= args.len() {
        true
    } else if args[i] == "--sheet"@ {
        !(x.len() == 2) && (i + 1 >= args.len() || leaves_alone(args, i + 2, x))
    } else if args[i] == "--list"@ || args[i] == "--row"@ {
        leaves_alone(args, i + 1, x)
    } else if is_flag(args[i]) {
        true
    } else {
        !(x.len() == 1 && !is_flag(x[0])) && leaves_alone(args, i + 1, x)
    }
}

proof fn lemma_argument_moves(
    a: Seq<Seq<char>>,
    x: Seq<Seq<char>>,
    b: Seq<Seq<char>>,
    i: int,
    path: Option<Seq<char>>,
    sheet: Option<Seq<char>>,
    list: bool,
    row: bool,
)
    requires
        0 <= i <= a.len(),
        pairs_up(a, i),
        is_whole_argument(x),
        leaves_alone(a, i, x),
    ensures
        ({
            let t = set_by(x, (path, sheet, list, row));
            parse_from(a + x + b, i, path, sheet, list, row) == parse_from(a + b, i, t.0, t.1, t.2, t.3)
        }),
    decreases a.len() - i,
{
    reveal_strlit("--sheet");
    reveal_strlit("--list");
    reveal_strlit("--row");
    assert("--sheet"@.len() == 7 && "--list"@.len() == 6 && "--row"@.len() == 5);
    let z = a + x + b;
    let y = a + b;
    let t = set_by(x, (path, sheet, list, row));
    if i == a.len() {
        assert(z =~= (a + x) + b);
        assert(z[i] == x[0]);
        if x.len() == 2 {
            assert(z[i + 1] == x[1]);
        }
        lemma_parse_shift(a + x, b, 0, t.0, t.1, t.2, t.3);
        lemma_parse_shift(a, b, 0, t.0, t.1, t.2, t.3);
    } else {
        assert(z[i] == a[i] && y[i] == a[i]);
        if a[i] == "--sheet"@ {
            assert(z[i + 1] == a[i + 1] && y[i + 1] == a[i + 1]);
            lemma_argument_moves(a, x, b, i + 2, path, Some(a[i + 1]), list, row);
        } else if a[i] == "--list"@ {
            lemma_argument_moves(a, x, b, i + 1, path, sheet, true, row);
        } else if a[i] == "--row"@ {
            lemma_argument_moves(a, x, b, i + 1, path, sheet, list, true);
        } else if !is_flag(a[i]) {
            lemma_argument_moves(a, x, b, i + 1, Some(a[i]), sheet, list, row);
        }
    }
}

/// Options may come in any order: a whole argument (`--list`, `--row`,
/// `--sheet` with its value, or the path) reads the same wherever it stands,
/// so moving one to the front changes nothing, as long as what comes before
/// it pairs up on its own (it is not the value of a `--sheet`) and sets
/// nothing that it sets too (with two paths the last wins, with two
/// `--sheet` the last wins). Moving the arguments one by one to the front
/// reaches any order that keeps each `--sheet` before its value.
pub proof fn a_whole_argument_reads_the_same_wherever_it_stands(a: Seq<Seq<char>>, x: Seq<Seq<char>>, b: Seq<Seq<char>>)
    requires
        pairs_up(a, 0),
        is_whole_argument(x),
        leaves_alone(a, 0, x),
    ensures
        parse_spec(a + x + b) == parse_spec(x + a + b),
{
    reveal_strlit("--sheet");
    reveal_strlit("--list");
    reveal_strlit("--row");
    assert("--sheet"@.len() == 7 && "--list"@.len() == 6 && "--row"@.len() == 5);
    lemma_argument_moves(a, x, b, 0, None, None, false, false);
    let t = set_by(x, (None, None, false, false));
    let z = x + a + b;
    assert(z =~= x + (a + b));
    assert(z[0] == x[0]);
    if x.len() == 2 {
        assert(z[1] == x[1]);
    }
    lemma_parse_shift(x, a + b, 0, t.0, t.1, t.2, t.3);
}

/// A flag put in front of a command line sets that flag and changes nothing
/// else of what the command line parses to, failures included.
pub proof fn lemma_parse_front(f: Seq<char>, args: Seq<Seq<char>>)
    requires
        f == "--list"@ || f == "--row"@,
    ensures
        parse_spec(seq![f] + args) == match parse_spec(args) {
            Ok((p, s, l, r)) => Ok::<ParsedSpec, Seq<char>>((p, s, l || f == "--list"@, r || f == "--row"@)),
            Err(m) => Err::<ParsedSpec, Seq<char>>(m),
        },
{
    reveal_strlit("--sheet");
    reveal_strlit("--list");
    reveal_strlit("--row");
    assert("--sheet"@.len() == 7 && "--list"@.len() == 6 && "--row"@.len() == 5);
    let z = seq![f] + args;
    assert(z[0] == f);
    lemma_parse_shift(seq![f], args, 0, None, None, f == "--list"@, f == "--row"@);
    lemma_flag_set_early(args, 0, None, None, false, false, f == "--list"@);
}

/// Setting a flag before the parse changes only that flag of the outcome:
/// the path, the sheet filter, the other flag and any failure stay.
proof fn lemma_flag_set_early(args: Seq<Seq<char>>, i: int, path: Option<Seq<char>>, sheet: Option<Seq<char>>, list: bool, row: bool, set_list: bool)
    ensures
        ({
            let a = parse_from(args, i, path, sheet, list, row);
            let b = parse_from(args, i, path, sheet, list || set_list, row || !set_list);
            match a {
                Ok((p, s, l, r)) => b == Ok::<(Option<Seq<char>>, Option<Seq<char>>, bool, bool), Seq<char>>(
                    (p, s, l || set_list, r || !set_list),
                ),
                Err(m) => b == Err::<(Option<Seq<char>>, Option<Seq<char>>, bool, bool), Seq<char>>(m),
            }
        }),
    decreases args.len() - i,
{
    if 0 <= i < args.len() {
        let a = args[i];
        if a == "--sheet"@ {
            if i + 1 < args.len() {
                lemma_flag_set_early(args, i + 2, path, Some(args[i + 1]), list, row, set_list);
            }
        } else if a == "--list"@ {
            lemma_flag_set_early(args, i + 1, path, sheet, true, row, set_list);
        } else if a == "--row"@ {
            lemma_flag_set_early(args, i + 1, path, sheet, list, true, set_list);
        } else if !is_flag(a) {
            lemma_flag_set_early(args, i + 1, Some(a), sheet, list, row, set_list);
        }
    }
}

/// The abstract values of an argument list.
pub open spec fn texts(args: Seq<String>) -> Seq<Seq<char>> {
    args.map_values(|s: String| s@)
}

/// Whether two texts are equal, character by character.
pub(crate) fn same_text(a: &str, b: &str) -> (res: bool)
    ensures
        res == (a@ == b@),
{
    let x = chars_of(a);
    let y = chars_of(b);
    if x.len() != y.len() {
        return false;
    }
    let mut i: usize = 0;
    while i < x.len()
        invariant
            x@ == a@,
            y@ == b@,
            x@.len() == y@.len(),
            i <= x@.len(),
            forall|j: int| 0 <= j < i ==> x@[j] == y@[j],
        decreases x@.len() - i,
    {
        if x[i] != y[i] {
            return false;
        }
        i = i + 1;
    }
    assert(x@ =~= y@);
    true
}

/// Parse argv (without the program name). `Err` carries the message to print.
pub fn parse_args(args: &[String]) -> (res: Result<(String, Options), String>)
    ensures
        match parse_spec(texts(args@)) {
            Ok((p, sheet, list, row)) => res matches Ok((path, o)) && path@ == p && opt_text(o.sheet)
                == sheet && o.list == list && o.row == row,
            Err(e) => res matches Err(m) && m@ == e,
        },
{
    let ghost view = texts(args@);
    let mut path: Option<String> = None;
    let mut opts = Options { sheet: None, list: false, row: false };
    let mut i: usize = 0;
    while i < args.len()
        invariant
            view == texts(args@),
            i <= args@.len(),
            parse_from(view, 0, None, None, false, false) == parse_from(
                view,
                i as int,
                opt_text(path),
                opt_text(opts.sheet),
                opts.list,
                opts.row,
            ),
        decreases args@.len() - i,
    {
        let a: &str = args[i].as_str();
        assert(a@ == view[i as int]);
        if same_text(a, "--sheet") {
            if i + 1 < args.len() {
                opts.sheet = Some(args[i + 1].clone());
                assert(opts.sheet.unwrap()@ == view[i + 1]);
                i = i + 2;
            } else {
                return Err(String::from_str("--sheet needs a sheet name"));
            }
        } else if same_text(a, "--list") {
            opts.list = true;
            i = i + 1;
        } else if same_text(a, "--row") {
            opts.row = true;
            i = i + 1;
        } else {
            let cs = chars_of(a);
            if cs.len() >= 2 && cs[0] == '-' && cs[1] == '-' {
                let mut msg = String::from_str("unknown option: ");
                msg.append(a);
                return Err(msg);
            }
            path = Some(args[i].clone());
            i = i + 1;
        }
    }
    match path {
        Some(p) => Ok((p, opts)),
        None => Err(String::from_str(USAGE)),
    }
}

} // verus!
