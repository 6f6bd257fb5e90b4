//! The ASCII Grid format of topography maps: six header lines, `KEY value`
//! (the number of columns and of rows, the x and y of the lower-left cell,
//! given at its centre or its corner, the cell size, and an optional no-data
//! value), then the elevations, row after row from the top. Real numbers are
//! kept here as their text. The format of a map file is known by its
//! extension; that of a map image names its projection in its metadata.
use crate::geometry::volume::is_ascii;
use crate::utils::text::{decimal, decimal_text, split_words, str_eq, words};
use vstd::prelude::*;

verus! {

/// The Unicode upper case of `s`.
pub uninterp spec fn upper(s: Seq<char>) -> Seq<char>;

/// The upper case of an ASCII character: a small letter becomes its capital,
/// any other character stays.
pub open spec fn ascii_upper(c: char) -> char {
    if 'a' <= c <= 'z' {
        ((c as int) - 32) as char
    } else {
        c
    }
}

/// `str::to_uppercase`: the Unicode upper case of `s`, named; of a string of
/// ASCII characters, it is claimed to be each character in upper case.
#[verifier::external_body]
fn to_uppercase(s: &str) -> (r: String)
    ensures
        r@ == upper(s@),
        (forall|i: int| 0 <= i < s@.len() ==> (#[trigger] s@[i] as int) < 128) ==> r@ == s@.map_values(
            |c: char| ascii_upper(c),
        ),
{
    s.to_uppercase()
}

/// A header line of an ASCII Grid file.
#[derive(Clone, Copy, PartialEq, Eq, Structural, Debug)]
pub enum MetaType {
    Nx,
    Ny,
    X0,
    Y0,
    Delta,
    NoData,
}

impl MetaType {
    pub open spec fn spec_lineno(self) -> nat {
        match self {
            MetaType::Nx => 1,
            MetaType::Ny => 2,
            MetaType::X0 => 3,
            MetaType::Y0 => 4,
            MetaType::Delta => 5,
            MetaType::NoData => 6,
        }
    }

    /// The number of this header line.
    pub fn lineno(&self) -> (r: usize)
        ensures
            r == self.spec_lineno(),
    {
        match self {
            MetaType::Nx => 1,
            MetaType::Ny => 2,
            MetaType::X0 => 3,
            MetaType::Y0 => 4,
            MetaType::Delta => 5,
            MetaType::NoData => 6,
        }
    }
}

/// What a header line gives: counts, or real numbers as their text; the
/// sixth line may be no header line but the first line of elevations.
pub enum MetaValue {
    NCols(usize),
    NRows(usize),
    XllCenter(String),
    XllCorner(String),
    YllCenter(String),
    YllCorner(String),
    CellSize(String),
    NoData(String),
    Elevations,
}

/// Mathematical view of a `MetaValue`.
pub ghost enum MetaView {
    NCols(nat),
    NRows(nat),
    XllCenter(Seq<char>),
    XllCorner(Seq<char>),
    YllCenter(Seq<char>),
    YllCorner(Seq<char>),
    CellSize(Seq<char>),
    NoData(Seq<char>),
    Elevations,
}

impl View for MetaValue {
    type V = MetaView;

    open spec fn view(&self) -> MetaView {
        match self {
            MetaValue::NCols(n) => MetaView::NCols(*n as nat),
            MetaValue::NRows(n) => MetaView::NRows(*n as nat),
            MetaValue::XllCenter(s) => MetaView::XllCenter(s@),
            MetaValue::XllCorner(s) => MetaView::XllCorner(s@),
            MetaValue::YllCenter(s) => MetaView::YllCenter(s@),
            MetaValue::YllCorner(s) => MetaView::YllCorner(s@),
            MetaValue::CellSize(s) => MetaView::CellSize(s@),
            MetaValue::NoData(s) => MetaView::NoData(s@),
            MetaValue::Elevations => MetaView::Elevations,
        }
    }
}

/// Why a count is refused, as `usize::from_str` tells it.
#[derive(Clone, Copy, PartialEq, Eq, Structural, Debug)]
pub enum IntError {
    Empty,
    InvalidDigit,
    PosOverflow,
}

/// The text explaining an `IntError`.
pub open spec fn int_error_text(e: IntError) -> Seq<char> {
    match e {
        IntError::Empty => "cannot parse integer from empty string"@,
        IntError::InvalidDigit => "invalid digit found in string"@,
        IntError::PosOverflow => "number too large to fit in target type"@,
    }
}

impl IntError {
    /// The text explaining this error.
    pub fn why(&self) -> (r: &'static str)
        ensures
            r@ == int_error_text(*self),
    {
        match self {
            IntError::Empty => "cannot parse integer from empty string",
            IntError::InvalidDigit => "invalid digit found in string",
            IntError::PosOverflow => "number too large to fit in target type",
        }
    }
}

/// The value of the decimal digit `c`, if it is one.
pub open spec fn digit_value(c: char) -> Option<nat> {
    if '0' <= c <= '9' {
        Some((c as nat - '0' as nat) as nat)
    } else {
        None
    }
}

/// The count written by the digits `d` after `acc`, read from the left.
pub open spec fn scan_digits(d: Seq<char>, acc: nat) -> Result<nat, IntError>
    decreases d.len(),
{
    if d.len() == 0 {
        Ok(acc)
    } else {
        match digit_value(d[0]) {
            None => Err(IntError::InvalidDigit),
            Some(x) => if acc * 10 + x > usize::MAX {
                Err(IntError::PosOverflow)
            } else {
                scan_digits(d.drop_first(), acc * 10 + x)
            },
        }
    }
}

/// The count written by `s`, decimal digits after an optional `+`, as
/// `usize::from_str` reads it.
pub open spec fn count_value(s: Seq<char>) -> Result<nat, IntError> {
    if s.len() == 0 {
        Err(IntError::Empty)
    } else {
        let d = if s[0] == '+' { s.drop_first() } else { s };
        if d.len() == 0 {
            Err(IntError::InvalidDigit)
        } else {
            scan_digits(d, 0)
        }
    }
}

/// The count written by `s`.
pub fn parse_count(s: &str) -> (r: Result<usize, IntError>)
    ensures
        match (r, count_value(s@)) {
            (Ok(n), Ok(m)) => n == m,
            (Err(e), Err(f)) => e == f,
            _ => false,
        },
{
    let n = s.unicode_len();
    if n == 0 {
        return Err(IntError::Empty);
    }
    let start: usize = if s.get_char(0) == '+' { 1 } else { 0 };
    let ghost d = if s@[0] == '+' { s@.drop_first() } else { s@ };
    assert(d =~= s@.skip(start as int));
    if start == n {
        return Err(IntError::InvalidDigit);
    }
    let mut acc: usize = 0;
    let mut i: usize = start;
    assert(s@.skip(start as int) =~= s@.skip(i as int));
    while i < n
        invariant
            n == s@.len(),
            start <= i <= n,
            count_value(s@) == scan_digits(s@.skip(i as int), acc as nat),
        decreases n - i,
    {
        let c = s.get_char(i);
        let ghost t = s@.skip(i as int);
        assert(t[0] == c);
        assert(t.drop_first() =~= s@.skip(i + 1));
        if c < '0' || c > '9' {
            return Err(IntError::InvalidDigit);
        }
        let x = (c as u32 - '0' as u32) as u128;
        let v = (acc as u128) * 10 + x;
        if v > usize::MAX as u128 {
            return Err(IntError::PosOverflow);
        }
        acc = v as usize;
        i = i + 1;
    }
    assert(s@.skip(n as int) =~= Seq::<char>::empty());
    Ok(acc)
}

/// Why an ASCII Grid file is refused.
pub enum GridError {
    /// A line that is missing, unreadable or short of a word.
    EndOfLine(usize),
    /// A header line with a word too many.
    UnexpectedToken(usize, String),
    /// A header line with another key than expected, uppercased.
    BadName(usize, &'static str, String),
    /// A count that cannot be read, with its text.
    BadCount(usize, IntError, String),
    /// Fewer elevations than cells.
    MissingValues(usize, usize),
}

/// Mathematical view of a `GridError`.
pub ghost enum GridFault {
    EndOfLine(nat),
    UnexpectedToken(nat, Seq<char>),
    BadName(nat, Seq<char>, Seq<char>),
    BadCount(nat, IntError, Seq<char>),
    MissingValues(nat, nat),
}

impl View for GridError {
    type V = GridFault;

    open spec fn view(&self) -> GridFault {
        match self {
            GridError::EndOfLine(l) => GridFault::EndOfLine(*l as nat),
            GridError::UnexpectedToken(l, t) => GridFault::UnexpectedToken(*l as nat, t@),
            GridError::BadName(l, e, f) => GridFault::BadName(*l as nat, e@, f@),
            GridError::BadCount(l, e, v) => GridFault::BadCount(*l as nat, *e, v@),
            GridError::MissingValues(e, f) => GridFault::MissingValues(*e as nat, *f as nat),
        }
    }
}

/// The explanation of a grid fault in the file at `path`.
pub open spec fn grid_fault_text(path: Seq<char>, f: GridFault) -> Seq<char> {
    match f {
        GridFault::EndOfLine(l) => path + ":"@ + decimal_text(l) + ": unexpected end-of-line"@,
        GridFault::UnexpectedToken(l, t) => path + ":"@ + decimal_text(l) + ": unexpected token: "@ + t,
        GridFault::BadName(l, e, n) => path + ":"@ + decimal_text(l) + ": expected "@ + e + ", found "@ + n,
        GridFault::BadCount(l, e, v) => path + ":"@ + decimal_text(l) + ": "@ + int_error_text(e) + ": "@ + v,
        GridFault::MissingValues(e, n) => path + ": expected "@ + decimal_text(e) + " z-values, found "@
            + decimal_text(n),
    }
}

impl GridError {
    /// The explanation of this error in the file at `path`.
    pub fn why(&self, path: &str) -> (r: String)
        ensures
            r@ == grid_fault_text(path@, self@),
    {
        let mut text = String::from_str(path);
        match self {
            GridError::EndOfLine(l) => {
                text.append(":");
                text.append(decimal(*l as u64).as_str());
                text.append(": unexpected end-of-line");
            },
            GridError::UnexpectedToken(l, t) => {
                text.append(":");
                text.append(decimal(*l as u64).as_str());
                text.append(": unexpected token: ");
                text.append(t.as_str());
            },
            GridError::BadName(l, e, n) => {
                text.append(":");
                text.append(decimal(*l as u64).as_str());
                text.append(": expected ");
                text.append(e);
                text.append(", found ");
                text.append(n.as_str());
            },
            GridError::BadCount(l, e, v) => {
                text.append(":");
                text.append(decimal(*l as u64).as_str());
                text.append(": ");
                text.append(e.why());
                text.append(": ");
                text.append(v.as_str());
            },
            GridError::MissingValues(e, n) => {
                text.append(": expected ");
                text.append(decimal(*e as u64).as_str());
                text.append(" z-values, found ");
                text.append(decimal(*n as u64).as_str());
            },
        }
        text
    }
}

/// What the header line `line` of type `meta` gives, or why it is refused.
/// A missing or unreadable line is `None`. The line must hold a key and a
/// value, nothing more; keys are compared in upper case.
pub open spec fn header_spec(meta: MetaType, line: Option<Seq<char>>) -> Result<MetaView, GridFault> {
    let l = meta.spec_lineno();
    match line {
        None => Err(GridFault::EndOfLine(l)),
        Some(text) => {
            let ws = words(text);
            if ws.len() < 2 {
                Err(GridFault::EndOfLine(l))
            } else if ws.len() > 2 {
                Err(GridFault::UnexpectedToken(l, ws[2]))
            } else {
                let name = upper(ws[0]);
                let value = ws[1];
                match meta {
                    MetaType::Nx => if name != "NCOLS"@ {
                        Err(GridFault::BadName(l, "ncols"@, name))
                    } else {
                        match count_value(value) {
                            Ok(n) => Ok(MetaView::NCols(n)),
                            Err(e) => Err(GridFault::BadCount(l, e, value)),
                        }
                    },
                    MetaType::Ny => if name != "NROWS"@ {
                        Err(GridFault::BadName(l, "nrows"@, name))
                    } else {
                        match count_value(value) {
                            Ok(n) => Ok(MetaView::NRows(n)),
                            Err(e) => Err(GridFault::BadCount(l, e, value)),
                        }
                    },
                    MetaType::X0 => if name == "XLLCENTER"@ {
                        Ok(MetaView::XllCenter(value))
                    } else if name == "XLLCORNER"@ {
                        Ok(MetaView::XllCorner(value))
                    } else {
                        Err(GridFault::BadName(l, "xllcenter or xllcorner"@, name))
                    },
                    MetaType::Y0 => if name == "YLLCENTER"@ {
                        Ok(MetaView::YllCenter(value))
                    } else if name == "YLLCORNER"@ {
                        Ok(MetaView::YllCorner(value))
                    } else {
                        Err(GridFault::BadName(l, "yllcenter or yllcorner"@, name))
                    },
                    MetaType::Delta => if name != "CELLSIZE"@ {
                        Err(GridFault::BadName(l, "cellsize"@, name))
                    } else {
                        Ok(MetaView::CellSize(value))
                    },
                    MetaType::NoData => if name == "NODATA_VALUE"@ {
                        Ok(MetaView::NoData(value))
                    } else {
                        Ok(MetaView::Elevations)
                    },
                }
            }
        },
    }
}

/// An optional line, by its view.
pub open spec fn opt_line(line: Option<&str>) -> Option<Seq<char>> {
    match line {
        Some(l) => Some(l@),
        None => None,
    }
}

/// Law: a header line of exactly two words, a key and a value, is read by
/// its key compared in upper case: on its own line, `ncols` and `nrows` give
/// the count that the value writes (or why it is refused), `xllcenter`, `xllcorner`, `yllcenter`,
/// `yllcorner`, `cellsize` and `nodata_value` give the value's text.
pub proof fn law_header_keys(meta: MetaType, text: Seq<char>)
    requires
        words(text).len() == 2,
    ensures
        ({
            let key = upper(words(text)[0]);
            let value = words(text)[1];
            let r = header_spec(meta, Some(text));
            &&& meta == MetaType::Nx && key == "NCOLS"@ ==> match count_value(value) {
                Ok(n) => r == Ok::<MetaView, GridFault>(MetaView::NCols(n)),
                Err(e) => r == Err::<MetaView, GridFault>(GridFault::BadCount(meta.spec_lineno(), e, value)),
            }
            &&& meta == MetaType::Ny && key == "NROWS"@ ==> match count_value(value) {
                Ok(n) => r == Ok::<MetaView, GridFault>(MetaView::NRows(n)),
                Err(e) => r == Err::<MetaView, GridFault>(GridFault::BadCount(meta.spec_lineno(), e, value)),
            }
            &&& meta == MetaType::X0 && key == "XLLCENTER"@
                ==> r == Ok::<MetaView, GridFault>(MetaView::XllCenter(value))
            &&& meta == MetaType::X0 && key == "XLLCORNER"@
                ==> r == Ok::<MetaView, GridFault>(MetaView::XllCorner(value))
            &&& meta == MetaType::Y0 && key == "YLLCENTER"@
                ==> r == Ok::<MetaView, GridFault>(MetaView::YllCenter(value))
            &&& meta == MetaType::Y0 && key == "YLLCORNER"@
                ==> r == Ok::<MetaView, GridFault>(MetaView::YllCorner(value))
            &&& meta == MetaType::Delta && key == "CELLSIZE"@
                ==> r == Ok::<MetaView, GridFault>(MetaView::CellSize(value))
            &&& meta == MetaType::NoData && key == "NODATA_VALUE"@
                ==> r == Ok::<MetaView, GridFault>(MetaView::NoData(value))
        }),
{
    reveal_strlit("XLLCENTER");
    reveal_strlit("XLLCORNER");
    reveal_strlit("YLLCENTER");
    reveal_strlit("YLLCORNER");
    assert("XLLCENTER"@[4] != "XLLCORNER"@[4]);
    assert("YLLCENTER"@[4] != "YLLCORNER"@[4]);
}

/// What the header line `line` of type `meta` gives.
pub fn header_line(meta: MetaType, line: Option<&str>) -> (r: Result<MetaValue, GridError>)
    ensures
        match (r, header_spec(meta, opt_line(line))) {
            (Ok(v), Ok(w)) => v@ == w,
            (Err(e), Err(f)) => e@ == f,
            _ => false,
        },
        match line {
            Some(t) => words(t@).len() == 2 && is_ascii(words(t@)[0])
                ==> upper(words(t@)[0]) == words(t@)[0].map_values(|c: char| ascii_upper(c)),
            None => true,
        },
{
    let l = meta.lineno();
    let text = match line {
        None => return Err(GridError::EndOfLine(l)),
        Some(text) => text,
    };
    let ws = split_words(text);
    let ghost wv = ws@.map_values(|w: &str| w@);
    assert(wv.len() == ws@.len());
    if ws.len() < 2 {
        return Err(GridError::EndOfLine(l));
    }
    if ws.len() > 2 {
        assert(wv[2] == ws@[2]@);
        return Err(GridError::UnexpectedToken(l, String::from_str(ws[2])));
    }
    assert(wv[0] == ws@[0]@);
    assert(wv[1] == ws@[1]@);
    let name = to_uppercase(ws[0]);
    let value = ws[1];
    let n = name.as_str();
    match meta {
        MetaType::Nx => {
            if !str_eq(n, "NCOLS") {
                return Err(GridError::BadName(l, "ncols", name));
            }
            match parse_count(value) {
                Ok(v) => Ok(MetaValue::NCols(v)),
                Err(e) => Err(GridError::BadCount(l, e, String::from_str(value))),
            }
        },
        MetaType::Ny => {
            if !str_eq(n, "NROWS") {
                return Err(GridError::BadName(l, "nrows", name));
            }
            match parse_count(value) {
                Ok(v) => Ok(MetaValue::NRows(v)),
                Err(e) => Err(GridError::BadCount(l, e, String::from_str(value))),
            }
        },
        MetaType::X0 => {
            if str_eq(n, "XLLCENTER") {
                Ok(MetaValue::XllCenter(String::from_str(value)))
            } else if str_eq(n, "XLLCORNER") {
                Ok(MetaValue::XllCorner(String::from_str(value)))
            } else {
                Err(GridError::BadName(l, "xllcenter or xllcorner", name))
            }
        },
        MetaType::Y0 => {
            if str_eq(n, "YLLCENTER") {
                Ok(MetaValue::YllCenter(String::from_str(value)))
            } else if str_eq(n, "YLLCORNER") {
                Ok(MetaValue::YllCorner(String::from_str(value)))
            } else {
                Err(GridError::BadName(l, "yllcenter or yllcorner", name))
            }
        },
        MetaType::Delta => {
            if !str_eq(n, "CELLSIZE") {
                return Err(GridError::BadName(l, "cellsize", name));
            }
            Ok(MetaValue::CellSize(String::from_str(value)))
        },
        MetaType::NoData => {
            if str_eq(n, "NODATA_VALUE") {
                Ok(MetaValue::NoData(String::from_str(value)))
            } else {
                Ok(MetaValue::Elevations)
            }
        },
    }
}

/// The cell, in row-major order from the top row, of the `k`-th elevation of
/// a grid of `nx` columns and `ny` rows, given row after row from the bottom.
pub open spec fn grid_position(k: nat, nx: nat, ny: nat) -> int {
    (ny - 1 - k / nx) * nx + k % nx
}

/// The words of `ws`, each with its line number.
pub open spec fn numbered(ws: Seq<Seq<char>>, lineno: nat) -> Seq<(nat, Seq<char>)> {
    ws.map_values(|w: Seq<char>| (lineno, w))
}

/// How the elevations of an ASCII Grid file end.
pub ghost enum DataEndView {
    Complete,
    EndOfLine(nat),
    Short(nat, nat),
}

/// The elevations read from `lines`, the first numbered `lineno`, after
/// `acc`, each with its line number, until `size` are read, and how they end.
/// A missing or unreadable line is `None`; one met before the reading is
/// over, though all values are read, ends it in error.
pub open spec fn elevations(lines: Seq<Option<Seq<char>>>, lineno: nat, size: nat, acc: Seq<(nat, Seq<char>)>) -> (Seq<(nat, Seq<char>)>, DataEndView)
    decreases lines.len(),
{
    if lines.len() == 0 {
        if acc.len() < size {
            (acc, DataEndView::Short(size, acc.len()))
        } else {
            (acc, DataEndView::Complete)
        }
    } else {
        match lines[0] {
            None => (acc, DataEndView::EndOfLine(lineno)),
            Some(text) => {
                let ws = words(text);
                let room = size - acc.len();
                if ws.len() > room {
                    (acc + numbered(ws.take(room), lineno), DataEndView::Complete)
                } else {
                    elevations(lines.drop_first(), lineno + 1, size, acc + numbered(ws, lineno))
                }
            },
        }
    }
}

/// An elevation to read: its text, the line it stands on and its cell.
pub struct GridValue {
    pub lineno: usize,
    pub position: usize,
    pub token: String,
}

/// How the elevations of an ASCII Grid file end.
#[derive(Clone, Copy, PartialEq, Eq, Structural, Debug)]
pub enum DataEnd {
    Complete,
    EndOfLine(usize),
    Short(usize, usize),
}

impl View for DataEnd {
    type V = DataEndView;

    open spec fn view(&self) -> DataEndView {
        match self {
            DataEnd::Complete => DataEndView::Complete,
            DataEnd::EndOfLine(l) => DataEndView::EndOfLine(*l as nat),
            DataEnd::Short(e, f) => DataEndView::Short(*e as nat, *f as nat),
        }
    }
}

/// The views of lines.
pub open spec fn line_views(lines: Seq<Option<String>>) -> Seq<Option<Seq<char>>> {
    lines.map_values(|l: Option<String>| match l {
        Some(s) => Some(s@),
        None => None,
    })
}

/// The elevations of a grid of `nx` columns and `ny` rows, read from `lines`,
/// the first numbered `lineno`, with their cells, and how they end. With no
/// cell, nothing is read.
pub fn grid_values(lines: &[Option<String>], lineno: usize, nx: usize, ny: usize) -> (r: (Vec<GridValue>, DataEnd))
    requires
        nx * ny <= usize::MAX,
        lineno + lines@.len() <= usize::MAX,
    ensures
        ({
            let size = (nx * ny) as nat;
            let (values, end) = r;
            if size == 0 {
                values@.len() == 0 && end == DataEnd::Complete
            } else {
                let (expected, e) = elevations(line_views(lines@), lineno as nat, size, seq![]);
                &&& end@ == e
                &&& values@.len() == expected.len()
                &&& forall|k: int| 0 <= k < values@.len() ==> {
                    &&& (#[trigger] values@[k]).lineno == expected[k].0
                    &&& values@[k].token@ == expected[k].1
                    &&& values@[k].position == grid_position(k as nat, nx as nat, ny as nat)
                }
            }
        }),
{
    let size = nx * ny;
    let mut values: Vec<GridValue> = Vec::new();
    if size == 0 {
        return (values, DataEnd::Complete);
    }
    let ghost lv = line_views(lines@);
    let ghost mut acc: Seq<(nat, Seq<char>)> = seq![];
    let mut i: usize = 0;
    assert(lv.skip(0) =~= lv);
    while i < lines.len()
        invariant
            size == nx * ny,
            size > 0,
            lineno + lines@.len() <= usize::MAX,
            lv == line_views(lines@),
            0 <= i <= lines@.len(),
            acc.len() == values@.len(),
            acc.len() <= size,
            elevations(lv, lineno as nat, size as nat, seq![]) == elevations(lv.skip(i as int), (lineno + i) as nat, size as nat, acc),
            forall|k: int| 0 <= k < values@.len() ==> {
                &&& (#[trigger] values@[k]).lineno == acc[k].0
                &&& values@[k].token@ == acc[k].1
                &&& values@[k].position == grid_position(k as nat, nx as nat, ny as nat)
            },
        decreases lines@.len() - i,
    {
        let ghost rest = lv.skip(i as int);
        assert(rest[0] == lv[i as int]);
        assert(rest.drop_first() =~= lv.skip(i + 1));
        let text = match &lines[i] {
            None => {
                return (values, DataEnd::EndOfLine(lineno + i));
            },
            Some(text) => text,
        };
        let ws = split_words(text.as_str());
        let ghost wv = ws@.map_values(|w: &str| w@);
        assert(wv == words(text@));
        let room = size - values.len();
        let mut j: usize = 0;
        let ghost start = acc;
        while j < ws.len() && j < room
            invariant
                size == nx * ny,
                lineno + lines@.len() <= usize::MAX,
                i < lines@.len(),
                room == size - start.len(),
                0 <= j <= ws@.len(),
                j <= room,
                wv == ws@.map_values(|w: &str| w@),
                acc == start + numbered(wv.take(j as int), (lineno + i) as nat),
                acc.len() == values@.len(),
                forall|k: int| 0 <= k < values@.len() ==> {
                    &&& (#[trigger] values@[k]).lineno == acc[k].0
                    &&& values@[k].token@ == acc[k].1
                    &&& values@[k].position == grid_position(k as nat, nx as nat, ny as nat)
                },
            decreases ws@.len() - j,
        {
            let k = values.len();
            proof {
                assert(k < size);
                assert(k / nx < ny) by (nonlinear_arith)
                    requires k < size, size == nx * ny, nx > 0;
                assert((ny - 1 - k / nx) * nx + k % nx < size) by (nonlinear_arith)
                    requires k / nx < ny, size == nx * ny, nx > 0, k % nx < nx;
                assert((ny - 1 - k / nx) * nx + k % nx >= 0) by (nonlinear_arith)
                    requires k / nx < ny, nx > 0, k % nx >= 0;
            }
            let row = ny - 1 - k / nx;
            let position = row * nx + k % nx;
            let token = String::from_str(ws[j]);
            values.push(GridValue { lineno: lineno + i, position, token });
            proof {
                assert(wv[j as int] == ws@[j as int]@);
                assert(wv.take(j + 1) =~= wv.take(j as int).push(wv[j as int]));
                assert(numbered(wv.take(j + 1), (lineno + i) as nat) =~= numbered(wv.take(j as int), (lineno + i) as nat).push(((lineno + i) as nat, wv[j as int])));
                acc = acc.push(((lineno + i) as nat, wv[j as int]));
                assert(acc =~= start + numbered(wv.take(j + 1), (lineno + i) as nat));
            }
            j = j + 1;
        }
        if j < ws.len() {
            proof {
                assert(j == room);
                assert(wv.len() > room);
            }
            return (values, DataEnd::Complete);
        }
        proof {
            assert(wv.take(j as int) =~= wv);
        }
        i = i + 1;
    }
    assert(lv.skip(i as int) =~= Seq::<Option<Seq<char>>>::empty());
    let found = values.len();
    if found < size {
        (values, DataEnd::Short(size, found))
    } else {
        (values, DataEnd::Complete)
    }
}

/// A file format of topography maps, known by the file's extension.
#[derive(Clone, Copy, PartialEq, Eq, Structural, Debug)]
pub enum MapFormat {
    /// `asc` or `ASC`.
    Ascii,
    /// `png` or `PNG`.
    Png,
    /// `tif` or `TIF`.
    GeoTiff,
}

/// Why a map file is not read.
pub enum MapFormatError {
    /// Its extension names no format read.
    Unimplemented(String),
    /// It has no extension.
    Missing,
}

/// The format of a map file with the extension `extension`, or the
/// extension that names none.
pub open spec fn map_format_spec(extension: Option<Seq<char>>) -> Result<MapFormat, Option<Seq<char>>> {
    match extension {
        None => Err(None),
        Some(e) => if e == "asc"@ || e == "ASC"@ {
            Ok(MapFormat::Ascii)
        } else if e == "png"@ || e == "PNG"@ {
            Ok(MapFormat::Png)
        } else if e == "tif"@ || e == "TIF"@ {
            Ok(MapFormat::GeoTiff)
        } else {
            Err(Some(e))
        },
    }
}

/// The format of a map file with the extension `extension`.
pub fn map_format(extension: Option<&str>) -> (r: Result<MapFormat, MapFormatError>)
    ensures
        match (r, map_format_spec(opt_line(extension))) {
            (Ok(f), Ok(g)) => f == g,
            (Err(MapFormatError::Unimplemented(e)), Err(Some(x))) => e@ == x,
            (Err(MapFormatError::Missing), Err(None)) => true,
            _ => false,
        },
{
    match extension {
        None => Err(MapFormatError::Missing),
        Some(e) => {
            if str_eq(e, "asc") || str_eq(e, "ASC") {
                Ok(MapFormat::Ascii)
            } else if str_eq(e, "png") || str_eq(e, "PNG") {
                Ok(MapFormat::Png)
            } else if str_eq(e, "tif") || str_eq(e, "TIF") {
                Ok(MapFormat::GeoTiff)
            } else {
                Err(MapFormatError::Unimplemented(e.to_string()))
            }
        },
    }
}

/// The text explaining why a map file is not read.
pub open spec fn map_format_text(extension: Option<Seq<char>>) -> Seq<char> {
    match extension {
        Some(e) => "unimplemented '"@ + e + "' format"@,
        None => "missing format"@,
    }
}

impl MapFormatError {
    /// Why the map file is not read.
    pub fn why(&self) -> (r: String)
        ensures
            r@ == map_format_text(match self {
                MapFormatError::Unimplemented(e) => Some(e@),
                MapFormatError::Missing => None,
            }),
    {
        match self {
            MapFormatError::Unimplemented(e) => {
                let mut text = String::from_str("unimplemented '");
                text.append(e.as_str());
                text.append("' format");
                text
            },
            MapFormatError::Missing => String::from_str("missing format"),
        }
    }
}

/// The EPSG code of a projection named in the metadata of a map image.
pub open spec fn projection_code(name: Seq<char>) -> Option<usize> {
    if name == "Lambert 93"@ {
        Some(2154)
    } else if name == "Lambert I"@ {
        Some(27571)
    } else if name == "Lambert II"@ {
        Some(27572)
    } else if name == "Lambert III"@ {
        Some(27573)
    } else if name == "Lambert IV"@ {
        Some(27574)
    } else {
        None
    }
}

/// The EPSG code of a projection named in the metadata of a map image.
pub fn projection_crs(name: &str) -> (r: Option<usize>)
    ensures
        r == projection_code(name@),
{
    if str_eq(name, "Lambert 93") {
        Some(2154)
    } else if str_eq(name, "Lambert I") {
        Some(27571)
    } else if str_eq(name, "Lambert II") {
        Some(27572)
    } else if str_eq(name, "Lambert III") {
        Some(27573)
    } else if str_eq(name, "Lambert IV") {
        Some(27574)
    } else {
        None
    }
}

/// The coordinate reference system of a map image, from its metadata: that
/// of the projection named, where a name is given, even one not known; or
/// else the code given, if any.
pub fn metadata_crs(projection: Option<&str>, crs: Option<usize>) -> (r: Option<usize>)
    ensures
        r == match projection {
            Some(name) => projection_code(name@),
            None => crs,
        },
{
    match projection {
        Some(name) => projection_crs(name),
        None => crs,
    }
}

/// A file format that a map is written in, known by the file's extension.
#[derive(Clone, Copy, PartialEq, Eq, Structural, Debug)]
pub enum DumpFormat {
    /// `asc` or `ASC`: an ASCII Grid file.
    Ascii,
    /// `png` or `PNG`: an image.
    Png,
    /// `stl` or `STL`: a mesh of the topography.
    Stl,
}

/// The format a map is written in to a file with the extension `extension`,
/// or the extension that names none.
pub open spec fn dump_format_spec(extension: Option<Seq<char>>) -> Result<DumpFormat, Option<Seq<char>>> {
    match extension {
        None => Err(None),
        Some(e) => if e == "asc"@ || e == "ASC"@ {
            Ok(DumpFormat::Ascii)
        } else if e == "png"@ || e == "PNG"@ {
            Ok(DumpFormat::Png)
        } else if e == "stl"@ || e == "STL"@ {
            Ok(DumpFormat::Stl)
        } else {
            Err(Some(e))
        },
    }
}

/// The text explaining why a map is not written to a file with the
/// extension given, or without one.
pub open spec fn dump_format_text(extension: Option<Seq<char>>) -> Seq<char> {
    match extension {
        Some(e) => "unimplemented conversion to '"@ + e + "'"@,
        None => "missing file extension"@,
    }
}

/// The format a map is written in to a file with the extension `extension`,
/// or else why it is not written.
pub fn dump_format(extension: Option<&str>) -> (r: Result<DumpFormat, String>)
    ensures
        match (r, dump_format_spec(opt_line(extension))) {
            (Ok(f), Ok(g)) => f == g,
            (Err(why), Err(e)) => why@ == dump_format_text(e),
            _ => false,
        },
{
    match extension {
        None => Err(String::from_str("missing file extension")),
        Some(e) => {
            if str_eq(e, "asc") || str_eq(e, "ASC") {
                Ok(DumpFormat::Ascii)
            } else if str_eq(e, "png") || str_eq(e, "PNG") {
                Ok(DumpFormat::Png)
            } else if str_eq(e, "stl") || str_eq(e, "STL") {
                Ok(DumpFormat::Stl)
            } else {
                let mut why = String::from_str("unimplemented conversion to '");
                why.append(e);
                why.append("'");
                Err(why)
            }
        },
    }
}

/// A corner of a facet of the mesh of a map: the grid node at row `i` and
/// column `j`, on the topography or at the bottom.
#[derive(Clone, Copy, PartialEq, Eq, Structural, Debug)]
pub struct Corner {
    pub i: usize,
    pub j: usize,
    pub bottom: bool,
}

/// A quadrilateral facet of the mesh of a map, cut into two triangles: `a b
/// c` and `c d a` when it turns left, `a d c` and `c b a` when it turns
/// right.
#[derive(Clone, Copy, PartialEq, Eq, Structural, Debug)]
pub struct Quad {
    pub left: bool,
    pub a: Corner,
    pub b: Corner,
    pub c: Corner,
    pub d: Corner,
}

/// How the corners of a map turn, by the signs of its extents along x and
/// y: alike, opposite, or one of them null.
#[derive(Clone, Copy, PartialEq, Eq, Structural, Debug)]
pub enum Turn {
    Positive,
    Negative,
    Flat,
}

/// The grid node at row `i` and column `j`.
pub open spec fn node(i: int, j: int, bottom: bool) -> Corner {
    Corner { i: i as usize, j: j as usize, bottom }
}

/// The quad of the cell at row `i` and column `j`.
pub open spec fn cell_quad(i: int, j: int, left: bool, bottom: bool) -> Quad {
    Quad {
        left,
        a: node(i, j, bottom),
        b: node(i, j + 1, bottom),
        c: node(i + 1, j + 1, bottom),
        d: node(i + 1, j, bottom),
    }
}

/// The quads of the cells of row `i`.
pub open spec fn cell_row(nx: int, i: int, left: bool, bottom: bool) -> Seq<Quad> {
    Seq::new((nx - 1) as nat, |j: int| cell_quad(i, j, left, bottom))
}

/// The rows of quads of the cells of a `nx` by `ny` grid.
pub open spec fn grid_rows(nx: int, ny: int, left: bool, bottom: bool) -> Seq<Seq<Quad>> {
    Seq::new((ny - 1) as nat, |i: int| cell_row(nx, i, left, bottom))
}

/// The quads of the cells of a `nx` by `ny` grid, row after row.
pub open spec fn grid_quads(nx: int, ny: int, left: bool, bottom: bool) -> Seq<Quad> {
    grid_rows(nx, ny, left, bottom).flatten()
}

/// The quads of the side below row `i`.
pub open spec fn row_side(nx: int, i: int, left: bool) -> Seq<Quad> {
    Seq::new((nx - 1) as nat, |j: int| Quad {
        left,
        a: node(i, j, false),
        b: node(i, j + 1, false),
        c: node(i, j + 1, true),
        d: node(i, j, true),
    })
}

/// The quads of the side below column `j`.
pub open spec fn column_side(ny: int, j: int, left: bool) -> Seq<Quad> {
    Seq::new((ny - 1) as nat, |i: int| Quad {
        left,
        a: node(i, j, false),
        b: node(i + 1, j, false),
        c: node(i + 1, j, true),
        d: node(i, j, true),
    })
}

/// The quads of the bottom: one per cell where the mesh is regular, or else
/// one for the whole of it.
pub open spec fn bottom_quads(nx: int, ny: int, regular: bool, left: bool) -> Seq<Quad> {
    if regular {
        grid_quads(nx, ny, left, true)
    } else {
        seq![Quad {
            left,
            a: node(0, 0, true),
            b: node(0, nx - 1, true),
            c: node(ny - 1, nx - 1, true),
            d: node(ny - 1, 0, true),
        }]
    }
}

/// The quads of the closed mesh of a map of `nx` by `ny` nodes: the
/// topography, the sides below its first and last rows, then below its
/// first and last columns, and the bottom; none where the map is flat.
pub open spec fn mesh_spec(nx: int, ny: int, regular: bool, turn: Turn) -> Seq<Quad> {
    if turn is Flat {
        Seq::empty()
    } else {
        let left = turn is Positive;
        grid_quads(nx, ny, left, false)
            + row_side(nx, 0, !left)
            + row_side(nx, ny - 1, if ny - 1 == 0 { !left } else { left })
            + column_side(ny, 0, left)
            + column_side(ny, nx - 1, if nx - 1 == 0 { left } else { !left })
            + bottom_quads(nx, ny, regular, !left)
    }
}

/// Appends the quads of the cells of a `nx` by `ny` grid.
fn push_grid(out: &mut Vec<Quad>, nx: usize, ny: usize, left: bool, bottom: bool)
    requires
        nx >= 1,
        ny >= 1,
    ensures
        final(out)@ == old(out)@ + grid_quads(nx as int, ny as int, left, bottom),
{
    let ghost start = out@;
    let ghost rows = grid_rows(nx as int, ny as int, left, bottom);
    let mut i: usize = 0;
    assert(rows.take(0).flatten() =~= Seq::<Quad>::empty());
    assert(out@ =~= start + rows.take(0).flatten());
    while i < ny - 1
        invariant
            nx >= 1,
            ny >= 1,
            0 <= i <= ny - 1,
            rows == grid_rows(nx as int, ny as int, left, bottom),
            out@ == start + rows.take(i as int).flatten(),
        decreases ny - 1 - i,
    {
        let ghost before = out@;
        let mut j: usize = 0;
        while j < nx - 1
            invariant
                nx >= 1,
                ny >= 1,
                i < ny - 1,
                0 <= j <= nx - 1,
                out@ == before + cell_row(nx as int, i as int, left, bottom).take(j as int),
            decreases nx - 1 - j,
        {
            out.push(Quad {
                left,
                a: Corner { i, j, bottom },
                b: Corner { i, j: j + 1, bottom },
                c: Corner { i: i + 1, j: j + 1, bottom },
                d: Corner { i: i + 1, j, bottom },
            });
            assert(cell_row(nx as int, i as int, left, bottom).take(j + 1)
                =~= cell_row(nx as int, i as int, left, bottom).take(j as int).push(cell_quad(i as int, j as int, left, bottom)));
            j = j + 1;
        }
        proof {
            assert(cell_row(nx as int, i as int, left, bottom).take(j as int) =~= cell_row(nx as int, i as int, left, bottom));
            assert(rows.take(i + 1) =~= rows.take(i as int).push(rows[i as int]));
            rows.take(i as int).lemma_flatten_push(rows[i as int]);
        }
        i = i + 1;
    }
    assert(rows.take(i as int) =~= rows);
}

/// Appends the quads of the side below row `i`.
fn push_row_side(out: &mut Vec<Quad>, nx: usize, i: usize, left: bool)
    requires
        nx >= 1,
    ensures
        final(out)@ == old(out)@ + row_side(nx as int, i as int, left),
{
    let ghost start = out@;
    let mut j: usize = 0;
    while j < nx - 1
        invariant
            nx >= 1,
            0 <= j <= nx - 1,
            out@ == start + row_side(nx as int, i as int, left).take(j as int),
        decreases nx - 1 - j,
    {
        out.push(Quad {
            left,
            a: Corner { i, j, bottom: false },
            b: Corner { i, j: j + 1, bottom: false },
            c: Corner { i, j: j + 1, bottom: true },
            d: Corner { i, j, bottom: true },
        });
        assert(row_side(nx as int, i as int, left).take(j + 1)
            =~= row_side(nx as int, i as int, left).take(j as int).push(row_side(nx as int, i as int, left)[j as int]));
        j = j + 1;
    }
    assert(row_side(nx as int, i as int, left).take(j as int) =~= row_side(nx as int, i as int, left));
}

/// Appends the quads of the side below column `j`.
fn push_column_side(out: &mut Vec<Quad>, ny: usize, j: usize, left: bool)
    requires
        ny >= 1,
    ensures
        final(out)@ == old(out)@ + column_side(ny as int, j as int, left),
{
    let ghost start = out@;
    let mut i: usize = 0;
    while i < ny - 1
        invariant
            ny >= 1,
            0 <= i <= ny - 1,
            out@ == start + column_side(ny as int, j as int, left).take(i as int),
        decreases ny - 1 - i,
    {
        out.push(Quad {
            left,
            a: Corner { i, j, bottom: false },
            b: Corner { i: i + 1, j, bottom: false },
            c: Corner { i: i + 1, j, bottom: true },
            d: Corner { i, j, bottom: true },
        });
        assert(column_side(ny as int, j as int, left).take(i + 1)
            =~= column_side(ny as int, j as int, left).take(i as int).push(column_side(ny as int, j as int, left)[i as int]));
        i = i + 1;
    }
    assert(column_side(ny as int, j as int, left).take(i as int) =~= column_side(ny as int, j as int, left));
}

/// The quads of the closed mesh of a map of `nx` by `ny` nodes, whose
/// corners turn as `turn` says; the coordinates of each corner are those of
/// its node, at the elevation of the node or at the bottom.
pub fn mesh_quads(nx: usize, ny: usize, regular: bool, turn: Turn) -> (r: Vec<Quad>)
    requires
        nx >= 1,
        ny >= 1,
    ensures
        r@ == mesh_spec(nx as int, ny as int, regular, turn),
{
    let mut out: Vec<Quad> = Vec::new();
    let left = match turn {
        Turn::Positive => true,
        Turn::Negative => false,
        Turn::Flat => {
            assert(out@ =~= mesh_spec(nx as int, ny as int, regular, turn));
            return out;
        },
    };
    push_grid(&mut out, nx, ny, left, false);
    push_row_side(&mut out, nx, 0, !left);
    push_row_side(&mut out, nx, ny - 1, if ny - 1 == 0 { !left } else { left });
    push_column_side(&mut out, ny, 0, left);
    push_column_side(&mut out, ny, nx - 1, if nx - 1 == 0 { left } else { !left });
    if regular {
        push_grid(&mut out, nx, ny, !left, true);
    } else {
        out.push(Quad {
            left: !left,
            a: Corner { i: 0, j: 0, bottom: true },
            b: Corner { i: 0, j: nx - 1, bottom: true },
            c: Corner { i: ny - 1, j: nx - 1, bottom: true },
            d: Corner { i: ny - 1, j: 0, bottom: true },
        });
    }
    assert(out@ =~= mesh_spec(nx as int, ny as int, regular, turn));
    out
}

proof fn lemma_grid_len(nx: int, ny: int, left: bool, bottom: bool, r: int)
    requires
        nx >= 1,
        ny >= 1,
        0 <= r <= ny - 1,
    ensures
        grid_rows(nx, ny, left, bottom).take(r).flatten().len() == r * (nx - 1),
    decreases r,
{
    let rows = grid_rows(nx, ny, left, bottom);
    if r == 0 {
        assert(rows.take(0) =~= Seq::<Seq<Quad>>::empty());
    } else {
        lemma_grid_len(nx, ny, left, bottom, r - 1);
        assert(rows.take(r) =~= rows.take(r - 1).push(rows[r - 1]));
        rows.take(r - 1).lemma_flatten_push(rows[r - 1]);
        assert((r - 1) * (nx - 1) + (nx - 1) == r * (nx - 1)) by (nonlinear_arith);
    }
}

/// The mesh of a map that is not flat has 2 (nx ny - 1) quads where it is
/// regular, (nx + 1) (ny + 1) - 3 otherwise; 18 coordinates each.
pub proof fn law_mesh_size(nx: int, ny: int, regular: bool, turn: Turn)
    requires
        nx >= 1,
        ny >= 1,
        !(turn is Flat),
    ensures
        mesh_spec(nx, ny, regular, turn).len() == if regular {
            2 * (nx * ny - 1)
        } else {
            (nx + 1) * (ny + 1) - 3
        },
{
    let left = turn is Positive;
    let rows_top = grid_rows(nx, ny, left, false);
    let rows_bottom = grid_rows(nx, ny, !left, true);
    lemma_grid_len(nx, ny, left, false, ny - 1);
    lemma_grid_len(nx, ny, !left, true, ny - 1);
    assert(rows_top.take(ny - 1) =~= rows_top);
    assert(rows_bottom.take(ny - 1) =~= rows_bottom);
    let g = (ny - 1) * (nx - 1);
    assert(grid_quads(nx, ny, left, false).len() == g);
    assert(regular ==> bottom_quads(nx, ny, regular, !left).len() == g);
    assert(2 * g + 2 * (nx - 1) + 2 * (ny - 1) == 2 * (nx * ny - 1)) by (nonlinear_arith)
        requires
            g == (ny - 1) * (nx - 1);
    assert(g + 2 * (nx - 1) + 2 * (ny - 1) + 1 == (nx + 1) * (ny + 1) - 3) by (nonlinear_arith)
        requires
            g == (ny - 1) * (nx - 1);
}

/// Whether `u` to `v` is one of the four sides of `q`, taken in the order
/// `a b c d`.
pub open spec fn side_of(q: Quad, u: Corner, v: Corner) -> bool {
    (q.a == u && q.b == v) || (q.b == u && q.c == v) || (q.c == u && q.d == v) || (q.d == u && q.a == v)
}

/// Whether `u` to `v` is an edge on the boundary of the two triangles of
/// `q`, as they turn: along `a b c d` when they turn left, along `a d c b`
/// when they turn right.
pub open spec fn quad_edge(q: Quad, u: Corner, v: Corner) -> bool {
    if q.left {
        side_of(q, u, v)
    } else {
        side_of(q, v, u)
    }
}

/// The quad of the side below row `r`, between columns `j` and `j + 1`.
pub open spec fn row_quad(r: int, j: int, left: bool) -> Quad {
    Quad { left, a: node(r, j, false), b: node(r, j + 1, false), c: node(r, j + 1, true), d: node(r, j, true) }
}

/// The quad of the side below column `c`, between rows `i` and `i + 1`.
pub open spec fn column_quad(c: int, i: int, left: bool) -> Quad {
    Quad { left, a: node(i, c, false), b: node(i + 1, c, false), c: node(i + 1, c, true), d: node(i, c, true) }
}

proof fn lemma_add_contains<A>(a: Seq<A>, b: Seq<A>, x: A)
    ensures
        (a + b).contains(x) <==> a.contains(x) || b.contains(x),
{
    if (a + b).contains(x) {
        let k = choose|k: int| 0 <= k < (a + b).len() && (a + b)[k] == x;
        if k < a.len() {
            assert(a[k] == x);
        } else {
            assert(b[k - a.len()] == x);
        }
    }
    if a.contains(x) {
        let k = choose|k: int| 0 <= k < a.len() && a[k] == x;
        assert((a + b)[k] == x);
    }
    if b.contains(x) {
        let k = choose|k: int| 0 <= k < b.len() && b[k] == x;
        assert((a + b)[k + a.len()] == x);
    }
}

proof fn lemma_flatten_contains<A>(rows: Seq<Seq<A>>, x: A)
    ensures
        rows.flatten().contains(x) <==> exists|r: int| 0 <= r < rows.len() && #[trigger] rows[r].contains(x),
    decreases rows.len(),
{
    if rows.len() > 0 {
        let rest = rows.drop_first();
        lemma_flatten_contains(rest, x);
        lemma_add_contains(rows.first(), rest.flatten(), x);
        if exists|r: int| 0 <= r < rows.len() && #[trigger] rows[r].contains(x) {
            let r = choose|r: int| 0 <= r < rows.len() && #[trigger] rows[r].contains(x);
            if r > 0 {
                assert(rest[r - 1] == rows[r]);
            }
        }
        if exists|r: int| 0 <= r < rest.len() && #[trigger] rest[r].contains(x) {
            let r = choose|r: int| 0 <= r < rest.len() && #[trigger] rest[r].contains(x);
            assert(rows[r + 1] == rest[r]);
        }
    }
}

proof fn lemma_grid_contains(nx: int, ny: int, left: bool, bottom: bool, q: Quad)
    requires
        nx >= 1,
        ny >= 1,
    ensures
        grid_quads(nx, ny, left, bottom).contains(q) <==> exists|i: int, j: int|
            0 <= i < ny - 1 && 0 <= j < nx - 1 && q == #[trigger] cell_quad(i, j, left, bottom),
{
    let rows = grid_rows(nx, ny, left, bottom);
    lemma_flatten_contains(rows, q);
    if grid_quads(nx, ny, left, bottom).contains(q) {
        let r = choose|r: int| 0 <= r < rows.len() && #[trigger] rows[r].contains(q);
        let j = choose|j: int| 0 <= j < rows[r].len() && rows[r][j] == q;
        assert(rows[r] == cell_row(nx, r, left, bottom));
        assert(q == cell_quad(r, j, left, bottom));
        assert(0 <= r < ny - 1 && 0 <= j < nx - 1);
    }
    if exists|i: int, j: int| 0 <= i < ny - 1 && 0 <= j < nx - 1 && q == #[trigger] cell_quad(i, j, left, bottom) {
        let (i, j) = choose|i: int, j: int| 0 <= i < ny - 1 && 0 <= j < nx - 1 && q == #[trigger] cell_quad(i, j, left, bottom);
        assert(rows[i] == cell_row(nx, i, left, bottom));
        assert(rows[i][j] == q);
        assert(rows[i].contains(q));
        assert(grid_quads(nx, ny, left, bottom).contains(q));
    }
}

/// The regular mesh of a map turning left, or right.
pub open spec fn regular_mesh(nx: int, ny: int, left: bool) -> Seq<Quad> {
    mesh_spec(nx, ny, true, if left { Turn::Positive } else { Turn::Negative })
}

/// The other way of turning.
pub open spec fn flip(left: bool) -> bool {
    !left
}

/// The last of `n` positions.
pub open spec fn last_of(n: int) -> int {
    n - 1
}

/// The quads of a regular mesh of a map of at least 2 by 2 nodes, by kind.
proof fn lemma_mesh_contains(nx: int, ny: int, left: bool, q: Quad)
    requires
        nx >= 2,
        ny >= 2,
    ensures
        regular_mesh(nx, ny, left).contains(q) <==> {
            ||| exists|i: int, j: int| 0 <= i < ny - 1 && 0 <= j < nx - 1 && q == #[trigger] cell_quad(i, j, left, false)
            ||| exists|i: int, j: int| 0 <= i < ny - 1 && 0 <= j < nx - 1 && q == #[trigger] cell_quad(i, j, flip(left), true)
            ||| exists|j: int| 0 <= j < nx - 1 && q == #[trigger] row_quad(0, j, flip(left))
            ||| exists|j: int| 0 <= j < nx - 1 && q == #[trigger] row_quad(last_of(ny), j, left)
            ||| exists|i: int| 0 <= i < ny - 1 && q == #[trigger] column_quad(0, i, left)
            ||| exists|i: int| 0 <= i < ny - 1 && q == #[trigger] column_quad(last_of(nx), i, flip(left))
        },
{
    let top = grid_quads(nx, ny, left, false);
    let r0 = row_side(nx, 0, !left);
    let r1 = row_side(nx, ny - 1, left);
    let c0 = column_side(ny, 0, left);
    let c1 = column_side(ny, nx - 1, !left);
    let bot = grid_quads(nx, ny, flip(left), true);
    assert(regular_mesh(nx, ny, left) == top + r0 + r1 + c0 + c1 + bot);
    lemma_add_contains(top + r0 + r1 + c0 + c1, bot, q);
    lemma_add_contains(top + r0 + r1 + c0, c1, q);
    lemma_add_contains(top + r0 + r1, c0, q);
    lemma_add_contains(top + r0, r1, q);
    lemma_add_contains(top, r0, q);
    lemma_grid_contains(nx, ny, left, false, q);
    lemma_grid_contains(nx, ny, flip(left), true, q);
    if r0.contains(q) {
        let j = choose|j: int| 0 <= j < r0.len() && r0[j] == q;
        assert(q == row_quad(0, j, flip(left)));
    }
    if exists|j: int| 0 <= j < nx - 1 && q == #[trigger] row_quad(0, j, flip(left)) {
        let j = choose|j: int| 0 <= j < nx - 1 && q == #[trigger] row_quad(0, j, flip(left));
        assert(r0[j] == q);
    }
    if r1.contains(q) {
        let j = choose|j: int| 0 <= j < r1.len() && r1[j] == q;
        assert(q == row_quad(last_of(ny), j, left));
    }
    if exists|j: int| 0 <= j < nx - 1 && q == #[trigger] row_quad(last_of(ny), j, left) {
        let j = choose|j: int| 0 <= j < nx - 1 && q == #[trigger] row_quad(last_of(ny), j, left);
        assert(r1[j] == q);
    }
    if c0.contains(q) {
        let i = choose|i: int| 0 <= i < c0.len() && c0[i] == q;
        assert(q == column_quad(0, i, left));
    }
    if exists|i: int| 0 <= i < ny - 1 && q == #[trigger] column_quad(0, i, left) {
        let i = choose|i: int| 0 <= i < ny - 1 && q == #[trigger] column_quad(0, i, left);
        assert(c0[i] == q);
    }
    if c1.contains(q) {
        let i = choose|i: int| 0 <= i < c1.len() && c1[i] == q;
        assert(q == column_quad(last_of(nx), i, flip(left)));
    }
    if exists|i: int| 0 <= i < ny - 1 && q == #[trigger] column_quad(last_of(nx), i, flip(left)) {
        let i = choose|i: int| 0 <= i < ny - 1 && q == #[trigger] column_quad(last_of(nx), i, flip(left));
        assert(c1[i] == q);
    }
}

/// Whether `q2` holds the side `u` to `v` of `q` reversed, once both turn:
/// reversed if they turn alike, as it is if they turn apart.
pub open spec fn meets(q: Quad, q2: Quad, u: Corner, v: Corner) -> bool {
    (q2.left == q.left && side_of(q2, v, u)) || (q2.left != q.left && side_of(q2, u, v))
}

proof fn lemma_side_partner(nx: int, ny: int, left: bool, q: Quad, u: Corner, v: Corner)
    requires
        nx >= 2,
        ny >= 2,
        regular_mesh(nx, ny, left).contains(q),
        side_of(q, u, v),
    ensures
        exists|q2: Quad| #[trigger] regular_mesh(nx, ny, left).contains(q2) && meets(q, q2, u, v),
{
    let m = regular_mesh(nx, ny, left);
    let h = ny - 1;
    let w = nx - 1;
    lemma_mesh_contains(nx, ny, left, q);
    let q2 = if exists|i: int, j: int| 0 <= i < h && 0 <= j < w && q == #[trigger] cell_quad(i, j, left, false) {
        let (i, j) = choose|i: int, j: int| 0 <= i < h && 0 <= j < w && q == #[trigger] cell_quad(i, j, left, false);
        if q.a == u && q.b == v {
            if i >= 1 { cell_quad(i - 1, j, left, false) } else { row_quad(0, j, flip(left)) }
        } else if q.b == u && q.c == v {
            if j + 1 < w { cell_quad(i, j + 1, left, false) } else { column_quad(last_of(nx), i, flip(left)) }
        } else if q.c == u && q.d == v {
            if i + 1 < h { cell_quad(i + 1, j, left, false) } else { row_quad(last_of(ny), j, left) }
        } else {
            if j >= 1 { cell_quad(i, j - 1, left, false) } else { column_quad(0, i, left) }
        }
    } else if exists|i: int, j: int| 0 <= i < h && 0 <= j < w && q == #[trigger] cell_quad(i, j, flip(left), true) {
        let (i, j) = choose|i: int, j: int| 0 <= i < h && 0 <= j < w && q == #[trigger] cell_quad(i, j, flip(left), true);
        if q.a == u && q.b == v {
            if i >= 1 { cell_quad(i - 1, j, flip(left), true) } else { row_quad(0, j, flip(left)) }
        } else if q.b == u && q.c == v {
            if j + 1 < w { cell_quad(i, j + 1, flip(left), true) } else { column_quad(last_of(nx), i, flip(left)) }
        } else if q.c == u && q.d == v {
            if i + 1 < h { cell_quad(i + 1, j, flip(left), true) } else { row_quad(last_of(ny), j, left) }
        } else {
            if j >= 1 { cell_quad(i, j - 1, flip(left), true) } else { column_quad(0, i, left) }
        }
    } else if exists|j: int| 0 <= j < w && q == #[trigger] row_quad(0, j, flip(left)) {
        let j = choose|j: int| 0 <= j < w && q == #[trigger] row_quad(0, j, flip(left));
        if q.a == u && q.b == v {
            cell_quad(0, j, left, false)
        } else if q.b == u && q.c == v {
            if j + 1 < w { row_quad(0, j + 1, flip(left)) } else { column_quad(last_of(nx), 0, flip(left)) }
        } else if q.c == u && q.d == v {
            cell_quad(0, j, flip(left), true)
        } else {
            if j >= 1 { row_quad(0, j - 1, flip(left)) } else { column_quad(0, 0, left) }
        }
    } else if exists|j: int| 0 <= j < w && q == #[trigger] row_quad(last_of(ny), j, left) {
        let j = choose|j: int| 0 <= j < w && q == #[trigger] row_quad(last_of(ny), j, left);
        if q.a == u && q.b == v {
            cell_quad(h - 1, j, left, false)
        } else if q.b == u && q.c == v {
            if j + 1 < w { row_quad(last_of(ny), j + 1, left) } else { column_quad(last_of(nx), h - 1, flip(left)) }
        } else if q.c == u && q.d == v {
            cell_quad(h - 1, j, flip(left), true)
        } else {
            if j >= 1 { row_quad(last_of(ny), j - 1, left) } else { column_quad(0, h - 1, left) }
        }
    } else if exists|i: int| 0 <= i < h && q == #[trigger] column_quad(0, i, left) {
        let i = choose|i: int| 0 <= i < h && q == #[trigger] column_quad(0, i, left);
        if q.a == u && q.b == v {
            cell_quad(i, 0, left, false)
        } else if q.b == u && q.c == v {
            if i + 1 < h { column_quad(0, i + 1, left) } else { row_quad(last_of(ny), 0, left) }
        } else if q.c == u && q.d == v {
            cell_quad(i, 0, flip(left), true)
        } else {
            if i >= 1 { column_quad(0, i - 1, left) } else { row_quad(0, 0, flip(left)) }
        }
    } else {
        let i = choose|i: int| 0 <= i < h && q == #[trigger] column_quad(last_of(nx), i, flip(left));
        if q.a == u && q.b == v {
            cell_quad(i, w - 1, left, false)
        } else if q.b == u && q.c == v {
            if i + 1 < h { column_quad(last_of(nx), i + 1, flip(left)) } else { row_quad(last_of(ny), w - 1, left) }
        } else if q.c == u && q.d == v {
            cell_quad(i, w - 1, flip(left), true)
        } else {
            if i >= 1 { column_quad(last_of(nx), i - 1, flip(left)) } else { row_quad(0, w - 1, flip(left)) }
        }
    };
    lemma_mesh_contains(nx, ny, left, q2);
    assert(m.contains(q2) && meets(q, q2, u, v));
}

/// A regular mesh of a map of at least 2 by 2 nodes is closed, turning one
/// way: each edge on the boundary of the triangles of a quad is met, the
/// other way round, by one on the boundary of the triangles of a quad of the
/// mesh.
pub proof fn law_mesh_closed(nx: int, ny: int, turn: Turn, q: Quad, u: Corner, v: Corner)
    requires
        nx >= 2,
        ny >= 2,
        !(turn is Flat),
        mesh_spec(nx, ny, true, turn).contains(q),
        quad_edge(q, u, v),
    ensures
        exists|q2: Quad| #[trigger] mesh_spec(nx, ny, true, turn).contains(q2) && quad_edge(q2, v, u),
{
    let left = turn is Positive;
    assert(mesh_spec(nx, ny, true, turn) == regular_mesh(nx, ny, left));
    if q.left {
        lemma_side_partner(nx, ny, left, q, u, v);
        let q2 = choose|q2: Quad| #[trigger] regular_mesh(nx, ny, left).contains(q2) && meets(q, q2, u, v);
        assert(quad_edge(q2, v, u));
    } else {
        lemma_side_partner(nx, ny, left, q, v, u);
        let q2 = choose|q2: Quad| #[trigger] regular_mesh(nx, ny, left).contains(q2) && meets(q, q2, v, u);
        assert(quad_edge(q2, v, u));
    }
}

} // verus!
