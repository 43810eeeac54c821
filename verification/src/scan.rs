//! The section scanner: locating the module summary banner inside a whole
//! report, skipping the column header, and reading the object groups.

use vstd::prelude::*;
use vstd::string::StringSliceAdditionalSpecFns;

use crate::module::Module;
use crate::table::spec_line_ending;

verus! {

/// The classes of bytes that the scanner recognises in runs.
#[derive(Clone, Copy, Debug, PartialEq, Eq, Structural)]
pub enum ByteClass {
    /// An asterisk: the section delimiter glyph.
    Star,
    /// A space or a horizontal tab.
    Blank,
    /// Any whitespace: space, tab, line feed or carriage return.
    AnyWhite,
    /// A dash: the terminator glyph.
    Dash,
    /// A space or a dash: the column underline glyphs.
    SpaceDash,
    /// Anything but a line feed.
    NonLineFeed,
    /// Anything but an asterisk.
    NonStar,
}

/// Whether a byte belongs to a class.
pub open spec fn in_class(b: u8, c: ByteClass) -> bool {
    match c {
        ByteClass::Star => b == 42,
        ByteClass::Blank => b == 32 || b == 9,
        ByteClass::AnyWhite => b == 32 || b == 9 || b == 10 || b == 13,
        ByteClass::Dash => b == 45,
        ByteClass::SpaceDash => b == 32 || b == 45,
        ByteClass::NonLineFeed => b != 10,
        ByteClass::NonStar => b != 42,
    }
}

/// The end of the run of class `c` bytes that starts at `from`: the first
/// index at or after `from` whose byte is outside the class, or the
/// input's length.
pub open spec fn spec_skip(s: Seq<u8>, from: int, c: ByteClass) -> int
    decreases s.len() - from when 0 <= from <= s.len()
{
    if from >= s.len() {
        s.len() as int
    } else if in_class(s[from], c) {
        spec_skip(s, from + 1, c)
    } else {
        from
    }
}

/// The run end never moves backwards and stays inside the input.
pub proof fn lemma_spec_skip_bounds(s: Seq<u8>, from: int, c: ByteClass)
    requires
        0 <= from <= s.len(),
    ensures
        from <= spec_skip(s, from, c) <= s.len(),
    decreases s.len() - from,
{
    if from < s.len() && in_class(s[from], c) {
        lemma_spec_skip_bounds(s, from + 1, c);
    }
}

/// Skips the run of class `c` bytes starting at `from`.
pub fn skip_class(input: &[u8], from: usize, c: ByteClass) -> (r: usize)
    requires
        from <= input@.len(),
    ensures
        r == spec_skip(input@, from as int, c),
        from <= r <= input@.len(),
        input@.len() <= usize::MAX,
        r < input@.len() ==> !in_class(input@[r as int], c),
        forall|j: int| from <= j < r ==> in_class(input@[j], c),
{
    let mut i: usize = from;
    while i < input.len()
        invariant
            from <= i <= input@.len(),
            spec_skip(input@, from as int, c) == spec_skip(input@, i as int, c),
            forall|j: int| from <= j < i ==> in_class(input@[j], c),
        decreases input@.len() - i,
    {
        let b = *vstd::slice::slice_index_get(input, i);
        let hit = match c {
            ByteClass::Star => b == 42,
            ByteClass::Blank => b == 32 || b == 9,
            ByteClass::AnyWhite => b == 32 || b == 9 || b == 10 || b == 13,
            ByteClass::Dash => b == 45,
            ByteClass::SpaceDash => b == 32 || b == 45,
            ByteClass::NonLineFeed => b != 10,
            ByteClass::NonStar => b != 42,
        };
        if !hit {
            return i;
        }
        i = i + 1;
    }
    i
}

/// Whether the bytes of `pat` stand in `s` at position `at`.
pub open spec fn spec_tag(s: Seq<u8>, at: int, pat: Seq<u8>) -> bool {
    0 <= at && at + pat.len() <= s.len() && s.subrange(at, at + pat.len()) == pat
}

/// Tests whether the bytes of the literal `pat` stand in the input at
/// position `at`.
fn tag(input: &[u8], at: usize, pat: &str) -> (r: bool)
    requires
        at <= input@.len(),
    ensures
        r == spec_tag(input@, at as int, pat.spec_bytes()),
{
    let pb = pat.as_bytes();
    let plen = pb.len();
    if input.len() - at < plen {
        return false;
    }
    let ghost sub = input@.subrange(at as int, at + plen);
    let mut i: usize = 0;
    while i < plen
        invariant
            i <= plen,
            at + plen <= input@.len(),
            input@.len() <= usize::MAX,
            plen == pat.spec_bytes().len(),
            pb@ == pat.spec_bytes(),
            sub == input@.subrange(at as int, at + plen),
            forall|j: int| 0 <= j < i ==> sub[j] == pat.spec_bytes()[j],
        decreases plen - i,
    {
        let b = *vstd::slice::slice_index_get(input, at + i);
        let p = *vstd::slice::slice_index_get(pb, i);
        if b != p {
            proof {
                assert(sub[i as int] != pat.spec_bytes()[i as int]);
            }
            return false;
        }
        i = i + 1;
    }
    proof {
        assert(sub =~= pat.spec_bytes());
    }
    true
}

/// Reads a line ending at position `at`: a line feed, or a carriage return
/// and a line feed; gives the position after it.
fn line_ending_at(input: &[u8], at: usize) -> (r: Option<usize>)
    requires
        at <= input@.len(),
    ensures
        (r is Some) == (spec_line_ending(input@, at as int) is Some),
        r matches Some(p) ==> spec_line_ending(input@, at as int) == Some(p as int),
{
    if at < input.len() {
        let b0 = *vstd::slice::slice_index_get(input, at);
        if b0 == 10 {
            Some(at + 1)
        } else if b0 == 13 && at + 1 < input.len() && *vstd::slice::slice_index_get(input, at + 1)
            == 10 {
            Some(at + 2)
        } else {
            None
        }
    } else {
        None
    }
}

/// The module summary banner, read from the front of the input: a row of
/// asterisks, a line of asterisks and blanks naming `MODULE SUMMARY`, and
/// a final row of asterisks; gives the position after the final row.
pub open spec fn spec_header(s: Seq<u8>) -> Option<int> {
    let e1 = spec_skip(s, 0, ByteClass::Star);
    if e1 < 1 {
        None
    } else {
        match spec_line_ending(s, e1) {
            None => None,
            Some(p1) => {
                let e2 = spec_skip(s, p1, ByteClass::Star);
                let e3 = spec_skip(s, e2, ByteClass::Blank);
                if e3 <= e2 {
                    None
                } else if !spec_tag(s, e3, "MODULE SUMMARY".spec_bytes()) {
                    None
                } else {
                    match spec_line_ending(s, e3 + "MODULE SUMMARY".spec_bytes().len()) {
                        None => None,
                        Some(p2) => {
                            let e4 = spec_skip(s, p2, ByteClass::Star);
                            if e4 <= p2 {
                                None
                            } else {
                                Some(e4)
                            }
                        },
                    }
                }
            },
        }
    }
}

/// Parses the entire module summary banner from the front of the input.
pub fn header(input: &[u8]) -> (r: Option<usize>)
    ensures
        (r is Some) == (spec_header(input@) is Some),
        r matches Some(c) ==> spec_header(input@) == Some(c as int),
{
    let e1 = skip_class(input, 0, ByteClass::Star);
    if e1 < 1 {
        return None;
    }
    let p1 = match line_ending_at(input, e1) {
        Some(p) => p,
        None => {
            return None;
        },
    };
    let e2 = skip_class(input, p1, ByteClass::Star);
    let e3 = skip_class(input, e2, ByteClass::Blank);
    if e3 <= e2 {
        return None;
    }
    if !tag(input, e3, "MODULE SUMMARY") {
        return None;
    }
    let marker_len = "MODULE SUMMARY".as_bytes().len();
    let p2 = match line_ending_at(input, e3 + marker_len) {
        Some(p) => p,
        None => {
            return None;
        },
    };
    let e4 = skip_class(input, p2, ByteClass::Star);
    if e4 <= p2 {
        return None;
    }
    Some(e4)
}

/// The position after the first banner that starts at the beginning of a
/// line, scanning line by line; everything before it carries no meaning.
pub open spec fn spec_find_header(s: Seq<u8>) -> Option<int>
    decreases s.len(),
{
    match spec_header(s) {
        Some(c) => Some(c),
        None => {
            let e = crate::codec::spec_find_break(s, 0);
            match spec_line_ending(s, e) {
                None => None,
                Some(p) => {
                    if 0 < p <= s.len() {
                        match spec_find_header(s.skip(p)) {
                            Some(c2) => Some(p + c2),
                            None => None,
                        }
                    } else {
                        None
                    }
                },
            }
        },
    }
}

/// Consumes arbitrary content until the module summary banner is found,
/// scanning line by line; gives the position after the banner.
pub fn find_header(input: &[u8]) -> (r: Option<usize>)
    ensures
        (r is Some) == (spec_find_header(input@) is Some),
        r matches Some(c) ==> spec_find_header(input@) == Some(c as int) && c <= input@.len(),
    decreases input@.len(),
{
    proof {
        lemma_find_header_bounds(input@);
    }
    match header(input) {
        Some(c) => {
            proof {
                lemma_header_bounds(input@);
            }
            Some(c)
        },
        None => {
            let e = crate::codec::find_break(input, 0);
            let p = match line_ending_at(input, e) {
                Some(p) => p,
                None => {
                    return None;
                },
            };
            let rest = vstd::slice::slice_subrange(input, p, input.len());
            proof {
                assert(rest@ =~= input@.skip(p as int));
            }
            match find_header(rest) {
                Some(c2) => Some(p + c2),
                None => None,
            }
        },
    }
}

/// A found banner ends inside the input.
pub proof fn lemma_header_bounds(s: Seq<u8>)
    ensures
        spec_header(s) matches Some(c) ==> 0 < c <= s.len(),
{
    let e1 = spec_skip(s, 0, ByteClass::Star);
    lemma_spec_skip_bounds(s, 0, ByteClass::Star);
    if e1 >= 1 && spec_line_ending(s, e1) is Some {
        let p1 = spec_line_ending(s, e1)->0;
        lemma_spec_skip_bounds(s, p1, ByteClass::Star);
        let e2 = spec_skip(s, p1, ByteClass::Star);
        lemma_spec_skip_bounds(s, e2, ByteClass::Blank);
        let e3 = spec_skip(s, e2, ByteClass::Blank);
        if e3 > e2 && spec_tag(s, e3, "MODULE SUMMARY".spec_bytes()) {
            let at = e3 + "MODULE SUMMARY".spec_bytes().len();
            if spec_line_ending(s, at) is Some {
                let p2 = spec_line_ending(s, at)->0;
                lemma_spec_skip_bounds(s, p2, ByteClass::Star);
            }
        }
    }
}

/// A found banner position stays inside the input.
pub proof fn lemma_find_header_bounds(s: Seq<u8>)
    ensures
        spec_find_header(s) matches Some(c) ==> 0 < c <= s.len(),
    decreases s.len(),
{
    lemma_header_bounds(s);
    if spec_header(s) is None {
        let e = crate::codec::spec_find_break(s, 0);
        match spec_line_ending(s, e) {
            None => {},
            Some(p) => {
                if 0 < p <= s.len() {
                    lemma_find_header_bounds(s.skip(p));
                }
            },
        }
    }
}

/// The column header block, read from the front of the input: whitespace,
/// the four column titles separated by blanks, a line ending, and the run
/// of spaces and dashes underlining them; gives the position after that
/// run, before its line ending.
pub open spec fn spec_table_start(s: Seq<u8>) -> Option<int> {
    let w = spec_skip(s, 0, ByteClass::AnyWhite);
    if w < 1 || !spec_tag(s, w, "Module".spec_bytes()) {
        None
    } else {
        let m = w + "Module".spec_bytes().len();
        let w2 = spec_skip(s, m, ByteClass::AnyWhite);
        if w2 <= m || !spec_tag(s, w2, "ro code".spec_bytes()) {
            None
        } else {
            let r1 = w2 + "ro code".spec_bytes().len();
            let w3 = spec_skip(s, r1, ByteClass::Blank);
            if w3 <= r1 || !spec_tag(s, w3, "ro data".spec_bytes()) {
                None
            } else {
                let r2 = w3 + "ro data".spec_bytes().len();
                let w4 = spec_skip(s, r2, ByteClass::Blank);
                if w4 <= r2 || !spec_tag(s, w4, "rw data".spec_bytes()) {
                    None
                } else {
                    let r3 = w4 + "rw data".spec_bytes().len();
                    match spec_line_ending(s, r3) {
                        None => None,
                        Some(p) => Some(spec_skip(s, p, ByteClass::SpaceDash)),
                    }
                }
            }
        }
    }
}

/// Parses the table start: the column titles and their dashed underline.
/// Consumes up to the end of the underline run and returns the position
/// there; the underline's own line ending is left for the caller.
pub fn table_start(input: &[u8]) -> (r: Option<usize>)
    ensures
        (r is Some) == (spec_table_start(input@) is Some),
        r matches Some(c) ==> spec_table_start(input@) == Some(c as int) && c <= input@.len(),
{
    let w = skip_class(input, 0, ByteClass::AnyWhite);
    if w < 1 || !tag(input, w, "Module") {
        return None;
    }
    let m = w + "Module".as_bytes().len();
    proof {
        assert(m <= input@.len());
    }
    let w2 = skip_class(input, m, ByteClass::AnyWhite);
    if w2 <= m || !tag(input, w2, "ro code") {
        return None;
    }
    let r1 = w2 + "ro code".as_bytes().len();
    let w3 = skip_class(input, r1, ByteClass::Blank);
    if w3 <= r1 || !tag(input, w3, "ro data") {
        return None;
    }
    let r2 = w3 + "ro data".as_bytes().len();
    let w4 = skip_class(input, r2, ByteClass::Blank);
    if w4 <= r2 || !tag(input, w4, "rw data") {
        return None;
    }
    let r3 = w4 + "rw data".as_bytes().len();
    let p = match line_ending_at(input, r3) {
        Some(p) => p,
        None => {
            return None;
        },
    };
    Some(skip_class(input, p, ByteClass::SpaceDash))
}

/// Relates an object group header to its mapping of object files.
///
/// The `name` member is the group's free-text header line, kept verbatim,
/// and the `table` member maps each object file name of the group to its
/// record.
#[derive(Debug)]
pub struct ObjModuleTable {
    pub name: String,
    pub table: crate::table::ModuleMap,
}

impl PartialEq for ObjModuleTable {
    fn eq(&self, other: &ObjModuleTable) -> bool {
        self.name == other.name && self.table == other.table
    }
}

impl vstd::std_specs::cmp::PartialEqSpecImpl for ObjModuleTable {
    open spec fn obeys_eq_spec() -> bool {
        true
    }

    open spec fn eq_spec(&self, other: &ObjModuleTable) -> bool {
        self.name@ == other.name@ && self.table@ == other.table@
    }
}

/// The group header read from the front of the input: one whole text line,
/// verbatim, with its line ending; gives the header text and the position
/// after the ending.
pub open spec fn spec_obj_header(s: Seq<u8>) -> Option<(Seq<char>, int)> {
    let e = crate::codec::spec_find_break(s, 0);
    let line = s.take(e);
    if !crate::strutil::all_ascii(line) {
        None
    } else {
        match spec_line_ending(s, e) {
            None => None,
            Some(p) => Some((crate::strutil::ascii_chars(line), p)),
        }
    }
}

/// Parses the object group header: one whole line, kept verbatim.
pub fn obj_header(input: &[u8]) -> (r: Option<(String, usize)>)
    ensures
        (r is Some) == (spec_obj_header(input@) is Some),
        r matches Some(t) ==> spec_obj_header(input@) matches Some(st) && t.0@ == st.0 && t.1
            == st.1,
{
    let e = crate::codec::find_break(input, 0);
    let line = vstd::slice::slice_subrange(input, 0, e);
    proof {
        assert(line@ =~= input@.take(crate::codec::spec_find_break(input@, 0)));
    }
    if !crate::strutil::check_ascii(line) {
        return None;
    }
    match line_ending_at(input, e) {
        Some(p) => Some((crate::strutil::ascii_to_string(line), p)),
        None => None,
    }
}

/// A table terminator line: leading whitespace, then one or more dashes,
/// and nothing else.
pub open spec fn is_terminator_line(line: Seq<u8>) -> bool {
    let w = spec_skip(line, 0, ByteClass::Blank);
    let d = spec_skip(line, w, ByteClass::Dash);
    1 <= w && w < d && d == line.len()
}

/// The table end read from the front of the input: a terminator line with
/// its line ending; gives the position after the ending.
pub open spec fn spec_table_end(s: Seq<u8>) -> Option<int> {
    let e = crate::codec::spec_find_break(s, 0);
    if is_terminator_line(s.take(e)) {
        spec_line_ending(s, e)
    } else {
        None
    }
}

/// Parses a table end: whitespace, one or more dashes, and the line ending.
pub fn table_end(input: &[u8]) -> (r: Option<usize>)
    ensures
        (r is Some) == (spec_table_end(input@) is Some),
        r matches Some(p) ==> spec_table_end(input@) == Some(p as int),
{
    let e = crate::codec::find_break(input, 0);
    let line = vstd::slice::slice_subrange(input, 0, e);
    proof {
        assert(line@ =~= input@.take(crate::codec::spec_find_break(input@, 0)));
    }
    let w = skip_class(line, 0, ByteClass::Blank);
    if w < 1 {
        return None;
    }
    let d = skip_class(line, w, ByteClass::Dash);
    if d <= w || d < line.len() {
        return None;
    }
    line_ending_at(input, e)
}

/// One whole object group read from the front of the input: the header
/// line, the rows of its table, the terminator line, and one further line
/// (the group's totals) consumed through its line feed.  Gives the header
/// text, the mapping, and the bytes consumed.
pub open spec fn spec_tablep(s: Seq<u8>, n: int) -> Option<
    (Seq<char>, Map<Seq<char>, Module>, int),
> {
    match spec_obj_header(s) {
        None => None,
        Some((name, c0)) => {
            if 0 < c0 <= s.len() {
                let t = crate::table::spec_module_table(s.skip(c0), n);
                let after_rows = c0 + t.1;
                match spec_table_end(s.skip(after_rows)) {
                    None => None,
                    Some(c2) => {
                        let after_end = after_rows + c2;
                        if after_end <= s.len() {
                            let rest = s.skip(after_end);
                            let lf = spec_skip(rest, 0, ByteClass::NonLineFeed);
                            if lf < rest.len() {
                                Some((name, t.0, after_end + lf + 1))
                            } else {
                                None
                            }
                        } else {
                            None
                        }
                    },
                }
            } else {
                None
            }
        },
    }
}

/// A parsed group consumes at least one byte and at most the input.
pub proof fn lemma_tablep_bounds(s: Seq<u8>, n: int)
    ensures
        spec_tablep(s, n) matches Some(t) ==> 0 < t.2 <= s.len(),
{
    match spec_obj_header(s) {
        None => {},
        Some((name, c0)) => {
            if 0 < c0 <= s.len() {
                crate::table::lemma_module_table_bounds(s.skip(c0), n);
                let t = crate::table::spec_module_table(s.skip(c0), n);
                let after_rows = c0 + t.1;
                match spec_table_end(s.skip(after_rows)) {
                    None => {},
                    Some(c2) => {
                        let after_end = after_rows + c2;
                        if after_end <= s.len() {
                            let rest = s.skip(after_end);
                            lemma_spec_skip_bounds(rest, 0, ByteClass::NonLineFeed);
                        }
                    },
                }
            }
        },
    }
}

/// Parses one object group: header line, table rows, terminator, and the
/// totals line.
pub fn tablep(input: &[u8], nbytes: usize) -> (r: Option<(ObjModuleTable, usize)>)
    ensures
        (r is Some) == (spec_tablep(input@, nbytes as int) is Some),
        r matches Some(t) ==> spec_tablep(input@, nbytes as int) matches Some(st) && t.0.name@
            == st.0 && t.0.table@ == st.1 && t.0.table.wf() && t.1 == st.2,
{
    let (name, c0) = match obj_header(input) {
        Some(t) => t,
        None => {
            return None;
        },
    };
    let rows_slice = vstd::slice::slice_subrange(input, c0, input.len());
    proof {
        assert(rows_slice@ =~= input@.skip(c0 as int));
        crate::table::lemma_module_table_bounds(rows_slice@, nbytes as int);
    }
    let (map, c1) = crate::table::module_table(rows_slice, nbytes);
    let after_rows = c0 + c1;
    let end_slice = vstd::slice::slice_subrange(input, after_rows, input.len());
    proof {
        assert(end_slice@ =~= input@.skip(after_rows as int));
    }
    let c2 = match table_end(end_slice) {
        Some(p) => p,
        None => {
            return None;
        },
    };
    proof {
        lemma_table_end_bounds(end_slice@);
    }
    let after_end = after_rows + c2;
    let rest = vstd::slice::slice_subrange(input, after_end, input.len());
    proof {
        assert(rest@ =~= input@.skip(after_end as int));
    }
    let lf = skip_class(rest, 0, ByteClass::NonLineFeed);
    if lf < rest.len() {
        Some((ObjModuleTable { name, table: map }, after_end + lf + 1))
    } else {
        None
    }
}

/// A table end stays inside the input.
pub proof fn lemma_table_end_bounds(s: Seq<u8>)
    ensures
        spec_table_end(s) matches Some(p) ==> 0 < p <= s.len(),
{
}

/// The bytes consumed by whitespace-only lines at the front of the input:
/// each such line is blanks alone up to its line ending.
pub open spec fn spec_skip_blank_lines(s: Seq<u8>) -> int
    decreases s.len(),
{
    let e = spec_skip(s, 0, ByteClass::Blank);
    match spec_line_ending(s, e) {
        Some(p) => if 0 < p <= s.len() {
            p + spec_skip_blank_lines(s.skip(p))
        } else {
            0
        },
        None => 0,
    }
}

/// Skipping blank lines consumes at most the input.
pub proof fn lemma_skip_blank_lines_bounds(s: Seq<u8>)
    ensures
        0 <= spec_skip_blank_lines(s) <= s.len(),
    decreases s.len(),
{
    let e = spec_skip(s, 0, ByteClass::Blank);
    match spec_line_ending(s, e) {
        Some(p) => {
            if 0 < p <= s.len() {
                lemma_skip_blank_lines_bounds(s.skip(p));
            }
        },
        None => {},
    }
}

/// Consumes the whitespace-only lines at the front of the input.
pub fn skip_blank_lines(input: &[u8]) -> (r: usize)
    ensures
        r == spec_skip_blank_lines(input@),
        r <= input@.len(),
    decreases input@.len(),
{
    let e = skip_class(input, 0, ByteClass::Blank);
    match line_ending_at(input, e) {
        Some(p) => {
            let rest = vstd::slice::slice_subrange(input, p, input.len());
            proof {
                assert(rest@ =~= input@.skip(p as int));
            }
            p + skip_blank_lines(rest)
        },
        None => 0,
    }
}

/// How an exec group list corresponds to its specification: the same
/// groups in the same order, each with its header text and its mapping,
/// and each mapping well formed.
pub open spec fn report_matches(
    r: Seq<ObjModuleTable>,
    g: Seq<(Seq<char>, Map<Seq<char>, Module>)>,
) -> bool {
    &&& r.len() == g.len()
    &&& forall|i: int|
        0 <= i < r.len() ==> (#[trigger] r[i].name)@ == g[i].0 && r[i].table@ == g[i].1
            && r[i].table.wf()
}

/// The object groups read one after another from the front of the input,
/// each followed by any whitespace-only lines, until a group fails to
/// parse; gives the groups in order and the bytes consumed.
pub open spec fn spec_groups(s: Seq<u8>, n: int) -> (
    Seq<(Seq<char>, Map<Seq<char>, Module>)>,
    int,
)
    decreases s.len(),
{
    match spec_tablep(s, n) {
        None => (Seq::<(Seq<char>, Map<Seq<char>, Module>)>::empty(), 0),
        Some((name, map, c)) => {
            if 0 < c <= s.len() {
                let b = spec_skip_blank_lines(s.skip(c));
                let off = c + b;
                if 0 < off <= s.len() {
                    let rec = spec_groups(s.skip(off), n);
                    (seq![(name, map)] + rec.0, off + rec.1)
                } else {
                    (seq![(name, map)], c)
                }
            } else {
                (Seq::<(Seq<char>, Map<Seq<char>, Module>)>::empty(), 0)
            }
        },
    }
}

/// The group reader consumes at most the input.
pub proof fn lemma_groups_bounds(s: Seq<u8>, n: int)
    ensures
        0 <= spec_groups(s, n).1 <= s.len(),
    decreases s.len(),
{
    lemma_tablep_bounds(s, n);
    match spec_tablep(s, n) {
        None => {},
        Some((name, map, c)) => {
            if 0 < c <= s.len() {
                lemma_skip_blank_lines_bounds(s.skip(c));
                let b = spec_skip_blank_lines(s.skip(c));
                let off = c + b;
                if 0 < off <= s.len() {
                    lemma_groups_bounds(s.skip(off), n);
                }
            }
        },
    }
}

/// Reads object groups one after another until a group fails to parse.
pub fn groups(input: &[u8], nbytes: usize) -> (r: (Vec<ObjModuleTable>, usize))
    ensures
        report_matches(r.0@, spec_groups(input@, nbytes as int).0),
        r.1 == spec_groups(input@, nbytes as int).1,
    decreases input@.len(),
{
    proof {
        lemma_tablep_bounds(input@, nbytes as int);
    }
    match tablep(input, nbytes) {
        None => (Vec::new(), 0),
        Some((t, c)) => {
            let blanks_slice = vstd::slice::slice_subrange(input, c, input.len());
            proof {
                assert(blanks_slice@ =~= input@.skip(c as int));
            }
            let b = skip_blank_lines(blanks_slice);
            let off = c + b;
            let rest = vstd::slice::slice_subrange(input, off, input.len());
            proof {
                assert(rest@ =~= input@.skip(off as int));
            }
            let (mut v, c2) = groups(rest, nbytes);
            proof {
                lemma_groups_bounds(rest@, nbytes as int);
            }
            let ghost old_v = v@;
            let ghost st = spec_tablep(input@, nbytes as int)->0;
            v.insert(0, t);
            proof {
                let g = spec_groups(input@, nbytes as int).0;
                assert(v@ =~= seq![t] + old_v);
                assert(g =~= seq![(st.0, st.1)] + spec_groups(rest@, nbytes as int).0);
                assert forall|i: int| 0 <= i < v@.len() implies (#[trigger] v@[i].name)@ == g[i].0
                    && v@[i].table@ == g[i].1 && v@[i].table.wf() by {
                    if i > 0 {
                        assert(v@[i] == old_v[i - 1]);
                        assert(g[i] == spec_groups(rest@, nbytes as int).0[i - 1]);
                        assert((#[trigger] old_v[i - 1].name)@ == spec_groups(
                            rest@,
                            nbytes as int,
                        ).0[i - 1].0);
                    }
                }
            }
            (v, off + c2)
        },
    }
}

/// The whole module summary section parse: find the banner anywhere in the
/// report, skip the column header and its line ending, read the object
/// groups, and require the next section's asterisk marker after them.
/// Everything before the banner and after the groups carries no meaning.
pub open spec fn spec_parse_module_summaries(s: Seq<u8>, n: int) -> Option<
    Seq<(Seq<char>, Map<Seq<char>, Module>)>,
> {
    match spec_find_header(s) {
        None => None,
        Some(h) => {
            if 0 <= h <= s.len() {
                let s1 = s.skip(h);
                match spec_table_start(s1) {
                    None => None,
                    Some(t) => {
                        match spec_line_ending(s1, t) {
                            None => None,
                            Some(t2) => {
                                if 0 <= t2 <= s1.len() {
                                    let s2 = s1.skip(t2);
                                    let g = spec_groups(s2, n);
                                    let rest = s2.skip(g.1);
                                    let star = spec_skip(rest, 0, ByteClass::NonStar);
                                    if star < rest.len() {
                                        Some(g.0)
                                    } else {
                                        None
                                    }
                                } else {
                                    None
                                }
                            },
                        }
                    },
                }
            } else {
                None
            }
        },
    }
}

/// The position of the first asterisk in the input, if any.
pub fn until_star(input: &[u8]) -> (r: Option<usize>)
    ensures
        r matches Some(p) ==> p == spec_skip(input@, 0, ByteClass::NonStar) && p < input@.len(),
        r is None ==> spec_skip(input@, 0, ByteClass::NonStar) == input@.len(),
{
    let e = skip_class(input, 0, ByteClass::NonStar);
    if e < input.len() {
        Some(e)
    } else {
        None
    }
}

/// Parses the module summary section out of a whole report, with the
/// given name column width.
pub fn parse_module_summaries(input: &[u8], nbytes: usize) -> (r: Option<Vec<ObjModuleTable>>)
    ensures
        (r is Some) == (spec_parse_module_summaries(input@, nbytes as int) is Some),
        r matches Some(v) ==> spec_parse_module_summaries(input@, nbytes as int) matches Some(g)
            && report_matches(v@, g),
{
    let h = match find_header(input) {
        Some(h) => h,
        None => {
            return None;
        },
    };
    let s1 = vstd::slice::slice_subrange(input, h, input.len());
    proof {
        assert(s1@ =~= input@.skip(h as int));
    }
    let t = match table_start(s1) {
        Some(t) => t,
        None => {
            return None;
        },
    };
    let t2 = match line_ending_at(s1, t) {
        Some(p) => p,
        None => {
            return None;
        },
    };
    let s2 = vstd::slice::slice_subrange(s1, t2, s1.len());
    proof {
        assert(s2@ =~= s1@.skip(t2 as int));
    }
    let (v, c) = groups(s2, nbytes);
    proof {
        lemma_groups_bounds(s2@, nbytes as int);
    }
    let rest = vstd::slice::slice_subrange(s2, c, s2.len());
    proof {
        assert(rest@ =~= s2@.skip(c as int));
    }
    match until_star(rest) {
        Some(_) => Some(v),
        None => None,
    }
}


/// Every byte inside a skipped run belongs to the run's class.
proof fn lemma_spec_skip_run(s: Seq<u8>, from: int, c: ByteClass)
    requires
        0 <= from <= s.len(),
    ensures
        forall|j: int| from <= j < spec_skip(s, from, c) ==> in_class(#[trigger] s[j], c),
    decreases s.len() - from,
{
    if from < s.len() && in_class(s[from], c) {
        lemma_spec_skip_run(s, from + 1, c);
    }
}

/// A table terminator line, space-indented as the report format prints
/// it, is never captured as an object name, whatever the row shapes
/// around it: the row parser turns such a line into the table-end signal
/// or a malformed row, never a data row.  A terminator indented with tabs
/// is not covered: the name strip removes spaces alone, so a tab would
/// stand inside the name field.
pub proof fn lemma_terminator_never_a_name(line: Seq<u8>, n: int)
    requires
        is_terminator_line(line),
        forall|j: int| 0 <= j < line.len() ==> line[j] != 9,
        0 <= n,
    ensures
        !(crate::codec::spec_rowp(line, n) is Row),
{
    let w = spec_skip(line, 0, ByteClass::Blank);
    let d = spec_skip(line, w, ByteClass::Dash);
    lemma_spec_skip_bounds(line, 0, ByteClass::Blank);
    lemma_spec_skip_run(line, 0, ByteClass::Blank);
    lemma_spec_skip_run(line, w, ByteClass::Dash);
    assert(forall|j: int| 0 <= j < line.len() ==> line[j] == 32 || line[j] == 45);
    if n <= line.len() {
        let field = line.take(n);
        assert(crate::strutil::all_ascii(field));
        crate::codec::lemma_strip_space_dash(field);
    }
}

/// A group header line ends inside the input.
pub proof fn lemma_obj_header_bounds(s: Seq<u8>)
    ensures
        spec_obj_header(s) matches Some(h) ==> 0 < h.1 <= s.len(),
{
}

/// A group whose table holds zero rows still parses, and its mapping is
/// empty: the header line, a terminator, and a totals line make a whole
/// group even with no data row between them.  Zero rows is not a failure.
pub proof fn lemma_empty_table_is_legal(s: Seq<u8>, n: int, name: Seq<char>, c0: int)
    requires
        spec_obj_header(s) == Some((name, c0)),
        crate::table::spec_table_rowp(s.skip(c0), n) is None,
        spec_table_end(s.skip(c0)) is Some,
        ({
            let c2 = spec_table_end(s.skip(c0))->0;
            spec_skip(s.skip(c0 + c2), 0, ByteClass::NonLineFeed) < s.len() - c0 - c2
        }),
    ensures
        spec_tablep(s, n) matches Some(t) && t.0 == name && t.1 == Map::<Seq<char>, Module>::empty(),
{
    lemma_obj_header_bounds(s);
    assert(crate::table::spec_module_table(s.skip(c0), n).0 =~= Map::<Seq<char>, Module>::empty());
    let c2 = spec_table_end(s.skip(c0))->0;
    lemma_table_end_bounds(s.skip(c0));
    assert(s.skip(c0).skip(0) =~= s.skip(c0));
    assert(s.skip(c0 + c2) =~= s.skip(c0).skip(c2));
    lemma_spec_skip_bounds(s.skip(c0 + c2), 0, ByteClass::NonLineFeed);
}


} // verus!
