//! Decoding of one table row: the fixed-width object name field and the
//! one-, two- or three-column sizes field.

use vstd::prelude::*;

use crate::module::Module;
use crate::strutil::{all_ascii, ascii_chars, ascii_to_string};

verus! {

/// Width in bytes of one size column.
pub const MODULE_DATA_SIZE_MAX_BYTES: usize = 7;

/// Width in bytes of the gap between two size columns.
pub const MODULE_DATA_SIZE_DELIMITING_BYTES: usize = 2;

/// Length of a sizes field holding only `ro_code`.
pub const RO_CODE: usize = MODULE_DATA_SIZE_MAX_BYTES;

/// Length of a sizes field holding `ro_code` and `ro_data`.
pub const RO_CODE_RO_DATA: usize = 2 * MODULE_DATA_SIZE_MAX_BYTES
    + MODULE_DATA_SIZE_DELIMITING_BYTES;

/// Length of a sizes field holding all three sizes.
pub const RO_CODE_RO_DATA_RW_DATA: usize = 3 * MODULE_DATA_SIZE_MAX_BYTES + 2
    * MODULE_DATA_SIZE_DELIMITING_BYTES;

/// The bytes of `s` that are not spaces, in order.
pub open spec fn strip_spaces(s: Seq<u8>) -> Seq<u8> {
    s.filter(|b: u8| b != 32)
}

/// A decimal digit.
pub open spec fn is_digit(b: u8) -> bool {
    48 <= b <= 57
}

/// Every byte of `s` is a decimal digit.
pub open spec fn all_digits(s: Seq<u8>) -> bool {
    forall|i: int| 0 <= i < s.len() ==> is_digit(s[i])
}

/// Every byte of `s` is a dash.
pub open spec fn all_dashes(s: Seq<u8>) -> bool {
    forall|i: int| 0 <= i < s.len() ==> s[i] == 45
}

/// The value of a run of decimal digits, most significant first.
pub open spec fn digits_val(s: Seq<u8>) -> int
    decreases s.len(),
{
    if s.len() == 0 {
        0
    } else {
        digits_val(s.drop_last()) * 10 + (s.last() - 48)
    }
}

/// The integer spelled by `s`: an optional sign, then at least one digit
/// and nothing else.  This is the acceptance rule of `str::parse::<i32>`,
/// short of the range check.
pub open spec fn spec_parse_int(s: Seq<u8>) -> Option<int> {
    let signed = s.len() > 0 && (s[0] == 43 || s[0] == 45);
    let ds = if signed {
        s.drop_first()
    } else {
        s
    };
    if ds.len() > 0 && all_digits(ds) {
        Some(
            if signed && s[0] == 45 {
                -digits_val(ds)
            } else {
                digits_val(ds)
            },
        )
    } else {
        None
    }
}

/// The size decoded from one fixed-width span: spaces are stripped
/// everywhere in the span, and the remainder must spell an integer that
/// fits an `i32`.  An all-space span, or one whose remainder is not such an
/// integer, decodes to the absent value.
pub open spec fn spec_sizep(span: Seq<u8>) -> Option<i32> {
    match spec_parse_int(strip_spaces(span)) {
        Some(v) => if i32::MIN <= v <= i32::MAX {
            Some(v as i32)
        } else {
            None
        },
        None => None,
    }
}

/// A run of digits has a nonnegative value.
proof fn lemma_digits_val_nonneg(s: Seq<u8>)
    requires
        all_digits(s),
    ensures
        digits_val(s) >= 0,
    decreases s.len(),
{
    if s.len() > 0 {
        lemma_digits_val_nonneg(s.drop_last());
    }
}

/// Extending a run of digits never shrinks its value.
proof fn lemma_digits_val_monotone(s: Seq<u8>, i: int)
    requires
        all_digits(s),
        0 <= i <= s.len(),
    ensures
        digits_val(s) >= digits_val(s.take(i)),
    decreases s.len() - i,
{
    if i < s.len() {
        lemma_digits_val_monotone(s, i + 1);
        assert(s.take(i + 1).drop_last() =~= s.take(i));
        assert(all_digits(s.take(i + 1)));
        lemma_digits_val_nonneg(s.take(i));
        assert(digits_val(s.take(i + 1)) >= digits_val(s.take(i)));
    } else {
        assert(s.take(i) =~= s);
    }
}

/// Parses a run of bytes as a signed decimal integer, as `str::parse::<i32>`
/// accepts it: an optional sign, then one or more digits, and the value in
/// range.
fn parse_i32_bytes(ds: &Vec<u8>) -> (r: Option<i32>)
    ensures
        r == (match spec_parse_int(ds@) {
            Some(v) => if i32::MIN <= v <= i32::MAX {
                Some(v as i32)
            } else {
                None::<i32>
            },
            None => None::<i32>,
        }),
{
    let n = ds.len();
    if n == 0 {
        return None;
    }
    let first = ds[0];
    let signed: bool = first == 43 || first == 45;
    let neg: bool = first == 45;
    let start: usize = if signed {
        1
    } else {
        0
    };
    let ghost digits: Seq<u8> = if signed {
        ds@.drop_first()
    } else {
        ds@
    };
    proof {
        assert(digits =~= ds@.skip(start as int));
    }
    if start == n {
        return None;
    }
    let mut mag: u64 = 0;
    let mut i: usize = start;
    while i < n
        invariant
            start <= i <= n,
            n == ds@.len(),
            signed == (ds@.len() > 0 && (ds@[0] == 43 || ds@[0] == 45)),
            start == (if signed { 1int } else { 0int }),
            start < n,
            digits == (if signed { ds@.drop_first() } else { ds@ }),
            digits =~= ds@.skip(start as int),
            all_digits(digits.take(i - start)),
            mag == digits_val(digits.take(i - start)),
            mag <= 2147483648,
        decreases n - i,
    {
        let b = ds[i];
        if b < 48 || b > 57 {
            proof {
                assert(digits[i - start] == ds@[i as int]);
                assert(!all_digits(digits));
            }
            return None;
        }
        proof {
            assert(digits.take(i - start + 1).drop_last() =~= digits.take(i - start));
            assert(digits.take(i - start + 1).last() == ds@[i as int]);
        }
        mag = mag * 10 + ((b - 48) as u64);
        i = i + 1;
        if mag > 2147483648 {
            proof {
                if all_digits(digits) {
                    lemma_digits_val_monotone(digits, i - start);
                    assert(digits_val(digits) > 2147483648);
                    assert(spec_parse_int(ds@) matches Some(v) && !(i32::MIN <= v <= i32::MAX));
                } else {
                    assert(spec_parse_int(ds@) is None);
                }
            }
            return None;
        }
    }
    proof {
        assert(digits.take(n - start) =~= digits);
    }
    if neg {
        let v: i64 = -(mag as i64);
        if v < -2147483648i64 {
            None
        } else {
            Some(v as i32)
        }
    } else {
        if mag > 2147483647u64 {
            None
        } else {
            Some(mag as i32)
        }
    }
}

/// Utility that accepts bytes and possibly returns the spelled text without
/// spaces.  Bytes that are not plain text (here: not ASCII) give nothing.
pub fn bs_to_spaceless_string(bs: &[u8]) -> (r: Option<String>)
    ensures
        (r is Some) == all_ascii(bs@),
        r matches Some(s) ==> s@ == ascii_chars(strip_spaces(bs@)),
{
    match spaceless_bytes(bs) {
        Some(kept) => Some(ascii_to_string(kept.as_slice())),
        None => None,
    }
}

/// The bytes of `bs` that are not spaces, when all of `bs` is ASCII.
fn spaceless_bytes(bs: &[u8]) -> (r: Option<Vec<u8>>)
    ensures
        (r is Some) == all_ascii(bs@),
        r matches Some(kept) ==> kept@ == strip_spaces(bs@) && all_ascii(kept@),
{
    let mut kept: Vec<u8> = Vec::new();
    let mut i: usize = 0;
    proof {
        reveal(Seq::filter);
        assert(bs@.take(0).filter(|b: u8| b != 32) =~= Seq::<u8>::empty());
    }
    while i < bs.len()
        invariant
            i <= bs@.len(),
            all_ascii(bs@.take(i as int)),
            all_ascii(kept@),
            kept@ == strip_spaces(bs@.take(i as int)),
        decreases bs@.len() - i,
    {
        let b = *vstd::slice::slice_index_get(bs, i);
        if b >= 128 {
            return None;
        }
        proof {
            reveal(Seq::filter);
            assert(bs@.take(i + 1).drop_last() =~= bs@.take(i as int));
            assert(bs@.take(i + 1).last() == b);
        }
        if b != 32 {
            kept.push(b);
        }
        proof {
            assert(all_ascii(bs@.take(i + 1)));
        }
        i = i + 1;
    }
    proof {
        assert(bs@.take(bs@.len() as int) =~= bs@);
    }
    Some(kept)
}

/// Parses a section size from one fixed-width span.
pub fn sizep(span: &[u8]) -> (r: Option<i32>)
    ensures
        r == spec_sizep(span@),
{
    match spaceless_bytes(span) {
        Some(kept) => parse_i32_bytes(&kept),
        None => {
            proof {
                lemma_non_ascii_no_parse(span@);
            }
            None
        },
    }
}

/// What the name field of one row turned out to hold.
#[derive(Debug, PartialEq, Eq)]
pub enum NameOutcome {
    /// A real object name, spaces stripped.
    Name(String),
    /// Nothing but dashes: the table's terminator line reached into the
    /// name column, so this line is no row.
    Terminator,
    /// An empty or unreadable name field.
    Malformed,
}

/// The specification-level counterpart of [`NameOutcome`].
pub enum SpecName {
    Name(Seq<char>),
    Terminator,
    Malformed,
}

/// How an exec name outcome corresponds to its specification.
pub open spec fn name_matches(r: NameOutcome, s: SpecName) -> bool {
    match (r, s) {
        (NameOutcome::Name(t), SpecName::Name(c)) => t@ == c,
        (NameOutcome::Terminator, SpecName::Terminator) => true,
        (NameOutcome::Malformed, SpecName::Malformed) => true,
        _ => false,
    }
}

/// The name field of a row: the first `n` bytes of the line, spaces
/// stripped.  A field of nothing but dashes is the table terminator
/// reaching into the name column; a field that is empty once stripped, is
/// not plain text, or cannot be taken at all is malformed.
pub open spec fn spec_namep(input: Seq<u8>, n: int) -> SpecName {
    if input.len() < n {
        SpecName::Malformed
    } else {
        let field = input.take(n);
        if !all_ascii(field) {
            SpecName::Malformed
        } else {
            let kept = strip_spaces(field);
            if kept.len() == 0 {
                SpecName::Malformed
            } else if all_dashes(kept) {
                SpecName::Terminator
            } else {
                SpecName::Name(ascii_chars(kept))
            }
        }
    }
}

/// Whether every byte of `v` is a dash.
fn is_all_dashes(v: &Vec<u8>) -> (r: bool)
    ensures
        r == all_dashes(v@),
{
    let mut i: usize = 0;
    while i < v.len()
        invariant
            i <= v@.len(),
            all_dashes(v@.take(i as int)),
        decreases v@.len() - i,
    {
        if v[i] != 45 {
            return false;
        }
        proof {
            assert(forall|j: int| 0 <= j < i + 1 ==> v@.take(i + 1)[j] == v@[j]);
        }
        i = i + 1;
    }
    proof {
        assert(v@.take(v@.len() as int) =~= v@);
    }
    true
}

/// Parses the object file name from the first `nbytes` bytes of a row
/// line.  A name field of nothing but dashes signals the table end so that
/// the caller retries the line as a terminator instead of a row.
pub fn namep(input: &[u8], nbytes: usize) -> (r: NameOutcome)
    ensures
        name_matches(r, spec_namep(input@, nbytes as int)),
{
    if input.len() < nbytes {
        return NameOutcome::Malformed;
    }
    let field = vstd::slice::slice_subrange(input, 0, nbytes);
    match spaceless_bytes(field) {
        None => NameOutcome::Malformed,
        Some(kept) => {
            if kept.len() == 0 {
                NameOutcome::Malformed
            } else if is_all_dashes(&kept) {
                NameOutcome::Terminator
            } else {
                NameOutcome::Name(ascii_to_string(kept.as_slice()))
            }
        },
    }
}

/// The record decoded from the sizes field of one row, by the field's
/// byte length: one span is `ro_code` alone; two spans separated by one
/// gap add `ro_data`; three spans separated by two gaps hold all three
/// sizes.  Any other length matches no known layout.
pub open spec fn spec_size_rowp(sizes: Seq<u8>) -> Option<Module> {
    if sizes.len() == 7 {
        Some(Module { ro_code: spec_sizep(sizes), ro_data: None, rw_data: None })
    } else if sizes.len() == 16 {
        Some(
            Module {
                ro_code: spec_sizep(sizes.subrange(0, 7)),
                ro_data: spec_sizep(sizes.subrange(9, 16)),
                rw_data: None,
            },
        )
    } else if sizes.len() == 25 {
        Some(
            Module {
                ro_code: spec_sizep(sizes.subrange(0, 7)),
                ro_data: spec_sizep(sizes.subrange(9, 16)),
                rw_data: spec_sizep(sizes.subrange(18, 25)),
            },
        )
    } else {
        None
    }
}

/// Chooses the fixed layout matching the byte length of the sizes field
/// and decodes a record from it positionally.
pub fn size_rowp(sizes: &[u8]) -> (r: Option<Module>)
    ensures
        r == spec_size_rowp(sizes@),
{
    let len = sizes.len();
    if len == RO_CODE {
        Some(Module { ro_code: sizep(sizes), ro_data: None, rw_data: None })
    } else if len == RO_CODE_RO_DATA {
        let ro_code = sizep(vstd::slice::slice_subrange(sizes, 0, 7));
        let ro_data = sizep(vstd::slice::slice_subrange(sizes, 9, 16));
        Some(Module { ro_code, ro_data, rw_data: None })
    } else if len == RO_CODE_RO_DATA_RW_DATA {
        let ro_code = sizep(vstd::slice::slice_subrange(sizes, 0, 7));
        let ro_data = sizep(vstd::slice::slice_subrange(sizes, 9, 16));
        let rw_data = sizep(vstd::slice::slice_subrange(sizes, 18, 25));
        Some(Module { ro_code, ro_data, rw_data })
    } else {
        None
    }
}

/// What one input line turned out to hold.
#[derive(Debug, PartialEq, Eq)]
pub enum RowOutcome {
    /// A data row: the object file name and its record.
    Row(String, Module),
    /// The table's terminator line, reaching into the name column.
    Terminator,
    /// A line that is neither a row nor terminator-shaped in the name
    /// column: an unreadable or empty name, or a sizes field matching no
    /// known layout.
    Malformed,
}

/// The specification-level counterpart of [`RowOutcome`].
pub enum SpecRow {
    Row(Seq<char>, Module),
    Terminator,
    Malformed,
}

/// How an exec row outcome corresponds to its specification.
pub open spec fn row_matches(r: RowOutcome, s: SpecRow) -> bool {
    match (r, s) {
        (RowOutcome::Row(t, m), SpecRow::Row(c, sm)) => t@ == c && m == sm,
        (RowOutcome::Terminator, SpecRow::Terminator) => true,
        (RowOutcome::Malformed, SpecRow::Malformed) => true,
        _ => false,
    }
}

/// One row parsed from a single line (no line ending): the first `n` bytes
/// are the name field, the rest of the line is the sizes field.
pub open spec fn spec_rowp(line: Seq<u8>, n: int) -> SpecRow {
    match spec_namep(line, n) {
        SpecName::Malformed => SpecRow::Malformed,
        SpecName::Terminator => SpecRow::Terminator,
        SpecName::Name(name) => match spec_size_rowp(line.skip(n)) {
            None => SpecRow::Malformed,
            Some(m) => SpecRow::Row(name, m),
        },
    }
}

/// A line break byte: line feed or carriage return.
pub open spec fn is_break(b: u8) -> bool {
    b == 10 || b == 13
}

/// The index of the first line break at or after `from`, or the input's
/// length if there is none.
pub open spec fn spec_find_break(s: Seq<u8>, from: int) -> int
    decreases s.len() - from when 0 <= from <= s.len()
{
    if from >= s.len() {
        s.len() as int
    } else if is_break(s[from]) {
        from
    } else {
        spec_find_break(s, from + 1)
    }
}

/// Finds the first line break at or after `from`.
pub fn find_break(input: &[u8], from: usize) -> (r: usize)
    requires
        from <= input@.len(),
    ensures
        r == spec_find_break(input@, from as int),
        from <= r <= input@.len(),
        r < input@.len() ==> is_break(input@[r as int]),
        forall|j: int| from <= j < r ==> !is_break(input@[j]),
{
    let mut i: usize = from;
    while i < input.len()
        invariant
            from <= i <= input@.len(),
            spec_find_break(input@, from as int) == spec_find_break(input@, i as int),
            forall|j: int| from <= j < i ==> !is_break(input@[j]),
        decreases input@.len() - i,
    {
        let b = *vstd::slice::slice_index_get(input, i);
        if b == 10 || b == 13 {
            return i;
        }
        i = i + 1;
    }
    i
}

/// Parses the object name and the record of one row.  The row's line runs
/// to the first line break of the input; the line ending itself is left
/// for the caller.
pub fn modulep(input: &[u8], nbytes: usize) -> (r: RowOutcome)
    ensures
        row_matches(r, spec_modulep(input@, nbytes as int)),
{
    let e = find_break(input, 0);
    let line = vstd::slice::slice_subrange(input, 0, e);
    proof {
        assert(line@ =~= input@.take(spec_find_break(input@, 0)));
    }
    rowp(line, nbytes)
}

/// One row parsed from the first line of the input.
pub open spec fn spec_modulep(input: Seq<u8>, n: int) -> SpecRow {
    spec_rowp(input.take(spec_find_break(input, 0)), n)
}

/// Parses one row from a line without its ending.
fn rowp(line: &[u8], nbytes: usize) -> (r: RowOutcome)
    ensures
        row_matches(r, spec_rowp(line@, nbytes as int)),
{
    match namep(line, nbytes) {
        NameOutcome::Malformed => RowOutcome::Malformed,
        NameOutcome::Terminator => RowOutcome::Terminator,
        NameOutcome::Name(name) => {
            let sizes = vstd::slice::slice_subrange(line, nbytes, line.len());
            match size_rowp(sizes) {
                None => RowOutcome::Malformed,
                Some(m) => RowOutcome::Row(name, m),
            }
        },
    }
}

/// A span holding a byte beyond ASCII never spells an integer: such a byte
/// is kept by the space strip and is neither a sign nor a digit.
proof fn lemma_non_ascii_no_parse(span: Seq<u8>)
    requires
        !all_ascii(span),
    ensures
        spec_parse_int(strip_spaces(span)) is None,
{
    let bad = choose|i: int| 0 <= i < span.len() && span[i] >= 128;
    let kept = strip_spaces(span);
    assert(span.contains(span[bad]));
    assert(kept.contains(span[bad])) by {
        broadcast use vstd::seq_lib::group_filter_ensures;

        assert(span.filter(|b: u8| b != 32).contains(span[bad]));
    }
    let j = choose|j: int| 0 <= j < kept.len() && kept[j] == span[bad];
    if spec_parse_int(kept) is Some {
        let signed = kept.len() > 0 && (kept[0] == 43 || kept[0] == 45);
        let ds = if signed {
            kept.drop_first()
        } else {
            kept
        };
        if j == 0 && signed {
        } else {
            if signed {
                assert(ds[j - 1] == kept[j]);
            } else {
                assert(ds[j] == kept[j]);
            }
        }
    }
}


/// The decimal digit bytes of a nonnegative integer, most significant
/// first, no leading zeros.
pub open spec fn dec_digit_bytes(n: nat) -> Seq<u8>
    decreases n,
{
    if n < 10 {
        seq![(48 + n) as u8]
    } else {
        dec_digit_bytes(n / 10).push((48 + n % 10) as u8)
    }
}

/// The decimal byte rendering of an integer: a minus sign and the digits
/// of the magnitude, or just the digits.
pub open spec fn dec_bytes(v: int) -> Seq<u8> {
    if v < 0 {
        seq![45u8] + dec_digit_bytes((-v) as nat)
    } else {
        dec_digit_bytes(v as nat)
    }
}

/// The digit bytes of `n` are digits and spell `n`.
proof fn lemma_dec_digit_bytes(n: nat)
    ensures
        all_digits(dec_digit_bytes(n)),
        digits_val(dec_digit_bytes(n)) == n,
        dec_digit_bytes(n).len() >= 1,
    decreases n,
{
    if n < 10 {
        let d = dec_digit_bytes(n);
        assert(d.drop_last() =~= Seq::<u8>::empty());
        assert(digits_val(d.drop_last()) == 0);
        assert((48 + n) as u8 == 48 + n);
        assert(digits_val(d) == n);
    } else {
        lemma_dec_digit_bytes(n / 10);
        assert(dec_digit_bytes(n).drop_last() =~= dec_digit_bytes(n / 10));
        assert((48 + n % 10) as u8 == 48 + n % 10);
        assert(dec_digit_bytes(n).last() == (48 + n % 10) as u8);
        assert(digits_val(dec_digit_bytes(n)) == (n / 10) * 10 + n % 10);
        assert(n == (n / 10) * 10 + n % 10) by (nonlinear_arith);
    }
}

/// Encoding an integer into a size span, right-aligned or not, with any
/// interior space padding, and decoding the span returns the integer.
pub proof fn lemma_size_roundtrip(span: Seq<u8>, v: int)
    requires
        strip_spaces(span) == dec_bytes(v),
        i32::MIN <= v <= i32::MAX,
    ensures
        spec_sizep(span) == Some(v as i32),
{
    let kept = strip_spaces(span);
    if v < 0 {
        lemma_dec_digit_bytes((-v) as nat);
        assert(kept[0] == 45);
        assert(kept.drop_first() =~= dec_digit_bytes((-v) as nat));
        assert(spec_parse_int(kept) == Some(-digits_val(dec_digit_bytes((-v) as nat))));
    } else {
        lemma_dec_digit_bytes(v as nat);
        assert(is_digit(kept[0]));
        assert(spec_parse_int(kept) == Some(digits_val(dec_digit_bytes(v as nat))));
    }
}

/// A span of nothing but spaces decodes to the absent value.
pub proof fn lemma_all_space_absent(span: Seq<u8>)
    requires
        strip_spaces(span).len() == 0,
    ensures
        spec_sizep(span) == None::<i32>,
{
}

/// Stripping the spaces out of a run of spaces and dashes leaves dashes
/// alone.
pub proof fn lemma_strip_space_dash(s: Seq<u8>)
    requires
        forall|j: int| 0 <= j < s.len() ==> s[j] == 32 || s[j] == 45,
    ensures
        all_dashes(strip_spaces(s)),
    decreases s.len(),
{
    reveal(Seq::filter);
    if s.len() > 0 {
        lemma_strip_space_dash(s.drop_last());
        assert(strip_spaces(s.drop_last()) =~= s.drop_last().filter(|b: u8| b != 32));
    }
}

/// A sizes field whose length matches none of the three known layouts
/// fails the row: whatever the name field holds, the line is never a data
/// row.
pub proof fn lemma_unknown_layout_is_no_row(line: Seq<u8>, n: int)
    requires
        0 <= n,
        line.len() - n != 7,
        line.len() - n != 16,
        line.len() - n != 25,
    ensures
        !(spec_rowp(line, n) is Row),
{
}

} // verus!
