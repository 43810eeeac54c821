//! The record type for one object file's size summary, and its arithmetic.

use vstd::prelude::*;
use vstd::string::StringExecFns;

use crate::strutil::{dec_str, right_aligned_dec, space_chars};

verus! {

/// One object file's size summary: three independent optional sizes.
///
/// Absence of a field means the source report printed no value in that
/// column for this row; it does not mean zero.  Two records subtract
/// field-wise, and a field of the difference is present if and only if the
/// field is present on both sides.
#[derive(Debug, Clone, Copy, PartialEq, Eq, Structural)]
pub struct Module {
    pub ro_code: Option<i32>,
    pub ro_data: Option<i32>,
    pub rw_data: Option<i32>,
}

/// Holds when subtracting `r` from `l` cannot overflow `i32`.
pub open spec fn sub_ok_field(l: Option<i32>, r: Option<i32>) -> bool {
    match (l, r) {
        (Some(a), Some(b)) => i32::MIN <= a - b <= i32::MAX,
        _ => true,
    }
}

/// Holds when `l.sub(r)` cannot overflow on any field.
pub open spec fn sub_ok(l: Module, r: Module) -> bool {
    &&& sub_ok_field(l.ro_code, r.ro_code)
    &&& sub_ok_field(l.ro_data, r.ro_data)
    &&& sub_ok_field(l.rw_data, r.rw_data)
}

/// The difference of two optional sizes: present exactly when both are.
pub open spec fn spec_optional_diff(l: Option<i32>, r: Option<i32>) -> Option<i32> {
    match (l, r) {
        (Some(a), Some(b)) => Some((a - b) as i32),
        _ => None,
    }
}

/// The field-wise difference of two records.
pub open spec fn spec_sub(l: Module, r: Module) -> Module {
    Module {
        ro_code: spec_optional_diff(l.ro_code, r.ro_code),
        ro_data: spec_optional_diff(l.ro_data, r.ro_data),
        rw_data: spec_optional_diff(l.rw_data, r.rw_data),
    }
}

/// The total of a record: the sum of the three sizes when all three are
/// present, and zero by convention as soon as any field is absent.
pub open spec fn spec_total(m: Module) -> int {
    match (m.ro_code, m.ro_data, m.rw_data) {
        (Some(a), Some(b), Some(c)) => a + b + c,
        _ => 0,
    }
}

/// Holds when `m.total()` cannot overflow `i32`.
pub open spec fn total_ok(m: Module) -> bool {
    i32::MIN <= spec_total(m) <= i32::MAX
}

/// Subtract two optional values iff both values exist.
pub fn optional_diff(left: Option<i32>, right: Option<i32>) -> (r: Option<i32>)
    requires
        sub_ok_field(left, right),
    ensures
        r == spec_optional_diff(left, right),
{
    match (left, right) {
        (Some(l), Some(r)) => Some(l - r),
        _ => None,
    }
}

impl Module {
    /// Returns the total size of the record; concretely, the sum of the
    /// three fields, or zero as soon as any field is absent.  The zero
    /// convention mirrors the report format's own totals row and is part of
    /// this type's surface, not a statement that an incomplete record is
    /// empty.
    pub fn total(&self) -> (t: i32)
        requires
            total_ok(*self),
        ensures
            t == spec_total(*self),
    {
        match (self.ro_code, self.ro_data, self.rw_data) {
            (Some(a), Some(b), Some(c)) => (a as i64 + b as i64 + c as i64) as i32,
            _ => 0,
        }
    }

    /// The field-wise difference of two records: a field of the result is
    /// present exactly when it is present on both sides, and then holds
    /// `self`'s value minus `other`'s.
    pub fn sub(&self, other: &Module) -> (d: Module)
        requires
            sub_ok(*self, *other),
        ensures
            d == spec_sub(*self, *other),
    {
        let ro_code = optional_diff(self.ro_code, other.ro_code);
        let ro_data = optional_diff(self.ro_data, other.ro_data);
        let rw_data = optional_diff(self.rw_data, other.rw_data);
        Module { ro_code, ro_data, rw_data }
    }
}

/// The text of one optional size: its decimal rendering right-aligned in
/// six characters, or the six-dash placeholder when the size is absent.
pub open spec fn spec_size_to_string(v: Option<i32>) -> Seq<char> {
    match v {
        Some(x) => if dec_str(x as int).len() >= 6 {
            dec_str(x as int)
        } else {
            space_chars(6 - dec_str(x as int).len()) + dec_str(x as int)
        },
        None => seq!['-', '-', '-', '-', '-', '-'],
    }
}

/// The pretty-print line of a record: the three sizes behind their labels,
/// separated by a space, a tab and a space.
pub open spec fn spec_render(m: Module) -> Seq<char> {
    "ro_code: "@ + spec_size_to_string(m.ro_code) + " \t ro_data: "@ + spec_size_to_string(
        m.ro_data,
    ) + " \t rw_data: "@ + spec_size_to_string(m.rw_data)
}

impl Module {
    /// Format an optional size as text.  Describes the pretty-print format:
    /// six characters right-aligned, or six dashes for an absent value.
    pub fn size_to_string(opt: Option<i32>) -> (r: String)
        ensures
            r@ == spec_size_to_string(opt),
    {
        match opt {
            Some(v) => right_aligned_dec(v, 6),
            None => {
                let r = String::from_str("------");
                proof {
                    reveal_strlit("------");
                    assert(r@ =~= seq!['-', '-', '-', '-', '-', '-']);
                }
                r
            },
        }
    }

    /// The pretty-print line of this record.
    pub fn render(&self) -> (r: String)
        ensures
            r@ == spec_render(*self),
    {
        let mut r = String::from_str("ro_code: ");
        r.append(Module::size_to_string(self.ro_code).as_str());
        r.append(" \t ro_data: ");
        r.append(Module::size_to_string(self.ro_data).as_str());
        r.append(" \t rw_data: ");
        r.append(Module::size_to_string(self.rw_data).as_str());
        proof {
            assert(r@ =~= spec_render(*self));
        }
        r
    }
}


/// Whether `l.sub(r)` would overflow on some field.
pub fn sub_ok_check(l: &Module, r: &Module) -> (b: bool)
    ensures
        b == sub_ok(*l, *r),
{
    sub_ok_field_check(l.ro_code, r.ro_code) && sub_ok_field_check(l.ro_data, r.ro_data)
        && sub_ok_field_check(l.rw_data, r.rw_data)
}

/// Whether subtracting `r` from `l` stays within `i32`.
fn sub_ok_field_check(l: Option<i32>, r: Option<i32>) -> (b: bool)
    ensures
        b == sub_ok_field(l, r),
{
    match (l, r) {
        (Some(a), Some(b)) => {
            let d: i64 = a as i64 - b as i64;
            -2147483648i64 <= d && d <= 2147483647i64
        },
        _ => true,
    }
}

/// Subtraction is partial by structure: a field of the difference is
/// present exactly when the field is present on both sides, and then it
/// holds the left value minus the right value; a one-sided value never
/// fabricates a delta.
pub proof fn lemma_sub_partial(a: Module, b: Module)
    requires
        sub_ok(a, b),
    ensures
        (spec_sub(a, b).ro_code is Some) == (a.ro_code is Some && b.ro_code is Some),
        (spec_sub(a, b).ro_data is Some) == (a.ro_data is Some && b.ro_data is Some),
        (spec_sub(a, b).rw_data is Some) == (a.rw_data is Some && b.rw_data is Some),
        spec_sub(a, b).ro_code matches Some(d) ==> d == a.ro_code->0 - b.ro_code->0,
        spec_sub(a, b).ro_data matches Some(d) ==> d == a.ro_data->0 - b.ro_data->0,
        spec_sub(a, b).rw_data matches Some(d) ==> d == a.rw_data->0 - b.rw_data->0,
{
}

/// A record subtracted from itself has every field either zero or absent,
/// never a nonzero value; `sub` never needs a side condition there.
pub proof fn lemma_sub_self(m: Module)
    ensures
        sub_ok(m, m),
        spec_sub(m, m).ro_code == (if m.ro_code is Some { Some(0i32) } else { None::<i32> }),
        spec_sub(m, m).ro_data == (if m.ro_data is Some { Some(0i32) } else { None::<i32> }),
        spec_sub(m, m).rw_data == (if m.rw_data is Some { Some(0i32) } else { None::<i32> }),
{
}

} // verus!
