//! The diff engine: structural comparison of two parsed reports.
//!
//! Three independent stages, each with its own outcome: group headers
//! present on one side only, object files present on one side only after
//! flattening every group into one side-wide mapping, and field-wise
//! record deltas for object files present on both sides.  Every name list
//! is reported in strict lexicographic order.

use vstd::prelude::*;

use crate::module::{spec_sub, sub_ok, Module};
use crate::scan::ObjModuleTable;
use crate::strutil::{lemma_lex_total, lemma_lex_trans, lex_lt, str_lt};
use crate::table::{pairs_to_map, ModuleMap};

verus! {

/// The group header texts of a report, in source order.
pub open spec fn group_names(r: Seq<ObjModuleTable>) -> Seq<Seq<char>> {
    r.map_values(|t: ObjModuleTable| t.name@)
}

/// The texts of a list of strings.
pub open spec fn views(v: Seq<String>) -> Seq<Seq<char>> {
    v.map_values(|s: String| s@)
}

/// Strict lexicographic order over a whole sequence of texts.
pub open spec fn strictly_sorted(s: Seq<Seq<char>>) -> bool {
    forall|i: int, j: int| 0 <= i < j < s.len() ==> lex_lt(s[i], s[j])
}

/// One side-wide mapping from object file name to record: every group's
/// mapping merged in source order, a later group overwriting an earlier
/// one on a shared name.
pub open spec fn spec_flatten(r: Seq<ObjModuleTable>) -> Map<Seq<char>, Module>
    decreases r.len(),
{
    if r.len() == 0 {
        Map::empty()
    } else {
        spec_flatten(r.drop_last()).union_prefer_right(r.last().table@)
    }
}

/// Whether every record pair shared by the two mappings can be subtracted
/// without overflow.
pub open spec fn diffable(l: Map<Seq<char>, Module>, r: Map<Seq<char>, Module>) -> bool {
    forall|k: Seq<char>|
        #[trigger] l.contains_key(k) && r.contains_key(k) ==> sub_ok(l[k], r[k])
}

/// The group-name stage: the group headers unique to each side, sorted.
#[derive(Debug)]
pub struct GroupDiff {
    pub unique_left: Vec<String>,
    pub unique_right: Vec<String>,
}

/// One object file present on both sides with different records: both
/// records and their field-wise delta.
#[derive(Debug)]
pub struct ValueDiff {
    pub name: String,
    pub left: Module,
    pub right: Module,
    pub delta: Module,
}

/// The object stages: object files unique to each side, each with its
/// record, and the per-object record deltas, all sorted by name.
#[derive(Debug)]
pub struct ObjectDiff {
    pub unique_left: Vec<(String, Module)>,
    pub unique_right: Vec<(String, Module)>,
    pub value_diffs: Vec<ValueDiff>,
}

/// The whole comparison of two reports.
#[derive(Debug)]
pub struct Analysis {
    pub group_diff: GroupDiff,
    pub object_diff: ObjectDiff,
}

/// The names of a list of object entries.
pub open spec fn entry_names(v: Seq<(String, Module)>) -> Seq<Seq<char>> {
    v.map_values(|e: (String, Module)| e.0@)
}

/// The names of a list of value diffs.
pub open spec fn value_names(v: Seq<ValueDiff>) -> Seq<Seq<char>> {
    v.map_values(|e: ValueDiff| e.name@)
}

/// A correct one-side object list: sorted, holding exactly the names in
/// `l` but not in `r`, each with `l`'s record.
pub open spec fn unique_side_ok(
    out: Seq<(String, Module)>,
    l: Map<Seq<char>, Module>,
    r: Map<Seq<char>, Module>,
) -> bool {
    &&& strictly_sorted(entry_names(out))
    &&& forall|k: Seq<char>|
        entry_names(out).contains(k) <==> (#[trigger] l.contains_key(k) && !r.contains_key(k))
    &&& forall|i: int|
        0 <= i < out.len() ==> l.contains_key((#[trigger] out[i]).0@) && out[i].1 == l[out[i].0@]
}

/// A correct value-diff list: sorted, holding exactly the names present on
/// both sides with unequal records, each entry carrying both records and
/// their delta.
pub open spec fn value_diffs_ok(
    out: Seq<ValueDiff>,
    l: Map<Seq<char>, Module>,
    r: Map<Seq<char>, Module>,
) -> bool {
    &&& strictly_sorted(value_names(out))
    &&& forall|k: Seq<char>|
        value_names(out).contains(k) <==> (#[trigger] l.contains_key(k) && r.contains_key(k) && l[k]
            != r[k])
    &&& forall|i: int|
        0 <= i < out.len() ==> {
            let k = (#[trigger] out[i]).name@;
            &&& l.contains_key(k)
            &&& r.contains_key(k)
            &&& out[i].left == l[k]
            &&& out[i].right == r[k]
            &&& out[i].delta == spec_sub(l[k], r[k])
        }
}

/// A correct group stage: each side's list sorted and holding exactly the
/// group names absent from the other side.
pub open spec fn group_diff_ok(
    d: GroupDiff,
    left: Seq<ObjModuleTable>,
    right: Seq<ObjModuleTable>,
) -> bool {
    &&& strictly_sorted(views(d.unique_left@))
    &&& forall|k: Seq<char>|
        views(d.unique_left@).contains(k) <==> (#[trigger] group_names(left).contains(k)
            && !group_names(right).contains(k))
    &&& strictly_sorted(views(d.unique_right@))
    &&& forall|k: Seq<char>|
        views(d.unique_right@).contains(k) <==> (#[trigger] group_names(right).contains(k)
            && !group_names(left).contains(k))
}

/// A correct whole comparison: the group stage over the header lines
/// alone, and the object and value stages over the flattened mappings
/// alone.
pub open spec fn analysis_ok(
    left: Seq<ObjModuleTable>,
    right: Seq<ObjModuleTable>,
    a: Analysis,
) -> bool {
    &&& group_diff_ok(a.group_diff, left, right)
    &&& unique_side_ok(a.object_diff.unique_left@, spec_flatten(left), spec_flatten(right))
    &&& unique_side_ok(a.object_diff.unique_right@, spec_flatten(right), spec_flatten(left))
    &&& value_diffs_ok(a.object_diff.value_diffs@, spec_flatten(left), spec_flatten(right))
}


impl Analysis {
    /// The group stage's verdict alone: no group header is unique to
    /// either side.
    pub fn no_group_differences(&self) -> (b: bool)
        ensures
            b == (self.group_diff.unique_left@.len() == 0 && self.group_diff.unique_right@.len()
                == 0),
    {
        self.group_diff.unique_left.is_empty() && self.group_diff.unique_right.is_empty()
    }

    /// The object-name stage's verdict alone: no object file is unique to
    /// either side.
    pub fn no_unique_objects(&self) -> (b: bool)
        ensures
            b == (self.object_diff.unique_left@.len() == 0 && self.object_diff.unique_right@.len()
                == 0),
    {
        self.object_diff.unique_left.is_empty() && self.object_diff.unique_right.is_empty()
    }

    /// The value stage's verdict alone: every object file present on both
    /// sides carries the same record.
    pub fn no_value_differences(&self) -> (b: bool)
        ensures
            b == (self.object_diff.value_diffs@.len() == 0),
    {
        self.object_diff.value_diffs.is_empty()
    }
}

/// Whether some group of `tables` is headed by `name`.
fn has_group(tables: &Vec<ObjModuleTable>, name: &String) -> (r: bool)
    ensures
        r == group_names(tables@).contains(name@),
{
    let mut i: usize = 0;
    while i < tables.len()
        invariant
            i <= tables@.len(),
            forall|j: int| 0 <= j < i ==> group_names(tables@)[j] != name@,
        decreases tables@.len() - i,
    {
        if tables[i].name.eq(name) {
            proof {
                assert(group_names(tables@)[i as int] == name@);
            }
            return true;
        }
        i = i + 1;
    }
    proof {
        assert(forall|j: int| 0 <= j < group_names(tables@).len() ==> group_names(tables@)[j]
            != name@);
    }
    false
}

/// Inserts `name` into a sorted list of distinct names, keeping it sorted;
/// a name already present is left alone.
fn sorted_insert_unique(v: &mut Vec<String>, name: String)
    requires
        strictly_sorted(views(old(v)@)),
    ensures
        strictly_sorted(views(final(v)@)),
        forall|k: Seq<char>|
            views(final(v)@).contains(k) <==> (views(old(v)@).contains(k) || k == name@),
{
    let mut i: usize = 0;
    while i < v.len() && str_lt(&v[i], &name)
        invariant
            i <= v@.len(),
            v == old(v),
            strictly_sorted(views(v@)),
            forall|j: int| 0 <= j < i ==> lex_lt(views(v@)[j], name@),
        decreases v@.len() - i,
    {
        i = i + 1;
    }
    if i < v.len() && v[i].eq(&name) {
        proof {
            assert(views(v@)[i as int] == name@);
            assert(views(v@).contains(name@));
        }
        return ;
    }
    proof {
        if i < v@.len() {
            lemma_lex_total(views(v@)[i as int], name@);
        }
    }
    let ghost pre = views(v@);
    v.insert(i, name);
    proof {
        assert(views(v@) =~= pre.insert(i as int, name@));
        let now = views(v@);
        assert forall|a: int, b: int| 0 <= a < b < now.len() implies lex_lt(now[a], now[b]) by {
            if a < i && b == i {
                assert(now[a] == pre[a]);
            } else if a == i && b > i {
                assert(now[b] == pre[b - 1]);
                if b - 1 > i {
                    lemma_lex_trans(name@, pre[i as int], pre[b - 1]);
                }
            } else if a < i && b > i {
                assert(now[a] == pre[a] && now[b] == pre[b - 1]);
            } else if a > i && b > i {
                assert(now[a] == pre[a - 1] && now[b] == pre[b - 1]);
            }
        }
        assert forall|k: Seq<char>| now.contains(k) <==> (pre.contains(k) || k == name@) by {
            if now.contains(k) {
                let x = choose|x: int| 0 <= x < now.len() && now[x] == k;
                if x < i {
                    assert(pre[x] == k);
                } else if x > i {
                    assert(pre[x - 1] == k);
                }
            }
            if pre.contains(k) {
                let x = choose|x: int| 0 <= x < pre.len() && pre[x] == k;
                if x < i {
                    assert(now[x] == k);
                } else {
                    assert(now[x + 1] == k);
                }
            }
            if k == name@ {
                assert(now[i as int] == k);
            }
        }
    }
}

/// Show the differences in group header names: the headers unique to each
/// side, in sorted order.
pub fn module_differences(left: &Vec<ObjModuleTable>, right: &Vec<ObjModuleTable>) -> (r:
    GroupDiff)
    ensures
        group_diff_ok(r, left@, right@),
{
    let unique_left = unique_names(left, right);
    let unique_right = unique_names(right, left);
    GroupDiff { unique_left, unique_right }
}

/// The group names of `a` that head no group of `b`, sorted.
fn unique_names(a: &Vec<ObjModuleTable>, b: &Vec<ObjModuleTable>) -> (r: Vec<String>)
    ensures
        strictly_sorted(views(r@)),
        forall|k: Seq<char>|
            views(r@).contains(k) <==> (#[trigger] group_names(a@).contains(k) && !group_names(
                b@,
            ).contains(k)),
{
    let mut out: Vec<String> = Vec::new();
    proof {
        assert(views(out@) =~= Seq::<Seq<char>>::empty());
    }
    let mut i: usize = 0;
    while i < a.len()
        invariant
            i <= a@.len(),
            strictly_sorted(views(out@)),
            forall|k: Seq<char>|
                views(out@).contains(k) <==> ((exists|j: int|
                    0 <= j < i && #[trigger] group_names(a@)[j] == k) && !group_names(
                    b@,
                ).contains(k)),
        decreases a@.len() - i,
    {
        let name = a[i].name.clone();
        if !has_group(b, &name) {
            sorted_insert_unique(&mut out, name);
            proof {
                assert(group_names(a@)[i as int] == a@[i as int].name@);
            }
        }
        i = i + 1;
    }
    proof {
        assert forall|k: Seq<char>|
            views(out@).contains(k) <==> (#[trigger] group_names(a@).contains(k) && !group_names(
                b@,
            ).contains(k)) by {
            if group_names(a@).contains(k) {
                let j = choose|j: int| 0 <= j < group_names(a@).len() && group_names(a@)[j] == k;
                assert(0 <= j < i && group_names(a@)[j] == k);
            }
        }
    }
    out
}

/// Merges every group's mapping into one side-wide mapping, in source
/// order; on a shared name the later group wins.
pub fn flatten(tables: &Vec<ObjModuleTable>) -> (r: ModuleMap)
    ensures
        r@ == spec_flatten(tables@),
        r.wf(),
{
    let mut acc = ModuleMap::new();
    let mut i: usize = 0;
    proof {
        assert(tables@.take(0) =~= Seq::<ObjModuleTable>::empty());
    }
    while i < tables.len()
        invariant
            i <= tables@.len(),
            acc@ == spec_flatten(tables@.take(i as int)),
            acc.wf(),
        decreases tables@.len() - i,
    {
        let t = &tables[i];
        let n = t.table.entry_count();
        let mut j: usize = 0;
        proof {
            assert(pairs_to_map(t.table.entries_seq().take(0)) =~= Map::<Seq<char>, Module>::empty());
            assert(acc@ =~= spec_flatten(tables@.take(i as int)).union_prefer_right(
                pairs_to_map(t.table.entries_seq().take(0)),
            ));
        }
        while j < n
            invariant
                j <= n,
                n == t.table.entries_seq().len(),
                i < tables@.len(),
                t == &tables@[i as int],
                i < tables@.len(),
                acc@ == spec_flatten(tables@.take(i as int)).union_prefer_right(
                    pairs_to_map(t.table.entries_seq().take(j as int)),
                ),
                acc.wf(),
            decreases n - j,
        {
            let (name, m) = t.table.entry_at(j);
            let ghost before = acc@;
            acc.insert(name, m);
            proof {
                let es = t.table.entries_seq();
                assert(es.take(j + 1).drop_last() =~= es.take(j as int));
                assert(pairs_to_map(es.take(j + 1)) == pairs_to_map(es.take(j as int)).insert(
                    es[j as int].0,
                    es[j as int].1,
                ));
                assert(acc@ =~= spec_flatten(tables@.take(i as int)).union_prefer_right(
                    pairs_to_map(es.take(j + 1)),
                ));
            }
            j = j + 1;
        }
        proof {
            let es = t.table.entries_seq();
            assert(es.take(n as int) =~= es);
            t.table.lemma_view_is_pairs();
            assert(acc@ == spec_flatten(tables@.take(i as int)).union_prefer_right(t.table@));
            assert(tables@.take(i + 1).drop_last() =~= tables@.take(i as int));
            assert(tables@.take(i + 1).last() == tables@[i as int]);
            assert(spec_flatten(tables@.take(i + 1)) == spec_flatten(
                tables@.take(i as int),
            ).union_prefer_right(tables@[i as int].table@));
        }
        i = i + 1;
    }
    proof {
        assert(tables@.take(tables@.len() as int) =~= tables@);
    }
    acc
}

/// The names of a mapping, sorted.
fn sorted_keys(m: &ModuleMap) -> (r: Vec<String>)
    ensures
        strictly_sorted(views(r@)),
        forall|k: Seq<char>| views(r@).contains(k) <==> m@.contains_key(k),
{
    let mut out: Vec<String> = Vec::new();
    proof {
        assert(views(out@) =~= Seq::<Seq<char>>::empty());
    }
    let n = m.entry_count();
    let mut i: usize = 0;
    while i < n
        invariant
            i <= n,
            n == m.entries_seq().len(),
            strictly_sorted(views(out@)),
            forall|k: Seq<char>|
                views(out@).contains(k) <==> exists|j: int|
                    0 <= j < i && (#[trigger] m.entries_seq()[j]).0 == k,
        decreases n - i,
    {
        let (name, _) = m.entry_at(i);
        sorted_insert_unique(&mut out, name);
        i = i + 1;
    }
    proof {
        assert forall|k: Seq<char>| views(out@).contains(k) <==> m@.contains_key(k) by {
            m.lemma_view_entries(k);
        }
    }
    out
}

/// Compare object files across two flattened mappings: the objects unique
/// to each side with their records, and for objects on both sides whose
/// records differ, both records and their delta, all sorted by name.
pub fn compare_objects(left: &ModuleMap, right: &ModuleMap) -> (r: ObjectDiff)
    requires
        diffable(left@, right@),
    ensures
        unique_side_ok(r.unique_left@, left@, right@),
        unique_side_ok(r.unique_right@, right@, left@),
        value_diffs_ok(r.value_diffs@, left@, right@),
{
    let lkeys = sorted_keys(left);
    let rkeys = sorted_keys(right);
    let mut unique_left: Vec<(String, Module)> = Vec::new();
    let mut value_diffs: Vec<ValueDiff> = Vec::new();
    proof {
        assert(entry_names(unique_left@) =~= Seq::<Seq<char>>::empty());
        assert(value_names(value_diffs@) =~= Seq::<Seq<char>>::empty());
    }
    let mut i: usize = 0;
    while i < lkeys.len()
        invariant
            i <= lkeys@.len(),
            diffable(left@, right@),
            strictly_sorted(views(lkeys@)),
            forall|k: Seq<char>| views(lkeys@).contains(k) <==> left@.contains_key(k),
            strictly_sorted(entry_names(unique_left@)),
            forall|k: Seq<char>|
                entry_names(unique_left@).contains(k) <==> ((exists|j: int|
                    0 <= j < i && #[trigger] views(lkeys@)[j] == k) && !right@.contains_key(k)),
            forall|x: int|
                0 <= x < unique_left@.len() ==> left@.contains_key((#[trigger] unique_left@[x]).0@)
                    && unique_left@[x].1 == left@[unique_left@[x].0@],
            strictly_sorted(value_names(value_diffs@)),
            forall|k: Seq<char>|
                value_names(value_diffs@).contains(k) <==> ((exists|j: int|
                    0 <= j < i && #[trigger] views(lkeys@)[j] == k) && right@.contains_key(k)
                    && left@[k] != right@[k]),
            forall|x: int|
                0 <= x < value_diffs@.len() ==> {
                    let k = (#[trigger] value_diffs@[x]).name@;
                    &&& left@.contains_key(k)
                    &&& right@.contains_key(k)
                    &&& value_diffs@[x].left == left@[k]
                    &&& value_diffs@[x].right == right@[k]
                    &&& value_diffs@[x].delta == spec_sub(left@[k], right@[k])
                },
        decreases lkeys@.len() - i,
    {
        let k = lkeys[i].clone();
        proof {
            assert(views(lkeys@)[i as int] == k@);
            assert(views(lkeys@).contains(k@));
        }
        let lv = match left.get(&k) {
            Some(lv) => lv,
            None => vstd::pervasive::unreached(),
        };
        match right.get(&k) {
            None => {
                let ghost pre = entry_names(unique_left@);
                proof {
                    assert forall|x: int| 0 <= x < pre.len() implies lex_lt(pre[x], k@) by {
                        assert(pre.contains(pre[x]));
                        let j = choose|j: int|
                            0 <= j < i && #[trigger] views(lkeys@)[j] == pre[x];
                        assert(lex_lt(views(lkeys@)[j], views(lkeys@)[i as int]));
                    }
                }
                unique_left.push((k, lv));
                proof {
                    assert(entry_names(unique_left@) =~= pre.push(views(lkeys@)[i as int]));
                    assert forall|k2: Seq<char>| entry_names(unique_left@).contains(k2) implies ((
                    exists|j: int| 0 <= j < i + 1 && #[trigger] views(lkeys@)[j] == k2)
                        && !right@.contains_key(k2)) by {
                        let x = choose|x: int|
                            0 <= x < entry_names(unique_left@).len() && entry_names(
                                unique_left@,
                            )[x] == k2;
                        if x < pre.len() {
                            assert(pre.contains(k2));
                        }
                    }
                    assert forall|k2: Seq<char>|
                        ((exists|j: int| 0 <= j < i + 1 && #[trigger] views(lkeys@)[j] == k2)
                            && !right@.contains_key(k2)) implies entry_names(
                        unique_left@,
                    ).contains(k2) by {
                        let j = choose|j: int| 0 <= j < i + 1 && #[trigger] views(lkeys@)[j] == k2;
                        if j < i {
                            assert(pre.contains(k2));
                            let x = choose|x: int| 0 <= x < pre.len() && pre[x] == k2;
                            assert(entry_names(unique_left@)[x] == k2);
                        } else {
                            assert(entry_names(unique_left@).last() == k2);
                        }
                    }
                }
            },
            Some(rv) => {
                if !(lv == rv) {
                    let ghost pre = value_names(value_diffs@);
                    proof {
                        assert forall|x: int| 0 <= x < pre.len() implies lex_lt(pre[x], k@) by {
                            assert(pre.contains(pre[x]));
                            let j = choose|j: int|
                                0 <= j < i && #[trigger] views(lkeys@)[j] == pre[x];
                            assert(lex_lt(views(lkeys@)[j], views(lkeys@)[i as int]));
                        }
                    }
                    let delta = lv.sub(&rv);
                    value_diffs.push(ValueDiff { name: k, left: lv, right: rv, delta });
                    proof {
                        assert(value_names(value_diffs@) =~= pre.push(views(lkeys@)[i as int]));
                        assert forall|k2: Seq<char>| value_names(value_diffs@).contains(k2) implies
                            ((exists|j: int| 0 <= j < i + 1 && #[trigger] views(lkeys@)[j] == k2)
                            && right@.contains_key(k2) && left@[k2] != right@[k2]) by {
                            let x = choose|x: int|
                                0 <= x < value_names(value_diffs@).len() && value_names(
                                    value_diffs@,
                                )[x] == k2;
                            if x < pre.len() {
                                assert(pre.contains(k2));
                            }
                        }
                        assert forall|k2: Seq<char>|
                            ((exists|j: int| 0 <= j < i + 1 && #[trigger] views(lkeys@)[j] == k2)
                                && right@.contains_key(k2) && left@[k2] != right@[k2]) implies
                            value_names(value_diffs@).contains(k2) by {
                            let j = choose|j: int|
                                0 <= j < i + 1 && #[trigger] views(lkeys@)[j] == k2;
                            if j < i {
                                assert(pre.contains(k2));
                                let x = choose|x: int| 0 <= x < pre.len() && pre[x] == k2;
                                assert(value_names(value_diffs@)[x] == k2);
                            } else {
                                assert(value_names(value_diffs@).last() == k2);
                            }
                        }
                    }
                }
            },
        }
        i = i + 1;
    }
    let mut unique_right: Vec<(String, Module)> = Vec::new();
    proof {
        assert(entry_names(unique_right@) =~= Seq::<Seq<char>>::empty());
    }
    let mut i2: usize = 0;
    while i2 < rkeys.len()
        invariant
            i2 <= rkeys@.len(),
            strictly_sorted(views(rkeys@)),
            forall|k: Seq<char>| views(rkeys@).contains(k) <==> right@.contains_key(k),
            strictly_sorted(entry_names(unique_right@)),
            forall|k: Seq<char>|
                entry_names(unique_right@).contains(k) <==> ((exists|j: int|
                    0 <= j < i2 && #[trigger] views(rkeys@)[j] == k) && !left@.contains_key(k)),
            forall|x: int|
                0 <= x < unique_right@.len() ==> right@.contains_key(
                    (#[trigger] unique_right@[x]).0@,
                ) && unique_right@[x].1 == right@[unique_right@[x].0@],
        decreases rkeys@.len() - i2,
    {
        let k = rkeys[i2].clone();
        proof {
            assert(views(rkeys@)[i2 as int] == k@);
            assert(views(rkeys@).contains(k@));
        }
        let rv = match right.get(&k) {
            Some(rv) => rv,
            None => vstd::pervasive::unreached(),
        };
        match left.get(&k) {
            None => {
                let ghost pre = entry_names(unique_right@);
                proof {
                    assert forall|x: int| 0 <= x < pre.len() implies lex_lt(pre[x], k@) by {
                        assert(pre.contains(pre[x]));
                        let j = choose|j: int|
                            0 <= j < i2 && #[trigger] views(rkeys@)[j] == pre[x];
                        assert(lex_lt(views(rkeys@)[j], views(rkeys@)[i2 as int]));
                    }
                }
                unique_right.push((k, rv));
                proof {
                    assert(entry_names(unique_right@) =~= pre.push(views(rkeys@)[i2 as int]));
                    assert forall|k2: Seq<char>| entry_names(unique_right@).contains(k2) implies ((
                    exists|j: int| 0 <= j < i2 + 1 && #[trigger] views(rkeys@)[j] == k2)
                        && !left@.contains_key(k2)) by {
                        let x = choose|x: int|
                            0 <= x < entry_names(unique_right@).len() && entry_names(
                                unique_right@,
                            )[x] == k2;
                        if x < pre.len() {
                            assert(pre.contains(k2));
                        }
                    }
                    assert forall|k2: Seq<char>|
                        ((exists|j: int| 0 <= j < i2 + 1 && #[trigger] views(rkeys@)[j] == k2)
                            && !left@.contains_key(k2)) implies entry_names(
                        unique_right@,
                    ).contains(k2) by {
                        let j = choose|j: int|
                            0 <= j < i2 + 1 && #[trigger] views(rkeys@)[j] == k2;
                        if j < i2 {
                            assert(pre.contains(k2));
                            let x = choose|x: int| 0 <= x < pre.len() && pre[x] == k2;
                            assert(entry_names(unique_right@)[x] == k2);
                        } else {
                            assert(entry_names(unique_right@).last() == k2);
                        }
                    }
                }
            },
            Some(_) => {},
        }
        i2 = i2 + 1;
    }
    ObjectDiff { unique_left, unique_right, value_diffs }
}

/// Run analytics on the left and right module summary tables: the group
/// header diff, and the object and value diffs over the flattened
/// mappings.
pub fn analyze(left: &Vec<ObjModuleTable>, right: &Vec<ObjModuleTable>) -> (r: Analysis)
    requires
        diffable(spec_flatten(left@), spec_flatten(right@)),
    ensures
        analysis_ok(left@, right@, r),
{
    let group_diff = module_differences(left, right);
    let fl = flatten(left);
    let fr = flatten(right);
    let object_diff = compare_objects(&fl, &fr);
    Analysis { group_diff, object_diff }
}

/// Whether every record pair shared by the two mappings can be subtracted
/// without overflow.
fn check_diffable(l: &ModuleMap, r: &ModuleMap) -> (b: bool)
    requires
        l.wf(),
    ensures
        b == diffable(l@, r@),
{
    let n = l.entry_count();
    let mut i: usize = 0;
    while i < n
        invariant
            i <= n,
            l.wf(),
            n == l.entries_seq().len(),
            forall|j: int|
                0 <= j < i ==> {
                    let k = (#[trigger] l.entries_seq()[j]).0;
                    r@.contains_key(k) ==> sub_ok(l@[k], r@[k])
                },
        decreases n - i,
    {
        let (name, lv) = l.entry_at(i);
        proof {
            l.lemma_entry_value(i as int);
        }
        match r.get(&name) {
            Some(rv) => {
                if !crate::module::sub_ok_check(&lv, &rv) {
                    return false;
                }
            },
            None => {},
        }
        i = i + 1;
    }
    proof {
        assert forall|k: Seq<char>|
            #[trigger] l@.contains_key(k) && r@.contains_key(k) implies sub_ok(l@[k], r@[k]) by {
            l.lemma_view_entries(k);
            let j = choose|j: int|
                0 <= j < l.entries_seq().len() && (#[trigger] l.entries_seq()[j]).0 == k;
            assert(0 <= j < i && l.entries_seq()[j].0 == k);
        }
    }
    true
}

/// Run analytics if the two reports can be compared at all: nothing when
/// some record pair shared by the flattened mappings cannot be subtracted
/// without overflow, and the full comparison otherwise.
pub fn try_analyze(left: &Vec<ObjModuleTable>, right: &Vec<ObjModuleTable>) -> (r: Option<
    Analysis,
>)
    ensures
        (r is Some) == diffable(spec_flatten(left@), spec_flatten(right@)),
        r matches Some(a) ==> analysis_ok(left@, right@, a),
{
    let fl = flatten(left);
    let fr = flatten(right);
    if check_diffable(&fl, &fr) {
        Some(analyze(left, right))
    } else {
        None
    }
}

/// The three stages are independent.  The group stage reads the group
/// header lines alone: two reports listing the same group names report no
/// group difference, whatever their tables hold.  The object and value
/// stages read the flattened mappings alone, whatever the group names
/// were; a valid analysis carries all three verdicts side by side.
pub proof fn lemma_stages_independent(
    left: Seq<ObjModuleTable>,
    right: Seq<ObjModuleTable>,
    a: Analysis,
)
    requires
        analysis_ok(left, right, a),
    ensures
        (forall|k: Seq<char>|
            #[trigger] group_names(left).contains(k) <==> group_names(right).contains(k))
            ==> a.group_diff.unique_left@.len() == 0 && a.group_diff.unique_right@.len() == 0,
        value_diffs_ok(a.object_diff.value_diffs@, spec_flatten(left), spec_flatten(right)),
        unique_side_ok(a.object_diff.unique_left@, spec_flatten(left), spec_flatten(right)),
{
    if forall|k: Seq<char>|
        #[trigger] group_names(left).contains(k) <==> group_names(right).contains(k) {
        if a.group_diff.unique_left@.len() > 0 {
            let k = views(a.group_diff.unique_left@)[0];
            assert(views(a.group_diff.unique_left@).contains(k));
            assert(group_names(left).contains(k) && !group_names(right).contains(k));
            assert(group_names(right).contains(k));
            assert(false);
        }
        if a.group_diff.unique_right@.len() > 0 {
            let k = views(a.group_diff.unique_right@)[0];
            assert(views(a.group_diff.unique_right@).contains(k));
            assert(group_names(right).contains(k) && !group_names(left).contains(k));
            assert(group_names(left).contains(k));
            assert(false);
        }
    }
}

} // verus!
