//! The mapping from object file name to record, and the parser that fills
//! one table of rows.

use vstd::prelude::*;

use crate::codec::{spec_find_break, spec_modulep, find_break, modulep, RowOutcome, SpecRow};
use crate::module::Module;

verus! {

/// The mapping described by an ordered list of name/record pairs, a later
/// pair overwriting an earlier one with the same name.
pub open spec fn pairs_to_map(s: Seq<(Seq<char>, Module)>) -> Map<Seq<char>, Module>
    decreases s.len(),
{
    if s.len() == 0 {
        Map::empty()
    } else {
        pairs_to_map(s.drop_last()).insert(s.last().0, s.last().1)
    }
}

/// A name of the mapping is exactly a name of some pair.
pub proof fn lemma_pairs_to_map_contains(s: Seq<(Seq<char>, Module)>, k: Seq<char>)
    ensures
        pairs_to_map(s).contains_key(k) <==> exists|i: int| 0 <= i < s.len() && s[i].0 == k,
    decreases s.len(),
{
    if s.len() > 0 {
        lemma_pairs_to_map_contains(s.drop_last(), k);
        if s.last().0 == k {
            assert(s[s.len() - 1].0 == k);
        } else if pairs_to_map(s).contains_key(k) {
            let i = choose|i: int| 0 <= i < s.drop_last().len() && s.drop_last()[i].0 == k;
            assert(s[i].0 == k);
        } else if exists|i: int| 0 <= i < s.len() && s[i].0 == k {
            let i = choose|i: int| 0 <= i < s.len() && s[i].0 == k;
            assert(s.drop_last()[i].0 == k);
        }
    }
}

/// The mapping sends a name to the record of its last pair.
pub proof fn lemma_pairs_to_map_last(s: Seq<(Seq<char>, Module)>, j: int)
    requires
        0 <= j < s.len(),
        forall|l: int| j < l < s.len() ==> s[l].0 != s[j].0,
    ensures
        pairs_to_map(s).contains_key(s[j].0),
        pairs_to_map(s)[s[j].0] == s[j].1,
    decreases s.len(),
{
    if j == s.len() - 1 {
    } else {
        assert(s.drop_last()[j] == s[j]);
        lemma_pairs_to_map_last(s.drop_last(), j);
        assert(s.last().0 != s[j].0);
    }
}

/// Removing the one pair that carries a name removes that name from the
/// mapping, when no two pairs share a name.
proof fn lemma_pairs_to_map_remove(s: Seq<(Seq<char>, Module)>, i: int)
    requires
        0 <= i < s.len(),
        forall|a: int, b: int| 0 <= a < b < s.len() ==> s[a].0 != s[b].0,
    ensures
        pairs_to_map(s.remove(i)) == pairs_to_map(s).remove(s[i].0),
    decreases s.len(),
{
    lemma_pairs_to_map_contains(s.drop_last(), s.last().0);
    if i == s.len() - 1 {
        assert(s.remove(i) =~= s.drop_last());
        assert(!pairs_to_map(s.drop_last()).contains_key(s.last().0));
        assert(pairs_to_map(s.drop_last()) =~= pairs_to_map(s.drop_last()).insert(
            s.last().0,
            s.last().1,
        ).remove(s.last().0));
    } else {
        assert(s.drop_last()[i] == s[i]);
        lemma_pairs_to_map_remove(s.drop_last(), i);
        assert(s.remove(i).drop_last() =~= s.drop_last().remove(i));
        assert(s.remove(i).last() == s.last());
        assert(s[i].0 != s.last().0);
        assert(pairs_to_map(s.remove(i)) =~= pairs_to_map(s).remove(s[i].0));
    }
}

/// A mapping from object file name to record, with each name carried by
/// exactly one entry.  Entry order is the insertion order; it carries no
/// meaning for the mapping itself.
#[derive(Debug)]
pub struct ModuleMap {
    entries: Vec<(String, Module)>,
}

impl View for ModuleMap {
    type V = Map<Seq<char>, Module>;

    closed spec fn view(&self) -> Map<Seq<char>, Module> {
        pairs_to_map(self.entries_seq())
    }
}

impl ModuleMap {
    /// The ordered entries, as mathematical values.
    pub closed spec fn entries_seq(self) -> Seq<(Seq<char>, Module)> {
        Seq::new(self.entries@.len(), |i: int| (self.entries@[i].0@, self.entries@[i].1))
    }

    /// No two entries share a name.
    pub closed spec fn wf(self) -> bool {
        forall|a: int, b: int|
            0 <= a < b < self.entries_seq().len() ==> #[trigger] self.entries_seq()[a].0
                != #[trigger] self.entries_seq()[b].0
    }

    /// The mapping is the one its ordered entries describe.
    pub proof fn lemma_view_is_pairs(self)
        ensures
            self@ == pairs_to_map(self.entries_seq()),
    {
    }

    /// The names of the mapping are exactly the names of its entries.
    pub proof fn lemma_view_entries(self, k: Seq<char>)
        ensures
            self@.contains_key(k) <==> exists|i: int|
                0 <= i < self.entries_seq().len() && #[trigger] self.entries_seq()[i].0 == k,
    {
        lemma_pairs_to_map_contains(self.entries_seq(), k);
    }

    /// An entry's record is what the mapping sends its name to, when the
    /// mapping is well formed.
    pub proof fn lemma_entry_value(self, i: int)
        requires
            self.wf(),
            0 <= i < self.entries_seq().len(),
        ensures
            self@.contains_key(self.entries_seq()[i].0),
            self@[self.entries_seq()[i].0] == self.entries_seq()[i].1,
    {
        lemma_pairs_to_map_last(self.entries_seq(), i);
    }

    /// The empty mapping.
    pub fn new() -> (r: ModuleMap)
        ensures
            r@ == Map::<Seq<char>, Module>::empty(),
            r.wf(),
            r.entries_seq() == Seq::<(Seq<char>, Module)>::empty(),
    {
        let r = ModuleMap { entries: Vec::new() };
        proof {
            assert(r.entries_seq() =~= Seq::<(Seq<char>, Module)>::empty());
        }
        r
    }

    /// How many entries the mapping has.
    pub fn entry_count(&self) -> (c: usize)
        ensures
            c == self.entries_seq().len(),
    {
        self.entries.len()
    }

    /// One entry: its name and its record.
    pub fn entry_at(&self, i: usize) -> (r: (String, Module))
        requires
            i < self.entries_seq().len(),
        ensures
            r.0@ == self.entries_seq()[i as int].0,
            r.1 == self.entries_seq()[i as int].1,
    {
        let name = self.entries[i].0.clone();
        let m = self.entries[i].1;
        (name, m)
    }

    /// The index of the entry carrying `name`, if any.
    fn find(&self, name: &String) -> (r: Option<usize>)
        ensures
            r matches Some(i) ==> i < self.entries_seq().len() && self.entries_seq()[i as int].0
                == name@,
            r is None ==> forall|i: int|
                0 <= i < self.entries_seq().len() ==> #[trigger] self.entries_seq()[i].0 != name@,
    {
        let mut i: usize = 0;
        while i < self.entries.len()
            invariant
                i <= self.entries_seq().len(),
                forall|j: int| 0 <= j < i ==> #[trigger] self.entries_seq()[j].0 != name@,
            decreases self.entries_seq().len() - i,
        {
            if self.entries[i].0.eq(name) {
                return Some(i);
            }
            i = i + 1;
        }
        None
    }

    /// The record stored under `name`, if any.
    pub fn get(&self, name: &String) -> (r: Option<Module>)
        ensures
            r == (if self@.contains_key(name@) {
                Some(self@[name@])
            } else {
                None::<Module>
            }),
    {
        let n = self.entries.len();
        let mut i: usize = n;
        while i > 0
            invariant
                i <= n,
                n == self.entries_seq().len(),
                forall|l: int| i <= l < n ==> #[trigger] self.entries_seq()[l].0 != name@,
            decreases i,
        {
            i = i - 1;
            if self.entries[i].0.eq(name) {
                proof {
                    lemma_pairs_to_map_last(self.entries_seq(), i as int);
                }
                return Some(self.entries[i].1);
            }
        }
        proof {
            lemma_pairs_to_map_contains(self.entries_seq(), name@);
        }
        None
    }

    /// Stores `m` under `name`, overwriting any record already there.
    pub fn insert(&mut self, name: String, m: Module)
        requires
            old(self).wf(),
        ensures
            final(self)@ == old(self)@.insert(name@, m),
            final(self).wf(),
    {
        let found = self.find(&name);
        let ghost pre = self.entries_seq();
        match found {
            Some(i) => {
                proof {
                    lemma_pairs_to_map_remove(pre, i as int);
                }
                self.entries.remove(i);
                proof {
                    assert(self.entries_seq() =~= pre.remove(i as int));
                }
            },
            None => {
            },
        }
        let ghost mid = self.entries_seq();
        proof {
            lemma_pairs_to_map_contains(mid, name@);
            if found is Some {
                let i = found->0 as int;
                assert(forall|j: int|
                    0 <= j < mid.len() ==> mid[j] == (if j < i {
                        pre[j]
                    } else {
                        pre[j + 1]
                    }));
            }
            assert(forall|j: int| 0 <= j < mid.len() ==> #[trigger] mid[j].0 != name@);
            assert(forall|a: int, b: int|
                0 <= a < b < mid.len() ==> #[trigger] mid[a].0 != #[trigger] mid[b].0);
        }
        self.entries.push((name, m));
        proof {
            assert(self.entries_seq().drop_last() =~= mid);
            assert(self.entries_seq().last().0 == name@);
            assert(final(self)@ =~= old(self)@.insert(name@, m));
            assert forall|a: int, b: int|
                0 <= a < b < self.entries_seq().len() implies #[trigger] self.entries_seq()[a].0
                != #[trigger] self.entries_seq()[b].0 by {
                assert(self.entries_seq()[a] == mid[a]);
                if b == self.entries_seq().len() - 1 {
                    assert(self.entries_seq()[b].0 == name@);
                } else {
                    assert(self.entries_seq()[b] == mid[b]);
                }
            }
        }
    }
}


impl ModuleMap {
    /// Whether every name of this mapping is sent to the same record by
    /// `other`.
    fn submap_check(&self, other: &ModuleMap) -> (r: bool)
        ensures
            r == forall|k: Seq<char>|
                #[trigger] self@.contains_key(k) ==> other@.contains_key(k) && other@[k]
                    == self@[k],
    {
        let n = self.entries.len();
        let mut i: usize = 0;
        while i < n
            invariant
                i <= n,
                n == self.entries_seq().len(),
                forall|j: int|
                    0 <= j < i ==> {
                        let k = #[trigger] self.entries_seq()[j].0;
                        self@.contains_key(k) ==> other@.contains_key(k) && other@[k] == self@[k]
                    },
            decreases n - i,
        {
            let k = &self.entries[i].0;
            match (self.get(k), other.get(k)) {
                (Some(a), Some(b)) => {
                    if !(a == b) {
                        proof {
                            lemma_pairs_to_map_contains(self.entries_seq(), k@);
                            assert(self.entries_seq()[i as int].0 == k@);
                        }
                        return false;
                    }
                },
                (Some(_), None) => {
                    proof {
                        lemma_pairs_to_map_contains(self.entries_seq(), k@);
                        assert(self.entries_seq()[i as int].0 == k@);
                    }
                    return false;
                },
                _ => {
                    proof {
                        lemma_pairs_to_map_contains(self.entries_seq(), k@);
                        assert(self.entries_seq()[i as int].0 == k@);
                        assert(self@.contains_key(k@));
                    }
                    return false;
                },
            }
            i = i + 1;
        }
        proof {
            assert forall|k: Seq<char>| #[trigger] self@.contains_key(k) implies other@.contains_key(
                k,
            ) && other@[k] == self@[k] by {
                lemma_pairs_to_map_contains(self.entries_seq(), k);
                let j = choose|j: int|
                    0 <= j < self.entries_seq().len() && self.entries_seq()[j].0 == k;
                assert(self.entries_seq()[j].0 == k);
            }
        }
        true
    }
}

impl PartialEq for ModuleMap {
    /// Two mappings are equal when they send the same names to the same
    /// records, whatever the entry order.
    fn eq(&self, other: &ModuleMap) -> (r: bool) {
        let r = self.submap_check(other) && other.submap_check(self);
        proof {
            if r {
                assert(self@ =~= other@);
            }
        }
        r
    }
}

impl vstd::std_specs::cmp::PartialEqSpecImpl for ModuleMap {
    open spec fn obeys_eq_spec() -> bool {
        true
    }

    open spec fn eq_spec(&self, other: &ModuleMap) -> bool {
        self@ == other@
    }
}

/// One complete table row: a parsed row followed by its line ending.
/// Gives the name, the record, and the bytes consumed; nothing when the
/// line is no row or its ending is missing.
pub open spec fn spec_table_rowp(input: Seq<u8>, n: int) -> Option<(Seq<char>, Module, int)> {
    match spec_modulep(input, n) {
        SpecRow::Row(name, m) => match spec_line_ending(input, spec_find_break(input, 0)) {
            Some(next) => Some((name, m, next)),
            None => None,
        },
        _ => None,
    }
}

/// A line ending at position `at`: a line feed alone, or a carriage return
/// followed by a line feed, and the position after it.
pub open spec fn spec_line_ending(s: Seq<u8>, at: int) -> Option<int> {
    if 0 <= at < s.len() && s[at] == 10 {
        Some(at + 1)
    } else if 0 <= at && at + 1 < s.len() && s[at] == 13 && s[at + 1] == 10 {
        Some(at + 2)
    } else {
        None
    }
}

/// A complete row consumes at least its line ending and at most the input.
pub proof fn lemma_table_rowp_bounds(input: Seq<u8>, n: int)
    ensures
        spec_table_rowp(input, n) matches Some(r) ==> 0 < r.2 <= input.len(),
{
}

/// Parses one complete module summary table row: the row and its line
/// ending.
pub fn table_rowp(input: &[u8], nbytes: usize) -> (r: Option<(String, Module, usize)>)
    ensures
        (r is Some) == (spec_table_rowp(input@, nbytes as int) is Some),
        r matches Some(t) ==> spec_table_rowp(input@, nbytes as int) matches Some(s) && t.0@ == s.0
            && t.1 == s.1 && t.2 == s.2,
{
    match modulep(input, nbytes) {
        RowOutcome::Row(name, m) => {
            let e = find_break(input, 0);
            if e < input.len() {
                let b0 = *vstd::slice::slice_index_get(input, e);
                if b0 == 10 {
                    Some((name, m, e + 1))
                } else if b0 == 13 && e + 1 < input.len() && *vstd::slice::slice_index_get(
                    input,
                    e + 1,
                ) == 10 {
                    Some((name, m, e + 2))
                } else {
                    None
                }
            } else {
                None
            }
        },
        _ => None,
    }
}

/// The mapping built by reading table rows from the front of the input
/// until a line fails to be a row, together with the bytes consumed.  Each
/// row is entered under its name; of rows sharing a name the last wins.
pub open spec fn spec_module_table(input: Seq<u8>, n: int) -> (Map<Seq<char>, Module>, int)
    decreases input.len(),
{
    match spec_table_rowp(input, n) {
        None => (Map::<Seq<char>, Module>::empty(), 0),
        Some((name, m, c)) => {
            if 0 < c <= input.len() {
                let rest = spec_module_table(input.skip(c), n);
                (
                    if rest.0.contains_key(name) {
                        rest.0
                    } else {
                        rest.0.insert(name, m)
                    },
                    c + rest.1,
                )
            } else {
                (Map::<Seq<char>, Module>::empty(), 0)
            }
        },
    }
}

/// The table parser never consumes more than the input.
pub proof fn lemma_module_table_bounds(input: Seq<u8>, n: int)
    ensures
        0 <= spec_module_table(input, n).1 <= input.len(),
    decreases input.len(),
{
    match spec_table_rowp(input, n) {
        None => {},
        Some((name, m, c)) => {
            if 0 < c <= input.len() {
                lemma_module_table_bounds(input.skip(c), n);
            }
        },
    }
}

/// Parses all module summary table rows from the front of the input, and
/// inserts the results into a mapping; returns the mapping and the number
/// of bytes consumed.
pub fn module_table(input: &[u8], nbytes: usize) -> (r: (ModuleMap, usize))
    ensures
        r.0@ == spec_module_table(input@, nbytes as int).0,
        r.1 == spec_module_table(input@, nbytes as int).1,
        r.0.wf(),
    decreases input@.len(),
{
    proof {
        lemma_table_rowp_bounds(input@, nbytes as int);
        lemma_module_table_bounds(input@, nbytes as int);
    }
    match table_rowp(input, nbytes) {
        None => (ModuleMap::new(), 0),
        Some((name, m, c)) => {
            let rest_slice = vstd::slice::slice_subrange(input, c, input.len());
            proof {
                assert(rest_slice@ =~= input@.skip(c as int));
                lemma_module_table_bounds(rest_slice@, nbytes as int);
            }
            let (mut map, c2) = module_table(rest_slice, nbytes);
            match map.get(&name) {
                Some(_) => {},
                None => {
                    map.insert(name, m);
                },
            }
            (map, c + c2)
        },
    }
}

} // verus!
