//! The reference table and exact lookup by code.

use crate::encoding::compare_text;
use crate::order::Side;
use crate::record::{views, Iso31662, Subdivision};
use crate::text::{code_lt, lemma_code_lt_strict, lemma_code_lt_transitive};
use vstd::prelude::*;

verus! {

/// The codes of `t` rise strictly from each record to every later one. A
/// table in this order holds no code twice.
pub open spec fn ascending(t: Seq<Subdivision>) -> bool {
    forall|i: int, j: int|
        0 <= i < j < t.len() ==> code_lt(#[trigger] t[i].code, #[trigger] t[j].code)
}

/// The record at index `i` of `t` carries `code`.
pub open spec fn holds_code(t: Seq<Subdivision>, code: Seq<char>, i: int) -> bool {
    0 <= i < t.len() && t[i].code == code
}

/// The index of the record that carries `code`, if there is one.
pub open spec fn position(t: Seq<Subdivision>, code: Seq<char>) -> Option<int> {
    if exists|i: int| holds_code(t, code, i) {
        Some(choose|i: int| holds_code(t, code, i))
    } else {
        None
    }
}

/// In an ascending table a code sits at one index only, so `position` names
/// that index.
pub proof fn lemma_position_unique(t: Seq<Subdivision>, code: Seq<char>, i: int)
    requires
        ascending(t),
        holds_code(t, code, i),
    ensures
        position(t, code) == Some(i),
{
    lemma_code_lt_strict(code, code);
}

/// An immutable run of subdivision records in ascending order of code. Codes
/// are ordered as strings are: character by character, by scalar value, which
/// is also the byte order of their UTF-8 encodings.
pub struct Table {
    records: Vec<Iso31662>,
}

impl View for Table {
    type V = Seq<Subdivision>;

    closed spec fn view(&self) -> Seq<Subdivision> {
        views(self.records@)
    }
}

impl Table {
    /// What holds of every table: its codes rise strictly.
    #[verifier::type_invariant]
    spec fn wf(&self) -> bool {
        ascending(views(self.records@))
    }

    /// Takes ownership of `records` as a table, provided their codes rise
    /// strictly; hands back `None` otherwise.
    pub fn new(records: Vec<Iso31662>) -> (made: Option<Table>)
        ensures
            made is Some <==> ascending(views(records@)),
            made matches Some(table) ==> table@ == views(records@),
    {
        let ghost t = views(records@);
        let n = records.len();
        let mut i: usize = 1;
        while i < n
            invariant
                1 <= i,
                n == records@.len(),
                t == views(records@),
                forall|a: int, b: int|
                    0 <= a < b < i && b < n ==> code_lt(#[trigger] t[a].code, #[trigger] t[b].code),
            decreases n - i,
        {
            match compare_text(records[i - 1].code, records[i].code) {
                Side::Before => {},
                _ => {
                    assert(!code_lt(t[i - 1].code, t[i as int].code));
                    return None;
                },
            }
            proof {
                assert forall|a: int| 0 <= a < i implies code_lt(
                    #[trigger] t[a].code,
                    t[i as int].code,
                ) by {
                    if a < i - 1 {
                        lemma_code_lt_transitive(t[a].code, t[i - 1].code, t[i as int].code);
                    }
                }
            }
            i += 1;
        }
        Some(Table { records })
    }

    /// The number of records.
    pub fn len(&self) -> (n: usize)
        ensures
            n == self@.len(),
    {
        self.records.len()
    }

    /// The records, in ascending order of code.
    pub fn records(&self) -> (all: &[Iso31662])
        ensures
            views(all@) == self@,
            ascending(self@),
    {
        proof {
            use_type_invariant(self);
        }
        self.records.as_slice()
    }
}

/// The index of the record that carries `code`, found by binary search.
pub fn index_of(table: &Table, code: &str) -> (at: Option<usize>)
    ensures
        match at {
            Some(i) => position(table@, code@) == Some(i as int),
            None => position(table@, code@) is None,
        },
{
    let ghost t = table@;
    proof {
        use_type_invariant(table);
    }
    let mut lo: usize = 0;
    let mut hi: usize = table.records.len();
    while lo < hi
        invariant
            lo <= hi <= t.len(),
            t == table@,
            ascending(t),
            forall|j: int| 0 <= j < lo ==> code_lt(#[trigger] t[j].code, code@),
            forall|j: int| hi <= j < t.len() ==> code_lt(code@, #[trigger] t[j].code),
        decreases hi - lo,
    {
        let mid = lo + (hi - lo) / 2;
        match compare_text(table.records[mid].code, code) {
            Side::Before => {
                proof {
                    assert forall|j: int| 0 <= j < mid + 1 implies code_lt(
                        #[trigger] t[j].code,
                        code@,
                    ) by {
                        if j < mid {
                            lemma_code_lt_transitive(t[j].code, t[mid as int].code, code@);
                        }
                    }
                }
                lo = mid + 1;
            },
            Side::Same => {
                proof {
                    lemma_position_unique(t, code@, mid as int);
                }
                return Some(mid);
            },
            Side::After => {
                proof {
                    assert forall|j: int| mid <= j < t.len() implies code_lt(
                        code@,
                        #[trigger] t[j].code,
                    ) by {
                        if mid < j {
                            lemma_code_lt_transitive(code@, t[mid as int].code, t[j].code);
                        }
                    }
                }
                hi = mid;
            },
        }
    }
    proof {
        lemma_code_lt_strict(code@, code@);
    }
    None
}

/// The record that carries `code`, or `None` where the table holds no such
/// record.
pub fn find<'a>(table: &'a Table, code: &str) -> (found: Option<&'a Iso31662>)
    ensures
        match found {
            Some(r) => position(table@, code@) matches Some(i) && r@ == table@[i],
            None => position(table@, code@) is None,
        },
        found matches Some(r) ==> r@.code == code@,
        found is None <==> forall|i: int| 0 <= i < table@.len() ==> table@[i].code != code@,
{
    match index_of(table, code) {
        Some(index) => Some(&table.records[index]),
        None => {
            assert forall|i: int| 0 <= i < table@.len() implies table@[i].code != code@ by {
                assert(!holds_code(table@, code@, i));
            }
            None
        },
    }
}

} // verus!
