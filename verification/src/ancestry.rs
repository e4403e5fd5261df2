//! The chain of records from one record up to its country.

use crate::record::{Iso31662, Subdivision};
use crate::table::{find, holds_code, position, Table};
use vstd::prelude::*;
use vstd::set_lib::{lemma_int_range, lemma_len_subset, set_int_range};

verus! {

/// The index of the record that record `i` names as its parent. `None` where
/// record `i` names no parent, or names a code that the table does not hold.
pub open spec fn parent_position(t: Seq<Subdivision>, i: int) -> Option<int> {
    match t[i].parent {
        Some(code) => position(t, code),
        None => None,
    }
}

/// The indices met on the way up from `from`, each followed by its parent's.
/// The walk ends where there is no record to go on to, and after `steps`
/// records at the latest.
pub open spec fn climb(t: Seq<Subdivision>, from: Option<int>, steps: nat) -> Seq<int>
    decreases steps,
{
    match from {
        Some(i) if steps > 0 => seq![i] + climb(t, parent_position(t, i), (steps - 1) as nat),
        _ => Seq::empty(),
    }
}

/// The indices of the ancestor chain of `code`: the record that carries it,
/// that record's parent, and so on. A chain holds no more records than the
/// table does.
pub open spec fn ancestry(t: Seq<Subdivision>, code: Seq<char>) -> Seq<int> {
    climb(t, position(t, code), t.len())
}

/// The `k`-th ancestor of record `i`: the record itself for `k == 0`, else
/// the ancestor one step nearer of the record's parent.
pub open spec fn ancestor(t: Seq<Subdivision>, i: int, k: nat) -> Option<int>
    decreases k,
{
    if k == 0 {
        Some(i)
    } else {
        match parent_position(t, i) {
            Some(j) => ancestor(t, j, (k - 1) as nat),
            None => None,
        }
    }
}

/// The parent links of `t` run in no circle: no record is its own ancestor.
pub open spec fn acyclic(t: Seq<Subdivision>) -> bool {
    forall|i: int, k: nat| 0 <= i < t.len() && k > 0 ==> #[trigger] ancestor(t, i, k) != Some(i)
}

/// Every parent that a record of `t` names is the code of a record of `t`.
pub open spec fn parents_resolve(t: Seq<Subdivision>) -> bool {
    forall|i: int|
        0 <= i < t.len() ==> ((#[trigger] t[i]).parent matches Some(code) ==> position(t, code)
            is Some)
}

/// The index of the record that carries the code to look up next, if there
/// is a code to look up and the table holds it.
spec fn target(t: Seq<Subdivision>, next: Option<&str>) -> Option<int> {
    match next {
        Some(code) => position(t, code@),
        None => None,
    }
}

/// `from` names no index outside `t`.
spec fn within(t: Seq<Subdivision>, from: Option<int>) -> bool {
    from matches Some(i) ==> 0 <= i < t.len()
}

/// A walk passes over records of the table only.
proof fn lemma_climb_in_range(t: Seq<Subdivision>, from: Option<int>, steps: nat)
    requires
        within(t, from),
    ensures
        forall|k: int|
            0 <= k < climb(t, from, steps).len() ==> 0 <= #[trigger] climb(t, from, steps)[k]
                < t.len(),
    decreases steps,
{
    if let Some(i) = from {
        if steps > 0 {
            let next = parent_position(t, i);
            let rest = climb(t, next, (steps - 1) as nat);
            assert(climb(t, from, steps) =~= seq![i] + rest);
            if let Some(j) = next {
                assert(holds_code(t, t[i].parent.unwrap(), j));
            }
            lemma_climb_in_range(t, next, (steps - 1) as nat);
            assert forall|k: int| 0 <= k < 1 + rest.len() implies 0 <= #[trigger] (seq![i]
                + rest)[k] < t.len() by {
                if k > 0 {
                    assert((seq![i] + rest)[k] == rest[k - 1]);
                }
            }
        }
    }
}

/// In a walk each record is followed by the one it names as its parent.
proof fn lemma_climb_linked(t: Seq<Subdivision>, from: Option<int>, steps: nat, k: int)
    requires
        0 <= k,
        k + 1 < climb(t, from, steps).len(),
    ensures
        parent_position(t, climb(t, from, steps)[k]) == Some(climb(t, from, steps)[k + 1]),
    decreases steps,
{
    let i = from.unwrap();
    let next = parent_position(t, i);
    let rest = climb(t, next, (steps - 1) as nat);
    assert(climb(t, from, steps) =~= seq![i] + rest);
    if k > 0 {
        lemma_climb_linked(t, next, (steps - 1) as nat, k - 1);
    }
}

/// A walk passes no more records than it is allowed.
proof fn lemma_climb_bounded(t: Seq<Subdivision>, from: Option<int>, steps: nat)
    ensures
        climb(t, from, steps).len() <= steps,
    decreases steps,
{
    if let Some(i) = from {
        if steps > 0 {
            lemma_climb_bounded(t, parent_position(t, i), (steps - 1) as nat);
        }
    }
}

/// A walk that stops short of its allowance has come to a record with no
/// parent in the table.
proof fn lemma_climb_ends(t: Seq<Subdivision>, from: Option<int>, steps: nat)
    requires
        from is Some,
        climb(t, from, steps).len() < steps,
    ensures
        climb(t, from, steps).len() > 0,
        parent_position(t, climb(t, from, steps).last()) is None,
    decreases steps,
{
    let i = from.unwrap();
    let next = parent_position(t, i);
    let rest = climb(t, next, (steps - 1) as nat);
    assert(climb(t, from, steps) =~= seq![i] + rest);
    if next is Some {
        lemma_climb_ends(t, next, (steps - 1) as nat);
    }
}

/// A walk that does not use up a larger allowance is the same under a
/// smaller one that it fits in.
proof fn lemma_climb_fits(t: Seq<Subdivision>, from: Option<int>, steps: nat)
    requires
        climb(t, from, steps + 1).len() <= steps,
    ensures
        climb(t, from, steps) == climb(t, from, steps + 1),
    decreases steps,
{
    if let Some(i) = from {
        let next = parent_position(t, i);
        assert(climb(t, from, steps + 1) =~= seq![i] + climb(t, next, steps));
        lemma_climb_fits(t, next, (steps - 1) as nat);
    }
}

/// What a walk passes from its `a`-th record on is the walk that starts
/// there.
proof fn lemma_climb_suffix(t: Seq<Subdivision>, from: Option<int>, steps: nat, a: int)
    requires
        0 <= a < climb(t, from, steps).len(),
    ensures
        climb(t, from, steps).skip(a) == climb(
            t,
            Some(climb(t, from, steps)[a]),
            (steps - a) as nat,
        ),
    decreases steps,
{
    let i = from.unwrap();
    let next = parent_position(t, i);
    let rest = climb(t, next, (steps - 1) as nat);
    assert(climb(t, from, steps) =~= seq![i] + rest);
    if a > 0 {
        lemma_climb_suffix(t, next, (steps - 1) as nat, a - 1);
        assert(climb(t, from, steps).skip(a) =~= rest.skip(a - 1));
    } else {
        assert(climb(t, from, steps).skip(0) =~= climb(t, from, steps));
    }
}

/// The `k`-th record of the walk from record `i` is the `k`-th ancestor of
/// record `i`.
proof fn lemma_climb_ancestor(t: Seq<Subdivision>, i: int, steps: nat, k: nat)
    requires
        k < climb(t, Some(i), steps).len(),
    ensures
        ancestor(t, i, k) == Some(climb(t, Some(i), steps)[k as int]),
    decreases k,
{
    let next = parent_position(t, i);
    let rest = climb(t, next, (steps - 1) as nat);
    assert(climb(t, Some(i), steps) =~= seq![i] + rest);
    if k > 0 {
        lemma_climb_ancestor(t, next.unwrap(), (steps - 1) as nat, (k - 1) as nat);
    }
}

/// Where the parent links run in no circle, a walk passes no record twice,
/// so it is no longer than the table.
proof fn lemma_climb_short(t: Seq<Subdivision>, from: Option<int>, steps: nat)
    requires
        acyclic(t),
        within(t, from),
    ensures
        climb(t, from, steps).no_duplicates(),
        climb(t, from, steps).len() <= t.len(),
{
    let walk = climb(t, from, steps);
    lemma_climb_in_range(t, from, steps);
    assert forall|a: int, b: int| 0 <= a < b < walk.len() implies walk[a] != walk[b] by {
        lemma_climb_suffix(t, from, steps, a);
        lemma_climb_ancestor(t, walk[a], (steps - a) as nat, (b - a) as nat);
        assert(walk[b] == walk.skip(a)[b - a]);
    }
    walk.unique_seq_to_set();
    lemma_int_range(0, t.len() as int);
    assert(walk.to_set().subset_of(set_int_range(0, t.len() as int))) by {
        assert forall|x: int| walk.to_set().contains(x) implies set_int_range(
            0,
            t.len() as int,
        ).contains(x) by {
            let k = choose|k: int| 0 <= k < walk.len() && walk[k] == x;
        }
    }
    lemma_len_subset(walk.to_set(), set_int_range(0, t.len() as int));
}

/// The chain of a code that the table does not hold is empty.
pub proof fn lemma_ancestry_of_absent(t: Seq<Subdivision>, code: Seq<char>)
    requires
        position(t, code) is None,
    ensures
        ancestry(t, code).len() == 0,
{
}

/// The chain of a code that the table holds begins with the record that
/// carries the code, and each record in it names the next one's code as its
/// parent. A chain shorter than the table has not been cut off: its last
/// record has no parent in the table.
pub proof fn lemma_ancestry_of_present(t: Seq<Subdivision>, code: Seq<char>)
    requires
        position(t, code) is Some,
    ensures
        0 < ancestry(t, code).len() <= t.len(),
        ancestry(t, code)[0] == position(t, code).unwrap(),
        t[ancestry(t, code)[0]].code == code,
        forall|k: int|
            0 <= k < ancestry(t, code).len() ==> 0 <= #[trigger] ancestry(t, code)[k] < t.len(),
        forall|k: int|
            0 <= k && k + 1 < ancestry(t, code).len() ==> t[#[trigger] ancestry(
                t,
                code,
            )[k]].parent == Some(t[ancestry(t, code)[k + 1]].code),
        ancestry(t, code).len() < t.len() ==> parent_position(t, ancestry(t, code).last())
            is None,
{
    let from = position(t, code);
    let i = from.unwrap();
    assert(holds_code(t, code, i));
    let chain = ancestry(t, code);
    assert(chain =~= seq![i] + climb(t, parent_position(t, i), (t.len() - 1) as nat));
    lemma_climb_in_range(t, from, t.len());
    lemma_climb_bounded(t, from, t.len());
    if chain.len() < t.len() {
        lemma_climb_ends(t, from, t.len());
    }
    assert forall|k: int| 0 <= k && k + 1 < chain.len() implies t[#[trigger] chain[k]].parent
        == Some(t[chain[k + 1]].code) by {
        lemma_climb_linked(t, from, t.len(), k);
        assert(holds_code(t, t[chain[k]].parent.unwrap(), chain[k + 1]));
    }
}

/// Where the parent links run in no circle, the chain of a code that the
/// table holds is not cut off: its last record has no parent in the table.
/// Where, besides, every parent named is held, the last record names none:
/// it is a root.
pub proof fn lemma_ancestry_reaches_root(t: Seq<Subdivision>, code: Seq<char>)
    requires
        acyclic(t),
        position(t, code) is Some,
    ensures
        ancestry(t, code).len() > 0,
        parent_position(t, ancestry(t, code).last()) is None,
        parents_resolve(t) ==> t[ancestry(t, code).last()].parent is None,
{
    let from = position(t, code);
    lemma_climb_short(t, from, t.len() + 1);
    lemma_climb_fits(t, from, t.len());
    lemma_climb_ends(t, from, t.len() + 1);
    lemma_climb_in_range(t, from, t.len());
}

/// The ancestor chain of `code`, from the record that carries it up to its
/// root: each record is followed by the one it names as its parent. The
/// chain is empty where the table does not hold `code`, and it ends early
/// where a record names a parent that the table does not hold. On a table
/// whose parent links run in a circle the chain is cut off once it is as long
/// as the table.
pub fn all_parents<'a>(table: &'a Table, code: &str) -> (chain: Vec<&'a Iso31662>)
    ensures
        chain@.len() == ancestry(table@, code@).len(),
        forall|k: int|
            0 <= k < chain@.len() ==> (#[trigger] chain@[k])@ == table@[ancestry(table@, code@)[k]],
        chain@.len() <= table@.len(),
        position(table@, code@) is None ==> chain@.len() == 0,
        position(table@, code@) is Some ==> chain@.len() > 0 && chain@[0]@.code == code@,
        forall|k: int|
            0 <= k && k + 1 < chain@.len() ==> (#[trigger] chain@[k])@.parent == Some(
                chain@[k + 1]@.code,
            ),
        0 < chain@.len() && (chain@.len() < table@.len() || acyclic(table@)) ==> parent_position(
            table@,
            ancestry(table@, code@).last(),
        ) is None,
        acyclic(table@) && parents_resolve(table@) && chain@.len() > 0 ==> chain@.last()@.parent
            is None,
{
    let ghost t = table@;
    let mut result: Vec<&'a Iso31662> = Vec::new();
    let mut next: Option<&str> = Some(code);
    let ghost mut walked: Seq<int> = Seq::empty();
    while next.is_some() && result.len() < table.len()
        invariant
            t == table@,
            walked.len() == result@.len() <= t.len(),
            forall|k: int| 0 <= k < result@.len() ==> (#[trigger] result@[k])@ == t[walked[k]],
            ancestry(t, code@) == walked + climb(
                t,
                target(t, next),
                (t.len() - walked.len()) as nat,
            ),
        decreases t.len() - result@.len(), (if next is Some { 1int } else { 0int }),
    {
        match find(table, next.unwrap()) {
            Some(value) => {
                proof {
                    let i = target(t, next).unwrap();
                    let rest = climb(t, parent_position(t, i), (t.len() - walked.len() - 1) as nat);
                    assert(walked + (seq![i] + rest) =~= walked.push(i) + rest);
                    walked = walked.push(i);
                }
                result.push(value);
                next = value.parent;
            },
            None => {
                next = None;
            },
        }
    }
    proof {
        assert(ancestry(t, code@) =~= walked);
        if position(t, code@) is Some {
            lemma_ancestry_of_present(t, code@);
            if acyclic(t) {
                lemma_ancestry_reaches_root(t, code@);
            }
        }
    }
    result
}

} // verus!
