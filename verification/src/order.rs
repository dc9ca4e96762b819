//! Ordering targets by name.

use crate::target::{views, Target, TargetView};
use crate::text::chars_of;
use vstd::prelude::*;

verus! {

/// Whether `a` comes strictly before `b` in dictionary order, comparing
/// character by character by code point; a proper prefix comes before
/// the longer text.
pub open spec fn precedes(a: Seq<char>, b: Seq<char>) -> bool
    decreases a.len(),
{
    if b.len() == 0 {
        false
    } else if a.len() == 0 {
        true
    } else if a.first() != b.first() {
        (a.first() as u32) < (b.first() as u32)
    } else {
        precedes(a.drop_first(), b.drop_first())
    }
}

/// Different characters have different code points.
proof fn lemma_code_points(x: char, y: char)
    ensures
        x != y ==> x as u32 != y as u32,
{
    vstd::utf8::char_u32_cast(x, x as u32);
    vstd::utf8::char_u32_cast(y, y as u32);
}

/// No text comes before itself, and of two texts at most one comes
/// before the other.
pub proof fn lemma_precedes_asymmetric(a: Seq<char>, b: Seq<char>)
    ensures
        !(precedes(a, b) && precedes(b, a)),
        !precedes(a, a),
    decreases a.len(),
{
    if a.len() > 0 {
        lemma_precedes_asymmetric(a.drop_first(), a.drop_first());
        if b.len() > 0 {
            lemma_precedes_asymmetric(a.drop_first(), b.drop_first());
        }
    }
}

/// Two different texts are always ordered one way or the other.
pub proof fn lemma_precedes_total(a: Seq<char>, b: Seq<char>)
    ensures
        a != b ==> precedes(a, b) || precedes(b, a),
    decreases a.len(),
{
    if a.len() > 0 && b.len() > 0 {
        if a.first() == b.first() {
            lemma_precedes_total(a.drop_first(), b.drop_first());
            if a.drop_first() == b.drop_first() {
                assert(a =~= seq![a.first()] + a.drop_first());
                assert(b =~= seq![b.first()] + b.drop_first());
            }
        } else {
            lemma_code_points(a.first(), b.first());
        }
    } else if a.len() == 0 && b.len() == 0 {
        assert(a =~= b);
    }
}

/// Whatever comes before `c` either comes before `b` too, or `b` itself
/// comes before `c`.
pub proof fn lemma_precedes_between(a: Seq<char>, b: Seq<char>, c: Seq<char>)
    requires
        precedes(a, c),
    ensures
        precedes(a, b) || precedes(b, c),
    decreases a.len(),
{
    if a.len() > 0 && b.len() > 0 {
        if a.first() == b.first() && b.first() == c.first() {
            lemma_precedes_between(a.drop_first(), b.drop_first(), c.drop_first());
        } else {
            lemma_code_points(a.first(), b.first());
            lemma_code_points(b.first(), c.first());
            lemma_code_points(a.first(), c.first());
        }
    }
}

/// Dictionary order is transitive.
pub proof fn lemma_precedes_transitive(a: Seq<char>, b: Seq<char>, c: Seq<char>)
    requires
        precedes(a, b),
        precedes(b, c),
    ensures
        precedes(a, c),
    decreases a.len(),
{
    if a.len() > 0 && a.first() == b.first() && b.first() == c.first() {
        lemma_precedes_transitive(a.drop_first(), b.drop_first(), c.drop_first());
    }
}

/// Whether the names of `targets` never go down from one position to a
/// later one.
pub open spec fn ordered_by_name(targets: Seq<TargetView>) -> bool {
    forall|i: int, j: int|
        0 <= i < j < targets.len() ==> !precedes(
            (#[trigger] targets[j]).name,
            (#[trigger] targets[i]).name,
        )
}

/// Where a new target goes in a list ordered by name: behind every
/// target whose name does not come after its own.
pub open spec fn insert_position(sorted: Seq<TargetView>, target: TargetView) -> int
    decreases sorted.len(),
{
    if sorted.len() > 0 && precedes(target.name, sorted.last().name) {
        insert_position(sorted.drop_last(), target)
    } else {
        sorted.len() as int
    }
}

/// `targets` rearranged by name in ascending order; targets with equal
/// names keep the order in which they came.
pub open spec fn sorted_by_name(targets: Seq<TargetView>) -> Seq<TargetView>
    decreases targets.len(),
{
    if targets.len() == 0 {
        targets
    } else {
        let head = sorted_by_name(targets.drop_last());
        head.insert(insert_position(head, targets.last()), targets.last())
    }
}

/// The insert position lies within the list, everything from it on has a
/// name that comes after the new one, and the target just before it has
/// not.
pub proof fn lemma_insert_position(sorted: Seq<TargetView>, target: TargetView)
    ensures
        0 <= insert_position(sorted, target) <= sorted.len(),
        forall|j: int|
            insert_position(sorted, target) <= j < sorted.len() ==> precedes(
                target.name,
                (#[trigger] sorted[j]).name,
            ),
        insert_position(sorted, target) > 0 ==> !precedes(
            target.name,
            sorted[insert_position(sorted, target) - 1].name,
        ),
    decreases sorted.len(),
{
    if sorted.len() > 0 && precedes(target.name, sorted.last().name) {
        let head = sorted.drop_last();
        lemma_insert_position(head, target);
        assert forall|j: int| insert_position(sorted, target) <= j < sorted.len() implies precedes(
            target.name,
            (#[trigger] sorted[j]).name,
        ) by {
            if j < head.len() {
                assert(sorted[j] == head[j]);
            }
        }
        if insert_position(sorted, target) > 0 {
            assert(sorted[insert_position(sorted, target) - 1] == head[insert_position(
                head,
                target,
            ) - 1]);
        }
    }
}

/// Sorting yields a list ordered by name that holds exactly the targets
/// it was given, each as often as it was given.
pub proof fn lemma_sorted_by_name(targets: Seq<TargetView>)
    ensures
        ordered_by_name(sorted_by_name(targets)),
        sorted_by_name(targets).to_multiset() == targets.to_multiset(),
        sorted_by_name(targets).len() == targets.len(),
    decreases targets.len(),
{
    broadcast use vstd::seq_lib::group_to_multiset_ensures;

    if targets.len() > 0 {
        let head = sorted_by_name(targets.drop_last());
        let last = targets.last();
        let at = insert_position(head, last);
        let whole = head.insert(at, last);
        lemma_sorted_by_name(targets.drop_last());
        lemma_insert_position(head, last);
        assert forall|i: int, j: int| 0 <= i < j < whole.len() implies !precedes(
            (#[trigger] whole[j]).name,
            (#[trigger] whole[i]).name,
        ) by {
            if j == at {
                if i < at - 1 {
                    assert(!precedes(head[at - 1].name, head[i].name));
                    if precedes(last.name, head[i].name) {
                        lemma_precedes_between(last.name, head[at - 1].name, head[i].name);
                    }
                }
            } else if i == at {
                assert(precedes(last.name, head[j - 1].name));
                lemma_precedes_asymmetric(last.name, head[j - 1].name);
            } else {
                let hi = if i < at { i } else { i - 1 };
                let hj = if j < at { j } else { j - 1 };
                assert(!precedes(head[hj].name, head[hi].name));
            }
        }
        assert(targets =~= targets.drop_last().push(last));
        vstd::seq_lib::to_multiset_insert(head, at, last);
    } else {
        assert(targets.to_multiset() =~= sorted_by_name(targets).to_multiset());
    }
}

/// A list that is ordered by name stays as it is when it is sorted.
pub proof fn lemma_sorted_is_fixed(targets: Seq<TargetView>)
    requires
        ordered_by_name(targets),
    ensures
        sorted_by_name(targets) == targets,
    decreases targets.len(),
{
    if targets.len() > 0 {
        let head = targets.drop_last();
        let last = targets.last();
        assert forall|i: int, j: int| 0 <= i < j < head.len() implies !precedes(
            (#[trigger] head[j]).name,
            (#[trigger] head[i]).name,
        ) by {
            assert(head[i] == targets[i] && head[j] == targets[j]);
        }
        lemma_sorted_is_fixed(head);
        if head.len() > 0 {
            assert(head.last() == targets[head.len() - 1]);
            assert(!precedes(targets[targets.len() - 1].name, targets[head.len() - 1].name));
        }
        assert(head.insert(head.len() as int, last) =~= targets);
    }
}

/// Ordering a list by name keeps its targets: what stands in the ordered
/// list stands in the list it was made from, and the other way round.
pub proof fn lemma_sorted_same_targets(found: Seq<TargetView>)
    ensures
        forall|i: int|
            0 <= i < sorted_by_name(found).len() ==> found.contains(
                #[trigger] sorted_by_name(found)[i],
            ),
        forall|i: int|
            0 <= i < found.len() ==> sorted_by_name(found).contains(#[trigger] found[i]),
{
    let sorted = sorted_by_name(found);
    lemma_sorted_by_name(found);
    assert forall|i: int| 0 <= i < sorted.len() implies found.contains(#[trigger] sorted[i]) by {
        assert(sorted.contains(sorted[i]));
        vstd::seq_lib::to_multiset_contains(sorted, sorted[i]);
        vstd::seq_lib::to_multiset_contains(found, sorted[i]);
    }
    assert forall|i: int| 0 <= i < found.len() implies sorted.contains(#[trigger] found[i]) by {
        assert(found.contains(found[i]));
        vstd::seq_lib::to_multiset_contains(sorted, found[i]);
        vstd::seq_lib::to_multiset_contains(found, found[i]);
    }
}

/// Whether `a` comes strictly before `b` in dictionary order.
pub fn comes_before(a: &str, b: &str) -> (before: bool)
    ensures
        before == precedes(a@, b@),
{
    let x = chars_of(a);
    let y = chars_of(b);
    let mut i: usize = 0;
    proof {
        assert(x@.skip(0) =~= x@);
        assert(y@.skip(0) =~= y@);
    }
    while i < x.len() && i < y.len()
        invariant
            i <= x.len(),
            i <= y.len(),
            x@ == a@,
            y@ == b@,
            precedes(a@, b@) == precedes(x@.skip(i as int), y@.skip(i as int)),
        decreases x.len() - i,
    {
        let p: u32 = x[i] as u32;
        let q: u32 = y[i] as u32;
        proof {
            assert(x@.skip(i as int).first() == x@[i as int]);
            assert(y@.skip(i as int).first() == y@[i as int]);
            assert(x@.skip(i as int).drop_first() =~= x@.skip(i + 1));
            assert(y@.skip(i as int).drop_first() =~= y@.skip(i + 1));
        }
        if p != q {
            return p < q;
        }
        proof {
            vstd::utf8::char_u32_cast(x@[i as int], p);
            vstd::utf8::char_u32_cast(y@[i as int], q);
        }
        i += 1;
    }
    i < y.len()
}

/// Rearranges `targets` by name in ascending order; targets with equal
/// names keep the order in which they came.
pub fn sort_by_name(targets: &Vec<Target>) -> (sorted: Vec<Target>)
    ensures
        views(sorted@) == sorted_by_name(views(targets@)),
{
    let mut sorted: Vec<Target> = Vec::new();
    let mut i: usize = 0;
    proof {
        assert(views(targets@).take(0) =~= Seq::<TargetView>::empty());
        assert(views(sorted@) =~= Seq::<TargetView>::empty());
    }
    while i < targets.len()
        invariant
            i <= targets.len(),
            views(sorted@) == sorted_by_name(views(targets@).take(i as int)),
        decreases targets.len() - i,
    {
        let target = targets[i].clone();
        let ghost head = views(sorted@);
        let mut at: usize = sorted.len();
        assert(head.take(sorted.len() as int) =~= head);
        while at > 0 && comes_before(target.name.as_str(), sorted[at - 1].name.as_str())
            invariant
                at <= sorted.len(),
                head == views(sorted@),
                insert_position(head, target@) == insert_position(head.take(at as int), target@),
            decreases at,
        {
            proof {
                assert(head.take(at as int).last() == sorted@[at - 1]@);
                assert(head.take(at as int).drop_last() =~= head.take(at - 1));
            }
            at -= 1;
        }
        proof {
            assert(head.take(sorted.len() as int) =~= head);
            if at > 0 {
                assert(head.take(at as int).last() == sorted@[at - 1]@);
            }
            assert(views(targets@).take(i + 1).drop_last() =~= views(targets@).take(i as int));
            assert(views(targets@).take(i + 1).last() == target@);
        }
        let ghost before = sorted@;
        sorted.insert(at, target);
        assert(views(sorted@) =~= head.insert(at as int, target@));
        i += 1;
    }
    assert(views(targets@).take(targets.len() as int) =~= views(targets@));
    sorted
}

} // verus!
