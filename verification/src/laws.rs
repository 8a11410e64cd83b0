//! Laws of the tree model: what insertion, replacement and the traversals
//! guarantee on every tree.

use vstd::prelude::*;
use vstd::seq_lib::seq_to_set_distributes_over_add;
use vstd::seq_lib::lemma_no_dup_in_concat;
use crate::order::TotalOrder;
use crate::tree::SpecTree;

verus! {

/// A sequence that ascends strictly under the order of `T`.
pub open spec fn strictly_ascending<T: TotalOrder>(s: Seq<T>) -> bool {
    forall|i: int, j: int| 0 <= i < j < s.len() ==> s[i].lt(s[j])
}

/// `w` orders against every other value of `t` exactly as `v` does: the
/// condition under which `v` may be overwritten by `w` in place without
/// breaking the tree's invariant.
pub open spec fn orders_alike<T: TotalOrder>(t: SpecTree<T>, v: T, w: T) -> bool {
    forall|x: T|
        #[trigger] t.to_set().contains(x) && x != v ==> (x.lt(v) <==> x.lt(w)) && (v.lt(x)
            <==> w.lt(x))
}

/// Inserting a value adds exactly that value to the set a tree holds,
/// whether or not the tree is well formed.
pub proof fn lemma_insert_to_set<T: TotalOrder>(t: SpecTree<T>, v: T)
    ensures
        t.insert(v).to_set() == t.to_set().insert(v),
    decreases t,
{
    match t {
        SpecTree::Nil => {
            assert(t.insert(v).to_set() =~= t.to_set().insert(v));
        },
        SpecTree::Node { value, left, right } => {
            if v == value {
                assert(t.insert(v).to_set() =~= t.to_set().insert(v));
            } else if v.lt(value) {
                lemma_insert_to_set(*left, v);
                assert(t.insert(v).to_set() =~= t.to_set().insert(v));
            } else {
                lemma_insert_to_set(*right, v);
                assert(t.insert(v).to_set() =~= t.to_set().insert(v));
            }
        },
    }
}

/// Insertion preserves the ordering invariant.
pub proof fn lemma_insert_preserves_wf<T: TotalOrder>(t: SpecTree<T>, v: T)
    requires
        t.wf(),
    ensures
        t.insert(v).wf(),
    decreases t,
{
    match t {
        SpecTree::Nil => {
        },
        SpecTree::Node { value, left, right } => {
            if v == value {
            } else if v.lt(value) {
                lemma_insert_preserves_wf(*left, v);
                lemma_insert_to_set(*left, v);
            } else {
                T::lt_total(v, value);
                lemma_insert_preserves_wf(*right, v);
                lemma_insert_to_set(*right, v);
            }
        },
    }
}

/// A tree built by any sequence of insertions into a well-formed tree — in
/// particular into the empty tree — is well formed.
pub proof fn lemma_insert_all_preserves_wf<T: TotalOrder>(t: SpecTree<T>, vs: Seq<T>)
    requires
        t.wf(),
    ensures
        t.insert_all(vs).wf(),
    decreases vs.len(),
{
    if vs.len() == 0 {
    } else {
        lemma_insert_preserves_wf(t, vs[0]);
        lemma_insert_all_preserves_wf(t.insert(vs[0]), vs.drop_first());
    }
}

/// A tree built by inserting a sequence of values holds exactly those
/// values together with what it held before: every value inserted is
/// present, and no value never inserted appears.
pub proof fn lemma_insert_all_to_set<T: TotalOrder>(t: SpecTree<T>, vs: Seq<T>)
    ensures
        t.insert_all(vs).to_set() == t.to_set().union(vs.to_set()),
    decreases vs.len(),
{
    if vs.len() == 0 {
        assert(t.insert_all(vs).to_set() =~= t.to_set().union(vs.to_set()));
    } else {
        lemma_insert_to_set(t, vs[0]);
        lemma_insert_all_to_set(t.insert(vs[0]), vs.drop_first());
        assert(vs.contains(vs[0]));
        assert forall|x: T| #[trigger] vs.drop_first().contains(x) implies vs.contains(x) by {
            let i = choose|i: int|
                0 <= i < vs.drop_first().len() && vs.drop_first()[i] == x;
            assert(vs[i + 1] == x);
        }
        assert forall|x: T| #[trigger] vs.contains(x) implies x == vs[0] || vs.drop_first().contains(
            x,
        ) by {
            let i = choose|i: int| 0 <= i < vs.len() && vs[i] == x;
            if i > 0 {
                assert(vs.drop_first()[i - 1] == x);
            }
        }
        assert(t.insert_all(vs).to_set() =~= t.to_set().union(vs.to_set()));
    }
}

/// Inserting a value a well-formed tree already holds leaves the tree
/// exactly as it was: duplicates are suppressed, and no query or traversal
/// can tell the insertion happened.
pub proof fn lemma_insert_duplicate<T: TotalOrder>(t: SpecTree<T>, v: T)
    requires
        t.wf(),
        t.contains(v),
    ensures
        t.insert(v) == t,
    decreases t,
{
    match t {
        SpecTree::Nil => {
        },
        SpecTree::Node { value, left, right } => {
            if v == value {
            } else if v.lt(value) {
                if right.to_set().contains(v) {
                    T::lt_asymmetric(v, value);
                }
                lemma_insert_duplicate(*left, v);
            } else {
                T::lt_total(v, value);
                if left.to_set().contains(v) {
                    T::lt_asymmetric(value, v);
                }
                lemma_insert_duplicate(*right, v);
            }
        },
    }
}

/// Insertion grows the tree by one node when the descent bottoms out and by
/// none when it meets the value, on any tree.
pub proof fn lemma_insert_count<T: TotalOrder>(t: SpecTree<T>, v: T)
    ensures
        t.has(v) ==> t.insert(v).count() == t.count(),
        !t.has(v) ==> t.insert(v).count() == t.count() + 1,
    decreases t,
{
    match t {
        SpecTree::Nil => {
        },
        SpecTree::Node { value, left, right } => {
            if v == value {
            } else if v.lt(value) {
                lemma_insert_count(*left, v);
            } else {
                lemma_insert_count(*right, v);
            }
        },
    }
}

/// On a well-formed tree the comparison-guided descent finds exactly the
/// values the tree holds: search is membership.
pub proof fn lemma_has_iff_contains<T: TotalOrder>(t: SpecTree<T>, v: T)
    requires
        t.wf(),
    ensures
        t.has(v) <==> t.contains(v),
    decreases t,
{
    match t {
        SpecTree::Nil => {
        },
        SpecTree::Node { value, left, right } => {
            if v == value {
            } else if v.lt(value) {
                lemma_has_iff_contains(*left, v);
                if right.to_set().contains(v) {
                    // the right subtree holds only values above `value`
                    T::lt_asymmetric(v, value);
                }
            } else {
                T::lt_total(v, value);
                lemma_has_iff_contains(*right, v);
                if left.to_set().contains(v) {
                    T::lt_asymmetric(value, v);
                }
            }
        },
    }
}

/// Replacing a value a well-formed tree holds exchanges exactly that value
/// in the set the tree holds, whatever is written in its place.
pub proof fn lemma_replace_to_set<T: TotalOrder>(t: SpecTree<T>, v: T, w: T)
    requires
        t.wf(),
        t.has(v),
    ensures
        t.replace(v, w).to_set() == t.to_set().remove(v).insert(w),
    decreases t,
{
    match t {
        SpecTree::Nil => {
        },
        SpecTree::Node { value, left, right } => {
            if v == value {
                assert forall|x: T| #[trigger] left.to_set().contains(x) implies x != v by {
                    T::lt_asymmetric(x, value);
                }
                assert forall|x: T| #[trigger] right.to_set().contains(x) implies x != v by {
                    T::lt_asymmetric(value, x);
                }
                assert(t.replace(v, w).to_set() == left.to_set().union(right.to_set()).insert(w));
                assert(t.replace(v, w).to_set() =~= t.to_set().remove(v).insert(w));
            } else if v.lt(value) {
                if right.to_set().contains(v) {
                    T::lt_asymmetric(v, value);
                }
                lemma_replace_to_set(*left, v, w);
                assert(t.replace(v, w).to_set() =~= t.to_set().remove(v).insert(w));
            } else {
                T::lt_total(v, value);
                if left.to_set().contains(v) {
                    T::lt_asymmetric(value, v);
                }
                lemma_replace_to_set(*right, v, w);
                assert(t.replace(v, w).to_set() =~= t.to_set().remove(v).insert(w));
            }
        },
    }
}

/// Replacing a value by one that orders like it against everything else in
/// the tree preserves the ordering invariant. This is the caller's safe use
/// of mutable retrieval; a replacement outside this condition may break the
/// invariant.
pub proof fn lemma_replace_preserves_wf<T: TotalOrder>(t: SpecTree<T>, v: T, w: T)
    requires
        t.wf(),
        t.has(v),
        orders_alike(t, v, w),
    ensures
        t.replace(v, w).wf(),
    decreases t,
{
    match t {
        SpecTree::Nil => {
        },
        SpecTree::Node { value, left, right } => {
            if v == value {
                assert forall|x: T| #[trigger] left.to_set().contains(x) implies x.lt(w) by {
                    T::lt_asymmetric(x, value);
                    assert(t.to_set().contains(x));
                }
                assert forall|x: T| #[trigger] right.to_set().contains(x) implies w.lt(x) by {
                    T::lt_asymmetric(value, x);
                    assert(t.to_set().contains(x));
                }
            } else if v.lt(value) {
                if right.to_set().contains(v) {
                    T::lt_asymmetric(v, value);
                }
                assert forall|x: T| #[trigger] left.to_set().contains(x) && x != v implies (x.lt(v)
                    <==> x.lt(w)) && (v.lt(x) <==> w.lt(x)) by {
                    assert(t.to_set().contains(x));
                }
                lemma_replace_preserves_wf(*left, v, w);
                lemma_replace_to_set(*left, v, w);
                // the new value sits below `value` just as the old one did
                T::lt_asymmetric(v, value);
                assert(t.to_set().contains(value));
                assert(w.lt(value));
            } else {
                T::lt_total(v, value);
                if left.to_set().contains(v) {
                    T::lt_asymmetric(value, v);
                }
                assert forall|x: T| #[trigger] right.to_set().contains(x) && x != v implies (x.lt(
                    v,
                ) <==> x.lt(w)) && (v.lt(x) <==> w.lt(x)) by {
                    assert(t.to_set().contains(x));
                }
                lemma_replace_preserves_wf(*right, v, w);
                lemma_replace_to_set(*right, v, w);
                T::lt_asymmetric(value, v);
                assert(t.to_set().contains(value));
                assert(value.lt(w));
            }
        },
    }
}

proof fn lemma_singleton_to_set<T>(v: T)
    ensures
        seq![v].to_set() == Set::empty().insert(v),
{
    assert(seq![v][0] == v);
    assert(seq![v].contains(v));
    assert(seq![v].to_set() =~= Set::empty().insert(v));
}

/// Each of the three traversal sequences is as long as the tree has nodes
/// and holds exactly the set of values the tree holds, on any tree.
pub proof fn lemma_traversal_sets<T: TotalOrder>(t: SpecTree<T>)
    ensures
        t.pre_order().to_set() == t.to_set(),
        t.in_order().to_set() == t.to_set(),
        t.post_order().to_set() == t.to_set(),
        t.pre_order().len() == t.count(),
        t.in_order().len() == t.count(),
        t.post_order().len() == t.count(),
    decreases t,
{
    match t {
        SpecTree::Nil => {
            assert(t.pre_order().to_set() =~= t.to_set());
            assert(t.in_order().to_set() =~= t.to_set());
            assert(t.post_order().to_set() =~= t.to_set());
        },
        SpecTree::Node { value, left, right } => {
            lemma_traversal_sets(*left);
            lemma_traversal_sets(*right);
            lemma_singleton_to_set(value);
            seq_to_set_distributes_over_add(seq![value], left.pre_order());
            seq_to_set_distributes_over_add(seq![value] + left.pre_order(), right.pre_order());
            assert(t.pre_order().to_set() =~= t.to_set());
            seq_to_set_distributes_over_add(left.in_order(), seq![value]);
            seq_to_set_distributes_over_add(left.in_order() + seq![value], right.in_order());
            assert(t.in_order().to_set() =~= t.to_set());
            seq_to_set_distributes_over_add(left.post_order(), right.post_order());
            seq_to_set_distributes_over_add(left.post_order() + right.post_order(), seq![value]);
            assert(t.post_order().to_set() =~= t.to_set());
        },
    }
}

/// On a well-formed tree no traversal repeats a value: together with
/// `lemma_traversal_sets`, each traversal yields every value exactly once.
pub proof fn lemma_traversals_no_duplicates<T: TotalOrder>(t: SpecTree<T>)
    requires
        t.wf(),
    ensures
        t.pre_order().no_duplicates(),
        t.in_order().no_duplicates(),
        t.post_order().no_duplicates(),
    decreases t,
{
    match t {
        SpecTree::Nil => {
        },
        SpecTree::Node { value, left, right } => {
            lemma_traversals_no_duplicates(*left);
            lemma_traversals_no_duplicates(*right);
            lemma_traversal_sets(*left);
            lemma_traversal_sets(*right);

            // any value to the left differs from `value` and from any value
            // to the right
            assert forall|x: T| #[trigger] left.to_set().contains(x) implies x != value by {
                T::lt_asymmetric(x, value);
            }
            assert forall|x: T| #[trigger] right.to_set().contains(x) implies x != value by {
                T::lt_asymmetric(value, x);
            }
            assert forall|x: T, y: T|
                left.to_set().contains(x) && right.to_set().contains(y) implies x != y by {
                T::lt_transitive(x, value, y);
                T::lt_asymmetric(x, y);
            }

            let one = seq![value];
            assert(one.no_duplicates());

            let lp = left.pre_order();
            let rp = right.pre_order();
            assert forall|i: int, j: int|
                0 <= i < one.len() && 0 <= j < lp.len() implies one[i] != lp[j] by {
                assert(lp.contains(lp[j]));
                assert(left.to_set().contains(lp[j]));
            }
            lemma_no_dup_in_concat(one, lp);
            assert forall|i: int, j: int|
                0 <= i < (one + lp).len() && 0 <= j < rp.len() implies (one + lp)[i] != rp[j] by {
                assert(rp.contains(rp[j]));
                assert(right.to_set().contains(rp[j]));
                if i > 0 {
                    assert(lp.contains(lp[i - 1]));
                    assert(left.to_set().contains(lp[i - 1]));
                }
            }
            lemma_no_dup_in_concat(one + lp, rp);

            let li = left.in_order();
            let ri = right.in_order();
            assert forall|i: int, j: int|
                0 <= i < li.len() && 0 <= j < one.len() implies li[i] != one[j] by {
                assert(li.contains(li[i]));
                assert(left.to_set().contains(li[i]));
            }
            lemma_no_dup_in_concat(li, one);
            assert forall|i: int, j: int|
                0 <= i < (li + one).len() && 0 <= j < ri.len() implies (li + one)[i] != ri[j] by {
                assert(ri.contains(ri[j]));
                assert(right.to_set().contains(ri[j]));
                if i < li.len() {
                    assert(li.contains(li[i]));
                    assert(left.to_set().contains(li[i]));
                }
            }
            lemma_no_dup_in_concat(li + one, ri);

            let lq = left.post_order();
            let rq = right.post_order();
            assert forall|i: int, j: int|
                0 <= i < lq.len() && 0 <= j < rq.len() implies lq[i] != rq[j] by {
                assert(lq.contains(lq[i]));
                assert(left.to_set().contains(lq[i]));
                assert(rq.contains(rq[j]));
                assert(right.to_set().contains(rq[j]));
            }
            lemma_no_dup_in_concat(lq, rq);
            assert forall|i: int, j: int|
                0 <= i < (lq + rq).len() && 0 <= j < one.len() implies (lq + rq)[i] != one[j] by {
                if i < lq.len() {
                    assert(lq.contains(lq[i]));
                    assert(left.to_set().contains(lq[i]));
                } else {
                    assert(rq.contains(rq[i - lq.len()]));
                    assert(right.to_set().contains(rq[i - lq.len()]));
                }
            }
            lemma_no_dup_in_concat(lq + rq, one);
        },
    }
}

/// On a well-formed tree the in-order traversal ascends strictly: the
/// sequence is sorted under the order of `T`, without repeats.
pub proof fn lemma_in_order_sorted<T: TotalOrder>(t: SpecTree<T>)
    requires
        t.wf(),
    ensures
        strictly_ascending(t.in_order()),
    decreases t,
{
    match t {
        SpecTree::Nil => {
        },
        SpecTree::Node { value, left, right } => {
            lemma_in_order_sorted(*left);
            lemma_in_order_sorted(*right);
            lemma_traversal_sets(*left);
            lemma_traversal_sets(*right);
            let l = left.in_order();
            let r = right.in_order();
            let s = t.in_order();
            let ll = l.len() as int;
            assert forall|i: int, j: int| 0 <= i < j < s.len() implies s[i].lt(s[j]) by {
                if j < ll {
                    assert(s[i] == l[i] && s[j] == l[j]);
                } else if i > ll {
                    assert(s[i] == r[i - ll - 1] && s[j] == r[j - ll - 1]);
                } else if i < ll && j == ll {
                    assert(l.contains(l[i]));
                    assert(left.to_set().contains(l[i]));
                    assert(s[i].lt(value));
                } else if i < ll && j > ll {
                    assert(l.contains(l[i]));
                    assert(left.to_set().contains(l[i]));
                    assert(r.contains(r[j - ll - 1]));
                    assert(right.to_set().contains(r[j - ll - 1]));
                    assert(s[i].lt(value) && value.lt(s[j]));
                    T::lt_transitive(s[i], value, s[j]);
                } else {
                    assert(i == ll && j > ll);
                    assert(r.contains(r[j - ll - 1]));
                    assert(right.to_set().contains(r[j - ll - 1]));
                    assert(value.lt(s[j]));
                }
            }
        },
    }
}

} // verus!
