//! Sorting the list, the largest project first.

use crate::app::largest_first;
use crate::app::of_size;
use crate::app::sorted_by_size;
use crate::app::total_of;
use crate::project::Project;
use crate::project::ProjectView;
use vstd::prelude::*;
use vstd::seq_lib::to_multiset_insert;

verus! {

proof fn lemma_filter_add<A>(a: Seq<A>, b: Seq<A>, pred: spec_fn(A) -> bool)
    ensures
        (a + b).filter(pred) == a.filter(pred) + b.filter(pred),
    decreases b.len(),
{
    reveal(Seq::filter);
    if b.len() == 0 {
        assert(a + b =~= a);
        assert(a.filter(pred) + b.filter(pred) =~= a.filter(pred));
    } else {
        lemma_filter_add(a, b.drop_last(), pred);
        assert((a + b).drop_last() =~= a + b.drop_last());
        if pred(b.last()) {
            assert(a.filter(pred) + b.filter(pred) =~= (a.filter(pred)
                + b.drop_last().filter(pred)).push(b.last()));
        }
    }
}

proof fn lemma_filter_none<A>(s: Seq<A>, pred: spec_fn(A) -> bool)
    requires
        forall|i: int| 0 <= i < s.len() ==> !pred(#[trigger] s[i]),
    ensures
        s.filter(pred) == Seq::<A>::empty(),
    decreases s.len(),
{
    reveal(Seq::filter);
    if s.len() > 0 {
        assert(!pred(s[s.len() - 1]));
        lemma_filter_none(s.drop_last(), pred);
    }
}

proof fn lemma_filter_one<A>(x: A, pred: spec_fn(A) -> bool)
    ensures
        seq![x].filter(pred) == if pred(x) {
            seq![x]
        } else {
            Seq::<A>::empty()
        },
{
    reveal_with_fuel(Seq::filter, 2);
    assert(seq![x].drop_last() =~= Seq::<A>::empty());
    if pred(x) {
        assert(seq![x].filter(pred) =~= seq![x]);
    }
}

/// Putting a project behind those that are at least as large keeps the order within each size.
proof fn lemma_insert<P>(s: Seq<ProjectView<P>>, k: int, x: ProjectView<P>)
    requires
        largest_first(s),
        0 <= k <= s.len(),
        forall|i: int| 0 <= i < k ==> (#[trigger] s[i]).size >= x.size,
        forall|i: int| k <= i < s.len() ==> (#[trigger] s[i]).size < x.size,
    ensures
        largest_first(s.insert(k, x)),
        s.insert(k, x).to_multiset() == s.push(x).to_multiset(),
        forall|size: u64| #[trigger] of_size(s.insert(k, x), size) == of_size(s.push(x), size),
{
    let t = s.insert(k, x);
    assert forall|i: int, j: int| 0 <= i <= j < t.len() implies (#[trigger] t[i]).size >= (
    #[trigger] t[j]).size by {
        let a = if i < k {
            i
        } else {
            i - 1
        };
        let b = if j < k {
            j
        } else {
            j - 1
        };
        if i != k {
            assert(t[i] == s[a]);
        }
        if j != k {
            assert(t[j] == s[b]);
        }
    }
    to_multiset_insert(s, k, x);
    to_multiset_insert(s, s.len() as int, x);
    assert(s.insert(s.len() as int, x) =~= s.push(x));
    let front = s.take(k);
    let back = s.skip(k);
    assert(t =~= front + seq![x] + back);
    assert(s.push(x) =~= front + back + seq![x]);
    assert forall|size: u64| #[trigger] of_size(t, size) == of_size(s.push(x), size) by {
        let pred = |p: ProjectView<P>| p.size == size;
        lemma_filter_add(front + seq![x], back, pred);
        lemma_filter_add(front, seq![x], pred);
        lemma_filter_add(front + back, seq![x], pred);
        lemma_filter_add(front, back, pred);
        lemma_filter_one(x, pred);
        if size == x.size {
            assert forall|i: int| 0 <= i < back.len() implies !pred(#[trigger] back[i]) by {
                assert(back[i] == s[k + i]);
            }
            lemma_filter_none(back, pred);
        }
        assert(of_size(t, size) =~= of_size(s.push(x), size));
    }
}

proof fn lemma_total_of_multiset<P>(a: Seq<ProjectView<P>>, b: Seq<ProjectView<P>>)
    requires
        a.to_multiset() == b.to_multiset(),
    ensures
        total_of(a) == total_of(b),
    decreases a.len(),
{
    broadcast use vstd::seq_lib::group_to_multiset_ensures;

    assert(a.len() == a.to_multiset().len());
    assert(b.len() == b.to_multiset().len());
    if a.len() > 0 {
        let x = a.last();
        assert(a.contains(x));
        assert(b.to_multiset().count(x) > 0);
        let i = choose|i: int| 0 <= i < b.len() && b[i] == x;
        assert(a.remove(a.len() - 1) =~= a.drop_last());
        assert(a.drop_last().to_multiset() =~= a.to_multiset().remove(x));
        assert(b.remove(i).to_multiset() =~= b.to_multiset().remove(x));
        lemma_total_of_multiset(a.drop_last(), b.remove(i));
        lemma_total_remove(b, i);
    }
}

proof fn lemma_total_remove<P>(s: Seq<ProjectView<P>>, i: int)
    requires
        0 <= i < s.len(),
    ensures
        total_of(s) == total_of(s.remove(i)) + s[i].size,
    decreases s.len(),
{
    if i == s.len() - 1 {
        assert(s.remove(i) =~= s.drop_last());
    } else {
        lemma_total_remove(s.drop_last(), i);
        assert(s.remove(i).drop_last() =~= s.drop_last().remove(i));
    }
}

/// Sorting changes nothing about what is listed, only the order.
pub proof fn sorting_keeps_the_total<P>(before: Seq<ProjectView<P>>, after: Seq<ProjectView<P>>)
    requires
        sorted_by_size(before, after),
    ensures
        after.len() == before.len(),
        total_of(after) == total_of(before),
{
    broadcast use vstd::seq_lib::group_to_multiset_ensures;

    assert(before.len() == before.to_multiset().len());
    assert(after.len() == after.to_multiset().len());
    lemma_total_of_multiset(after, before);
}

/// Sorts projects, the largest first; those of one size keep their order.
pub fn sort_by_size<P>(projects: Vec<Project<P>>) -> (r: Vec<Project<P>>)
    ensures
        sorted_by_size(projects.deep_view(), r.deep_view()),
{
    let ghost all = projects.deep_view();
    let ghost given = projects@;
    let mut r: Vec<Project<P>> = Vec::new();
    assert(r.deep_view() =~= all.take(0));
    for project in it: projects
        invariant
            it.seq() == given,
            all == given.map_values(|p: Project<P>| p@),
            sorted_by_size(all.take(it.index() as int), r.deep_view()),
    {
        let ghost n = it.index() as int;
        let ghost before = r.deep_view();
        let ghost x = project@;
        assert(all[n] == x);
        let mut k: usize = r.len();
        while k > 0 && r[k - 1].size < project.size
            invariant
                k <= r@.len(),
                before == r.deep_view(),
                x == project@,
                forall|i: int| k <= i < before.len() ==> (#[trigger] before[i]).size < x.size,
            decreases k,
        {
            assert(before[k - 1] == r@[k - 1]@);
            k -= 1;
        }
        proof {
            if k > 0 {
                assert(before[k - 1] == r@[k - 1]@);
                assert(forall|i: int|
                    0 <= i < k ==> (#[trigger] before[i]).size >= before[k - 1].size);
            }
            lemma_insert(before, k as int, x);
            assert(all.take(n + 1) =~= all.take(n).push(x));
            assert(all.take(n + 1).to_multiset() == all.take(n).to_multiset().insert(x)) by {
                broadcast use vstd::seq_lib::group_to_multiset_ensures;

            }
            assert(before.push(x).to_multiset() == before.to_multiset().insert(x)) by {
                broadcast use vstd::seq_lib::group_to_multiset_ensures;

            }
            assert forall|size: u64| #[trigger] of_size(before.push(x), size) == of_size(
                all.take(n + 1),
                size,
            ) by {
                reveal(Seq::filter);
                assert(of_size(before, size) == of_size(all.take(n), size));
                assert(before.push(x).drop_last() =~= before);
                assert(all.take(n + 1).drop_last() =~= all.take(n));
            }
        }
        r.insert(k, project);
        proof {
            assert(r.deep_view() =~= before.insert(k as int, x));
            assert forall|size: u64| #[trigger] of_size(r.deep_view(), size) == of_size(
                all.take(n + 1),
                size,
            ) by {
                assert(of_size(before.push(x), size) == of_size(all.take(n + 1), size));
            }
        }
    }
    assert(all.take(all.len() as int) =~= all);
    r
}

proof fn lemma_sorted_front<P>(a: Seq<ProjectView<P>>, b: Seq<ProjectView<P>>)
    requires
        a.len() > 0,
        b.len() > 0,
        largest_first(a),
        largest_first(b),
        forall|size: u64| #[trigger] of_size(a, size) == of_size(b, size),
    ensures
        a.last() == b.last(),
        forall|size: u64|
            #[trigger] of_size(a.drop_last(), size) == of_size(b.drop_last(), size),
{
    reveal(Seq::filter);
    let s = a.last().size;
    let t = b.last().size;
    // Each last project is among the projects of its size, so the other list has one of that size.
    let of_s = |p: ProjectView<P>| p.size == s;
    let of_t = |p: ProjectView<P>| p.size == t;
    assert(of_size(a, s) == of_size(b, s));
    assert(of_size(a, t) == of_size(b, t));
    assert(of_size(a, s).last() == a.last());
    assert(of_size(b, t).last() == b.last());
    assert(of_size(b, s).contains(a.last())) by {
        assert(of_size(a, s)[of_size(a, s).len() - 1] == a.last());
    }
    assert(of_size(a, t).contains(b.last())) by {
        assert(of_size(b, t)[of_size(b, t).len() - 1] == b.last());
    }
    b.lemma_filter_contains_rev(of_s, a.last());
    a.lemma_filter_contains_rev(of_t, b.last());
    let i = choose|i: int| 0 <= i < b.len() && b[i] == a.last();
    let j = choose|j: int| 0 <= j < a.len() && a[j] == b.last();
    assert(b[i].size >= b[b.len() - 1].size);
    assert(a[j].size >= a[a.len() - 1].size);
    assert(s == t);
    assert forall|size: u64|
        #[trigger] of_size(a.drop_last(), size) == of_size(b.drop_last(), size) by {
        assert(of_size(a, size) == of_size(b, size));
        if size == s {
            assert(of_size(a.drop_last(), size) =~= of_size(a, size).drop_last());
            assert(of_size(b.drop_last(), size) =~= of_size(b, size).drop_last());
        }
    }
}

proof fn lemma_sorted_once<P>(a: Seq<ProjectView<P>>, b: Seq<ProjectView<P>>)
    requires
        a.len() == b.len(),
        largest_first(a),
        largest_first(b),
        forall|size: u64| #[trigger] of_size(a, size) == of_size(b, size),
    ensures
        a == b,
    decreases a.len(),
{
    if a.len() > 0 {
        lemma_sorted_front(a, b);
        assert forall|i: int, j: int| 0 <= i <= j < a.len() - 1 implies (
        #[trigger] a.drop_last()[i]).size >= (#[trigger] a.drop_last()[j]).size by {
            assert(a[i].size >= a[j].size);
        }
        assert forall|i: int, j: int| 0 <= i <= j < b.len() - 1 implies (
        #[trigger] b.drop_last()[i]).size >= (#[trigger] b.drop_last()[j]).size by {
            assert(b[i].size >= b[j].size);
        }
        lemma_sorted_once(a.drop_last(), b.drop_last());
        assert(a =~= a.drop_last().push(a.last()));
        assert(b =~= b.drop_last().push(b.last()));
    }
    assert(a =~= b);
}

/// A list has just one sorted order, and one that is sorted already keeps it.
pub proof fn sorting_has_one_result<P>(
    before: Seq<ProjectView<P>>,
    after: Seq<ProjectView<P>>,
    other: Seq<ProjectView<P>>,
)
    requires
        sorted_by_size(before, after),
    ensures
        sorted_by_size(before, other) ==> other == after,
        (forall|i: int, j: int|
            0 <= i <= j < before.len() ==> (#[trigger] before[i]).size >= (
            #[trigger] before[j]).size) ==> after == before,
{
    sorting_keeps_the_total(before, after);
    if sorted_by_size(before, other) {
        sorting_keeps_the_total(before, other);
        assert forall|size: u64| #[trigger] of_size(after, size) == of_size(other, size) by {
            assert(of_size(other, size) == of_size(before, size));
        }
        lemma_sorted_once(after, other);
    }
    if largest_first(before) {
        lemma_sorted_once(after, before);
    }
}

/// Sorting puts the larger of two projects first, keeps every project, and adds none.
pub proof fn sorted_lists_have_the_largest_first<P>(
    before: Seq<ProjectView<P>>,
    after: Seq<ProjectView<P>>,
    i: int,
    j: int,
    p: ProjectView<P>,
)
    requires
        sorted_by_size(before, after),
        0 <= i <= j < after.len(),
    ensures
        after[i].size >= after[j].size,
        before.contains(p) <==> after.contains(p),
{
    broadcast use vstd::seq_lib::group_to_multiset_ensures;

    assert(before.to_multiset().count(p) == after.to_multiset().count(p));
    assert(before.contains(p) <==> before.to_multiset().count(p) > 0);
    assert(after.contains(p) <==> after.to_multiset().count(p) > 0);
}

} // verus!
