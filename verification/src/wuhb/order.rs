//! Facts about the depth-first order of a folder tree: every node occurs in
//! it at most once.
use vstd::prelude::*;
use vstd::seq_lib::lemma_no_dup_in_concat;
use super::tree::{data_at, is_child_of, parents_first, preorder, preorder_children};

verus! {

/// Whether node `x` lies in the subtree of node `k`.
pub open spec fn descends(t: Seq<(usize, Option<usize>)>, x: int, k: int) -> bool
    decreases x,
{
    if x == k {
        true
    } else if x < 0 || x >= t.len() {
        false
    } else {
        match t[x].1 {
            Some(p) => p < x && descends(t, p as int, k),
            None => false,
        }
    }
}

/// Whether node `x` lies in the subtree of a child of `r` created at
/// position `k` or later.
pub open spec fn below_child_from(t: Seq<(usize, Option<usize>)>, x: int, r: int, k: int) -> bool {
    exists|c: int| k <= c < t.len() && #[trigger] is_child_of(t, c, r) && descends(t, x, c)
}

proof fn lemma_descends_above(t: Seq<(usize, Option<usize>)>, x: int, k: int)
    requires
        descends(t, x, k),
    ensures
        x >= k,
    decreases x,
{
    if x != k {
        let p = t[x].1->Some_0;
        lemma_descends_above(t, p as int, k);
    }
}

proof fn lemma_descends_parent(t: Seq<(usize, Option<usize>)>, x: int, k: int, r: int)
    requires
        descends(t, x, k),
        0 <= k < t.len(),
        t.len() <= usize::MAX,
        is_child_of(t, k, r),
        0 <= r < k,
    ensures
        descends(t, x, r),
    decreases x,
{
    if x == k {
        assert(descends(t, r, r));
        assert(t[k].1 == Some(r as usize));
    } else {
        let p = t[x].1->Some_0;
        lemma_descends_parent(t, p as int, k, r);
        lemma_descends_above(t, x, k);
    }
}

/// No node lies in the subtrees of two different children of one node.
proof fn lemma_subtrees_disjoint(t: Seq<(usize, Option<usize>)>, x: int, k: int, c: int, r: int)
    requires
        parents_first(t),
        t.len() <= usize::MAX,
        0 <= k < t.len(),
        0 <= c < t.len(),
        k != c,
        0 <= r < t.len(),
        is_child_of(t, k, r),
        is_child_of(t, c, r),
    ensures
        !(descends(t, x, k) && descends(t, x, c)),
    decreases x,
{
    if !descends(t, x, k) || !descends(t, x, c) {
    } else if x == k {
        assert(t[k].1 == Some(r as usize));
        assert(descends(t, r, c));
        lemma_descends_above(t, r, c);
        assert(t[c].1 matches Some(p) && p < c);
    } else if x == c {
        assert(t[c].1 == Some(r as usize));
        assert(descends(t, r, k));
        lemma_descends_above(t, r, k);
        assert(t[k].1 matches Some(p) && p < k);
    } else {
        let p = t[x].1->Some_0;
        lemma_subtrees_disjoint(t, p as int, k, c, r);
    }
}

proof fn lemma_preorder_descends(t: Seq<(usize, Option<usize>)>, r: int)
    requires
        0 <= r < t.len(),
        t.len() <= usize::MAX,
        parents_first(t),
    ensures
        forall|i: int| 0 <= i < preorder(t, r).len() ==> descends(t, #[trigger] preorder(t, r)[i], r),
    decreases t.len() - r, 0int,
{
    let c = if r + 1 <= t.len() {
        preorder_children(t, r, r + 1)
    } else {
        Seq::empty()
    };
    lemma_children_descend(t, r, r + 1);
    assert(preorder(t, r) == seq![r] + c);
    assert forall|i: int| 0 <= i < preorder(t, r).len() implies descends(t, #[trigger] preorder(t, r)[i], r) by {
        if i > 0 {
            let x = preorder(t, r)[i];
            assert(x == c[i - 1]);
            assert(below_child_from(t, x, r, r + 1));
            let k = choose|k: int| r + 1 <= k < t.len() && #[trigger] is_child_of(t, k, r) && descends(t, x, k);
            lemma_descends_parent(t, x, k, r);
        }
    }
}

proof fn lemma_children_descend(t: Seq<(usize, Option<usize>)>, r: int, k: int)
    requires
        0 <= r < t.len(),
        t.len() <= usize::MAX,
        r < k,
        parents_first(t),
    ensures
        forall|i: int|
            0 <= i < preorder_children(t, r, k).len() ==> below_child_from(
                t,
                #[trigger] preorder_children(t, r, k)[i],
                r,
                k,
            ),
    decreases t.len() - k, 1int,
{
    if k < t.len() {
        lemma_children_descend(t, r, k + 1);
        let a = if is_child_of(t, k, r) {
            preorder(t, k)
        } else {
            Seq::empty()
        };
        if is_child_of(t, k, r) {
            lemma_preorder_descends(t, k);
        }
        let b = preorder_children(t, r, k + 1);
        assert(preorder_children(t, r, k) == a + b);
        assert forall|i: int| 0 <= i < preorder_children(t, r, k).len() implies below_child_from(
            t,
            #[trigger] preorder_children(t, r, k)[i],
            r,
            k,
        ) by {
            let x = preorder_children(t, r, k)[i];
            if i < a.len() {
                assert(x == a[i]);
                assert(is_child_of(t, k, r) && descends(t, x, k));
            } else {
                assert(x == b[i - a.len()]);
                assert(below_child_from(t, x, r, k + 1));
                let c = choose|c: int| k + 1 <= c < t.len() && #[trigger] is_child_of(t, c, r) && descends(t, x, c);
                assert(is_child_of(t, c, r) && descends(t, x, c));
            }
        }
    }
}

/// The subtree of `r` in depth-first pre-order holds no node twice.
pub proof fn lemma_preorder_no_duplicates(t: Seq<(usize, Option<usize>)>, r: int)
    requires
        0 <= r < t.len(),
        t.len() <= usize::MAX,
        parents_first(t),
    ensures
        preorder(t, r).no_duplicates(),
    decreases t.len() - r, 0int,
{
    let c = if r + 1 <= t.len() {
        preorder_children(t, r, r + 1)
    } else {
        Seq::empty()
    };
    lemma_children_no_duplicates(t, r, r + 1);
    lemma_children_descend(t, r, r + 1);
    assert forall|i: int, j: int| 0 <= i < seq![r].len() && 0 <= j < c.len() implies seq![r][i] != c[j] by {
        assert(below_child_from(t, c[j], r, r + 1));
        let k = choose|k: int| r + 1 <= k < t.len() && #[trigger] is_child_of(t, k, r) && descends(t, c[j], k);
        lemma_descends_above(t, c[j], k);
    }
    lemma_no_dup_in_concat(seq![r], c);
    assert(preorder(t, r) == seq![r] + c);
}

proof fn lemma_children_no_duplicates(t: Seq<(usize, Option<usize>)>, r: int, k: int)
    requires
        0 <= r < t.len(),
        t.len() <= usize::MAX,
        r < k,
        parents_first(t),
    ensures
        preorder_children(t, r, k).no_duplicates(),
    decreases t.len() - k, 1int,
{
    if k < t.len() {
        lemma_children_no_duplicates(t, r, k + 1);
        lemma_children_descend(t, r, k + 1);
        let a = if is_child_of(t, k, r) {
            preorder(t, k)
        } else {
            Seq::empty()
        };
        if is_child_of(t, k, r) {
            lemma_preorder_no_duplicates(t, k);
            lemma_preorder_descends(t, k);
        }
        let b = preorder_children(t, r, k + 1);
        assert forall|i: int, j: int| 0 <= i < a.len() && 0 <= j < b.len() implies a[i] != b[j] by {
            assert(below_child_from(t, b[j], r, k + 1));
            let c = choose|c: int| k + 1 <= c < t.len() && #[trigger] is_child_of(t, c, r) && descends(t, b[j], c);
            if a[i] == b[j] {
                assert(descends(t, a[i], k));
                lemma_subtrees_disjoint(t, a[i], k, c, r);
            }
        }
        lemma_no_dup_in_concat(a, b);
        assert(preorder_children(t, r, k) == a + b);
    }
}

/// The depth-first order of a tree whose nodes hold their own positions
/// names no node twice.
pub proof fn lemma_tree_order_no_duplicates(t: Seq<(usize, Option<usize>)>)
    requires
        0 < t.len(),
        t.len() <= usize::MAX,
        parents_first(t),
        forall|k: int| 0 <= k < t.len() ==> #[trigger] t[k].0 == k,
    ensures
        data_at(t, preorder(t, 0)).no_duplicates(),
        forall|i: int| 0 <= i < data_at(t, preorder(t, 0)).len() ==> #[trigger] data_at(t, preorder(t, 0))[i] < t.len(),
{
    lemma_preorder_no_duplicates(t, 0);
    lemma_preorder_descends(t, 0);
    let p = preorder(t, 0);
    let d = data_at(t, p);
    assert forall|i: int, j: int| 0 <= i < d.len() && 0 <= j < d.len() && i != j implies d[i] != d[j] by {
        lemma_descends_above(t, p[i], 0);
        lemma_descends_above(t, p[j], 0);
        lemma_in_tree(t, p[i]);
        lemma_in_tree(t, p[j]);
        assert(d[i] == t[p[i]].0);
        assert(d[j] == t[p[j]].0);
    }
    assert forall|i: int| 0 <= i < d.len() implies #[trigger] d[i] < t.len() by {
        lemma_in_tree(t, p[i]);
        assert(d[i] == t[p[i]].0);
    }
}

proof fn lemma_in_tree(t: Seq<(usize, Option<usize>)>, x: int)
    requires
        descends(t, x, 0),
        0 < t.len(),
    ensures
        0 <= x < t.len(),
{
    lemma_descends_above(t, x, 0);
}

} // verus!
