//! How the pages of a page tree of any depth change when objects change.

use vstd::prelude::*;
use crate::document::{distinct, is_page_leaf, kids_subtrees, node_kids, stored_dictionary, subtree};
use crate::model::{ObjectId, ObjectMap};
use crate::names::{lemma_name_bytes, name};

verus! {

/// The first index of `p` in `s`, or the length of `s` where it is absent.
pub open spec fn index_in(s: Seq<ObjectId>, p: ObjectId) -> int
    decreases s.len(),
{
    if s.len() == 0 {
        0
    } else if s[0] == p {
        0
    } else {
        1 + index_in(s.drop_first(), p)
    }
}

/// `new` put into `s` just before `p`.
pub open spec fn splice_before(s: Seq<ObjectId>, p: ObjectId, new: Seq<ObjectId>) -> Seq<ObjectId> {
    s.take(index_in(s, p)) + new + s.skip(index_in(s, p))
}

/// The object is a page in both maps, or in neither, and is the same node,
/// with the same kids, in both, or in neither.
pub open spec fn same_shape(o1: ObjectMap, o2: ObjectMap, k: ObjectId) -> bool {
    is_page_leaf(o1, k) == is_page_leaf(o2, k) && node_kids(o1, k) == node_kids(o2, k)
}

pub proof fn lemma_index_in(s: Seq<ObjectId>, p: ObjectId)
    ensures
        0 <= index_in(s, p) <= s.len(),
        s.contains(p) ==> index_in(s, p) < s.len() && s[index_in(s, p)] == p,
        forall|j: int| 0 <= j < index_in(s, p) ==> s[j] != p,
    decreases s.len(),
{
    if s.len() > 0 && s[0] != p {
        lemma_index_in(s.drop_first(), p);
        if s.contains(p) {
            let j = choose|j: int| 0 <= j < s.len() && s[j] == p;
            assert(s.drop_first()[j - 1] == p);
        }
        assert forall|j: int| 0 <= j < index_in(s, p) implies s[j] != p by {
            if j > 0 {
                assert(s[j] == s.drop_first()[j - 1]);
            }
        }
    }
}

/// The first index of `p` is `i` where `s[i]` is `p` and no earlier element is.
pub proof fn lemma_index_at(s: Seq<ObjectId>, p: ObjectId, i: int)
    requires
        0 <= i <= s.len(),
        i < s.len() ==> s[i] == p,
        forall|j: int| 0 <= j < i ==> s[j] != p,
    ensures
        index_in(s, p) == i,
    decreases s.len(),
{
    if s.len() > 0 && i > 0 {
        assert forall|j: int| 0 <= j < i - 1 implies s.drop_first()[j] != p by {
            assert(s.drop_first()[j] == s[j + 1]);
        }
        lemma_index_at(s.drop_first(), p, i - 1);
    }
}

/// Splicing before `p` in a concatenation splices in the part that holds `p`.
pub proof fn lemma_splice_concat(a: Seq<ObjectId>, b: Seq<ObjectId>, p: ObjectId, new: Seq<ObjectId>)
    requires
        b.contains(p),
        !a.contains(p),
    ensures
        splice_before(a + b, p, new) == a + splice_before(b, p, new),
{
    lemma_index_in(b, p);
    let i = index_in(b, p);
    assert forall|j: int| 0 <= j < a.len() + i implies (a + b)[j] != p by {
        if j < a.len() {
            assert((a + b)[j] == a[j]);
            if a[j] == p {
                assert(a.contains(p));
            }
        } else {
            assert((a + b)[j] == b[j - a.len()]);
        }
    }
    lemma_index_at(a + b, p, a.len() + i);
    assert(splice_before(a + b, p, new) =~= a + splice_before(b, p, new));
}

pub proof fn lemma_splice_concat_first(a: Seq<ObjectId>, b: Seq<ObjectId>, p: ObjectId, new: Seq<ObjectId>)
    requires
        a.contains(p),
    ensures
        splice_before(a + b, p, new) == splice_before(a, p, new) + b,
{
    lemma_index_in(a, p);
    let i = index_in(a, p);
    assert forall|j: int| 0 <= j < i implies (a + b)[j] != p by {
        assert((a + b)[j] == a[j]);
    }
    lemma_index_at(a + b, p, i);
    assert(splice_before(a + b, p, new) =~= splice_before(a, p, new) + b);
}

/// No object occurs twice in a concatenation: none in either part, and none
/// in both.
pub proof fn lemma_distinct_concat(a: Seq<ObjectId>, b: Seq<ObjectId>)
    requires
        distinct(a + b),
    ensures
        distinct(a),
        distinct(b),
        forall|k: ObjectId| a.contains(k) ==> !b.contains(k),
{
    assert forall|i: int, j: int| 0 <= i < j < a.len() implies a[i] != a[j] by {
        assert((a + b)[i] == a[i] && (a + b)[j] == a[j]);
    }
    assert forall|i: int, j: int| 0 <= i < j < b.len() implies b[i] != b[j] by {
        assert((a + b)[a.len() + i] == b[i] && (a + b)[a.len() + j] == b[j]);
    }
    assert forall|k: ObjectId| a.contains(k) implies !b.contains(k) by {
        if b.contains(k) {
            let i = choose|i: int| 0 <= i < a.len() && a[i] == k;
            let j = choose|j: int| 0 <= j < b.len() && b[j] == k;
            assert((a + b)[i] == k && (a + b)[a.len() + j] == k);
        }
    }
}

/// The kids of a sequence of kids laid one after the other.
pub open spec fn joined(
    x: Option<(Seq<ObjectId>, Seq<ObjectId>)>,
    y: Option<(Seq<ObjectId>, Seq<ObjectId>)>,
) -> Option<(Seq<ObjectId>, Seq<ObjectId>)> {
    match (x, y) {
        (Some((m1, p1)), Some((m2, p2))) => Some((m1 + m2, p1 + p2)),
        _ => None,
    }
}

pub proof fn lemma_kids_concat(o: ObjectMap, a: Seq<ObjectId>, b: Seq<ObjectId>, depth: nat)
    ensures
        kids_subtrees(o, a + b, depth) == joined(kids_subtrees(o, a, depth), kids_subtrees(o, b, depth)),
    decreases b.len(),
{
    if b.len() == 0 {
        assert(a + b =~= a);
        if let Some((m, p)) = kids_subtrees(o, a, depth) {
            assert(m + Seq::<ObjectId>::empty() =~= m);
            assert(p + Seq::<ObjectId>::empty() =~= p);
        }
    } else {
        lemma_kids_concat(o, a, b.drop_last(), depth);
        assert((a + b).drop_last() =~= a + b.drop_last());
        assert((a + b).last() == b.last());
        let k = b.last();
        if let (Some((m1, p1)), Some((m2, p2))) = (kids_subtrees(o, a, depth), kids_subtrees(o, b.drop_last(), depth)) {
            assert((m1 + m2).push(k) =~= m1 + m2.push(k));
            assert((p1 + p2).push(k) =~= p1 + p2.push(k));
            if depth > 0 {
                if let Some((mb, pb)) = subtree(o, k, (depth - 1) as nat) {
                    assert((m1 + m2).push(k) + mb =~= m1 + (m2.push(k) + mb));
                    assert((p1 + p2) + pb =~= p1 + (p2 + pb));
                }
            }
        }
    }
}

/// Pages that are new leaves make a sequence of kids of their own.
pub proof fn lemma_kids_leaves(o: ObjectMap, new: Seq<ObjectId>, depth: nat)
    requires
        forall|j: int| 0 <= j < new.len() ==> is_page_leaf(o, #[trigger] new[j]),
    ensures
        kids_subtrees(o, new, depth) == Some((new, new)),
    decreases new.len(),
{
    if new.len() > 0 {
        lemma_kids_leaves(o, new.drop_last(), depth);
        assert(is_page_leaf(o, new[new.len() - 1]));
        assert(new.drop_last().push(new.last()) =~= new);
    }
}

/// The pages below a node are among the objects below it, and so are its kids.
pub proof fn lemma_subtree_pages(o: ObjectMap, x: ObjectId, depth: nat)
    requires
        subtree(o, x, depth) is Some,
    ensures
        forall|k: ObjectId| subtree(o, x, depth)->Some_0.1.contains(k) ==> subtree(o, x, depth)->Some_0.0.contains(k),
        forall|k: ObjectId| node_kids(o, x)->Some_0.contains(k) ==> subtree(o, x, depth)->Some_0.0.contains(k),
    decreases depth, 1nat, 0nat,
{
    lemma_kids_pages(o, node_kids(o, x)->Some_0, depth);
}

pub proof fn lemma_kids_pages(o: ObjectMap, kids: Seq<ObjectId>, depth: nat)
    requires
        kids_subtrees(o, kids, depth) is Some,
    ensures
        forall|k: ObjectId| kids_subtrees(o, kids, depth)->Some_0.1.contains(k) ==> kids_subtrees(o, kids, depth)->Some_0.0.contains(k),
        forall|k: ObjectId| kids.contains(k) ==> kids_subtrees(o, kids, depth)->Some_0.0.contains(k),
    decreases depth, 0nat, kids.len(),
{
    if kids.len() > 0 {
        lemma_kids_pages(o, kids.drop_last(), depth);
        let (m, p) = kids_subtrees(o, kids.drop_last(), depth)->Some_0;
        let k = kids.last();
        let (m2, p2) = kids_subtrees(o, kids, depth)->Some_0;
        if !is_page_leaf(o, k) {
            lemma_subtree_pages(o, k, (depth - 1) as nat);
            let (mb, pb) = subtree(o, k, (depth - 1) as nat)->Some_0;
            assert forall|q: ObjectId| p2.contains(q) implies m2.contains(q) by {
                if p.contains(q) {
                    let i = choose|i: int| 0 <= i < m.len() && m[i] == q;
                    assert(m2[i] == q);
                } else {
                    let i = choose|i: int| 0 <= i < p2.len() && p2[i] == q;
                    assert(p2 == p + pb);
                    assert(pb[i - p.len()] == q);
                    assert(pb.contains(q));
                    assert(mb.contains(q));
                    assert(m2 == m.push(k) + mb);
                    let j = choose|j: int| 0 <= j < mb.len() && mb[j] == q;
                    assert(m2[m.len() + 1 + j] == q);
                }
            }
        } else {
            assert forall|q: ObjectId| p2.contains(q) implies m2.contains(q) by {
                if p.contains(q) {
                    let i = choose|i: int| 0 <= i < m.len() && m[i] == q;
                    assert(m2[i] == q);
                } else {
                    assert(m2[m.len() as int] == k);
                }
            }
        }
        assert forall|q: ObjectId| kids.contains(q) implies m2.contains(q) by {
            let i = choose|i: int| 0 <= i < kids.len() && kids[i] == q;
            if i < kids.len() - 1 {
                assert(kids.drop_last().contains(q)) by { assert(kids.drop_last()[i] == q); }
                let j = choose|j: int| 0 <= j < m.len() && m[j] == q;
                assert(m2[j] == q);
            } else {
                assert(m2[m.len() as int] == k);
            }
        }
    }
}

/// The tree below a node reads the same where every object in it has the
/// same shape.
pub proof fn lemma_subtree_frame(o1: ObjectMap, o2: ObjectMap, x: ObjectId, depth: nat)
    requires
        subtree(o1, x, depth) is Some,
        same_shape(o1, o2, x),
        forall|k: ObjectId| subtree(o1, x, depth)->Some_0.0.contains(k) ==> same_shape(o1, o2, k),
    ensures
        subtree(o2, x, depth) == subtree(o1, x, depth),
    decreases depth, 1nat, 0nat,
{
    lemma_kids_frame(o1, o2, node_kids(o1, x)->Some_0, depth);
}

pub proof fn lemma_kids_frame(o1: ObjectMap, o2: ObjectMap, kids: Seq<ObjectId>, depth: nat)
    requires
        kids_subtrees(o1, kids, depth) is Some,
        forall|k: ObjectId| kids_subtrees(o1, kids, depth)->Some_0.0.contains(k) ==> same_shape(o1, o2, k),
    ensures
        kids_subtrees(o2, kids, depth) == kids_subtrees(o1, kids, depth),
    decreases depth, 0nat, kids.len(),
{
    if kids.len() > 0 {
        let (m, p) = kids_subtrees(o1, kids.drop_last(), depth)->Some_0;
        let k = kids.last();
        let (m2, p2) = kids_subtrees(o1, kids, depth)->Some_0;
        assert forall|q: ObjectId| m.contains(q) implies same_shape(o1, o2, q) by {
            let i = choose|i: int| 0 <= i < m.len() && m[i] == q;
            assert(m2[i] == q);
        }
        lemma_kids_frame(o1, o2, kids.drop_last(), depth);
        assert(m2[m.len() as int] == k);
        assert(same_shape(o1, o2, k));
        if !is_page_leaf(o1, k) {
            let (mb, pb) = subtree(o1, k, (depth - 1) as nat)->Some_0;
            assert forall|q: ObjectId| mb.contains(q) implies same_shape(o1, o2, q) by {
                let i = choose|i: int| 0 <= i < mb.len() && mb[i] == q;
                assert(m2[m.len() + 1 + i] == q);
            }
            lemma_subtree_frame(o1, o2, k, (depth - 1) as nat);
        }
    }
}

/// What a concatenation and a push contain.
pub proof fn lemma_contains(a: Seq<ObjectId>, b: Seq<ObjectId>, k: ObjectId)
    ensures
        forall|q: ObjectId| #[trigger] (a + b).contains(q) <==> a.contains(q) || b.contains(q),
        forall|q: ObjectId| #[trigger] a.push(k).contains(q) <==> a.contains(q) || q == k,
{
    assert forall|q: ObjectId| #[trigger] (a + b).contains(q) <==> a.contains(q) || b.contains(q) by {
        if (a + b).contains(q) {
            let i = choose|i: int| 0 <= i < (a + b).len() && (a + b)[i] == q;
            if i < a.len() {
                assert(a[i] == q);
            } else {
                assert(b[i - a.len()] == q);
            }
        }
        if a.contains(q) {
            let i = choose|i: int| 0 <= i < a.len() && a[i] == q;
            assert((a + b)[i] == q);
        }
        if b.contains(q) {
            let i = choose|i: int| 0 <= i < b.len() && b[i] == q;
            assert((a + b)[a.len() + i] == q);
        }
    }
    assert forall|q: ObjectId| #[trigger] a.push(k).contains(q) <==> a.contains(q) || q == k by {
        if a.push(k).contains(q) {
            let i = choose|i: int| 0 <= i < a.push(k).len() && a.push(k)[i] == q;
            if i < a.len() {
                assert(a[i] == q);
            }
        }
        if a.contains(q) {
            let i = choose|i: int| 0 <= i < a.len() && a[i] == q;
            assert(a.push(k)[i] == q);
        }
        if q == k {
            assert(a.push(k)[a.len() as int] == q);
        }
    }
}

/// A page that is an object below the node is one of its pages.
pub proof fn lemma_subtree_leaf(o: ObjectMap, x: ObjectId, depth: nat, q: ObjectId)
    requires
        subtree(o, x, depth) matches Some((m, ps)) && m.contains(q),
        is_page_leaf(o, q),
    ensures
        subtree(o, x, depth)->Some_0.1.contains(q),
    decreases depth, 1nat, 0nat,
{
    lemma_kids_leaf(o, node_kids(o, x)->Some_0, depth, q);
}

pub proof fn lemma_kids_leaf(o: ObjectMap, kids: Seq<ObjectId>, depth: nat, q: ObjectId)
    requires
        kids_subtrees(o, kids, depth) matches Some((m, ps)) && m.contains(q),
        is_page_leaf(o, q),
    ensures
        kids_subtrees(o, kids, depth)->Some_0.1.contains(q),
    decreases depth, 0nat, kids.len(),
{
    let (m, ps) = kids_subtrees(o, kids, depth)->Some_0;
    if kids.len() > 0 {
        let (m1, p1) = kids_subtrees(o, kids.drop_last(), depth)->Some_0;
        let k = kids.last();
        lemma_contains(m1, m1, k);
        lemma_contains(p1, p1, k);
        if is_page_leaf(o, k) {
            if m1.contains(q) {
                lemma_kids_leaf(o, kids.drop_last(), depth, q);
            }
        } else {
            let (mb, pb) = subtree(o, k, (depth - 1) as nat)->Some_0;
            lemma_contains(m1.push(k), mb, k);
            lemma_contains(p1, pb, k);
            if m1.contains(q) {
                lemma_kids_leaf(o, kids.drop_last(), depth, q);
            } else if q != k {
                lemma_subtree_leaf(o, k, (depth - 1) as nat, q);
            }
        }
    }
}

/// The kids of a node below a node are below it too, and those that are
/// pages are among its pages.
pub proof fn lemma_subtree_closed(o: ObjectMap, x: ObjectId, depth: nat, y: ObjectId, q: ObjectId)
    requires
        subtree(o, x, depth) matches Some((m, ps)) && m.contains(y),
        node_kids(o, y) matches Some(ky) && ky.contains(q),
    ensures
        subtree(o, x, depth)->Some_0.0.contains(q),
    decreases depth, 1nat, 0nat,
{
    lemma_kids_closed(o, node_kids(o, x)->Some_0, depth, y, q);
}

pub proof fn lemma_kids_closed(o: ObjectMap, kids: Seq<ObjectId>, depth: nat, y: ObjectId, q: ObjectId)
    requires
        kids_subtrees(o, kids, depth) matches Some((m, ps)) && m.contains(y),
        node_kids(o, y) matches Some(ky) && ky.contains(q),
    ensures
        kids_subtrees(o, kids, depth)->Some_0.0.contains(q),
    decreases depth, 0nat, kids.len(),
{
    if kids.len() > 0 {
        let (m1, p1) = kids_subtrees(o, kids.drop_last(), depth)->Some_0;
        let k = kids.last();
        lemma_contains(m1, m1, k);
        lemma_name_bytes();
        if is_page_leaf(o, k) {
            if m1.contains(y) {
                lemma_kids_closed(o, kids.drop_last(), depth, y, q);
            }
        } else {
            let (mb, pb) = subtree(o, k, (depth - 1) as nat)->Some_0;
            lemma_contains(m1.push(k), mb, k);
            if m1.contains(y) {
                lemma_kids_closed(o, kids.drop_last(), depth, y, q);
            } else if y == k {
                lemma_subtree_pages(o, k, (depth - 1) as nat);
            } else {
                lemma_subtree_closed(o, k, (depth - 1) as nat, y, q);
            }
        }
    }
}

/// The node `n` has the page `p` among its kids in `o1`; in `o2` its kids
/// are the same with `new` just before `p`, and the new pages are pages.
pub open spec fn spliced_node(o1: ObjectMap, o2: ObjectMap, n: ObjectId, p: ObjectId, new: Seq<ObjectId>) -> bool {
    &&& node_kids(o1, n) matches Some(kn) && kn.contains(p)
    &&& is_page_leaf(o1, p)
    &&& node_kids(o2, n) == Some(splice_before(node_kids(o1, n)->Some_0, p, new))
    &&& forall|j: int| 0 <= j < new.len() ==> is_page_leaf(o2, #[trigger] new[j])
}

/// The tree below a node that holds `n` (or is `n`) gains the new pages just
/// before `p`, among its objects and among its pages.
pub proof fn lemma_subtree_splice(o1: ObjectMap, o2: ObjectMap, x: ObjectId, depth: nat, n: ObjectId, p: ObjectId, new: Seq<ObjectId>)
    requires
        subtree(o1, x, depth) matches Some((m, ps)) && (x == n || m.contains(n)) && distinct(m) && !m.contains(x),
        spliced_node(o1, o2, n, p, new),
        forall|k: ObjectId| (k == x || subtree(o1, x, depth)->Some_0.0.contains(k)) && k != n ==> same_shape(o1, o2, k),
        forall|j: int| 0 <= j < new.len() ==> !subtree(o1, x, depth)->Some_0.0.contains(#[trigger] new[j]),
    ensures
        subtree(o2, x, depth) == Some((
            splice_before(subtree(o1, x, depth)->Some_0.0, p, new),
            splice_before(subtree(o1, x, depth)->Some_0.1, p, new),
        )),
    decreases depth, 1nat, 0nat,
{
    let (m, ps) = subtree(o1, x, depth)->Some_0;
    if x == n {
        let kn = node_kids(o1, n)->Some_0;
        lemma_index_in(kn, p);
        let i = index_in(kn, p);
        let a = kn.take(i);
        let b = kn.skip(i);
        assert(kn =~= a + b);
        lemma_kids_concat(o1, a, b, depth);
        let (ma, pa) = kids_subtrees(o1, a, depth)->Some_0;
        let (mb, pb) = kids_subtrees(o1, b, depth)->Some_0;
        assert(m == ma + mb && ps == pa + pb);
        lemma_contains(ma, mb, p);
        lemma_contains(pa, pb, p);
        assert forall|k: ObjectId| ma.contains(k) implies same_shape(o1, o2, k) by {
            assert(m.contains(k));
        }
        assert forall|k: ObjectId| mb.contains(k) implies same_shape(o1, o2, k) by {
            assert(m.contains(k));
        }
        lemma_kids_frame(o1, o2, a, depth);
        lemma_kids_frame(o1, o2, b, depth);
        // `b` begins with the page `p`.
        let rest = b.drop_first();
        assert(b =~= seq![p] + rest);
        lemma_kids_concat(o1, seq![p], rest, depth);
        assert forall|j: int| 0 <= j < seq![p].len() implies is_page_leaf(o1, #[trigger] seq![p][j]) by {
            assert(seq![p][j] == p);
        }
        lemma_kids_leaves(o1, seq![p], depth);
        let (mr, pr) = kids_subtrees(o1, rest, depth)->Some_0;
        assert(mb == seq![p] + mr && pb == seq![p] + pr);
        assert(index_in(mb, p) == 0);
        assert(index_in(pb, p) == 0);
        lemma_distinct_concat(ma, mb);
        assert(mb.contains(p)) by { assert(mb[0] == p); }
        assert(pb.contains(p)) by { assert(pb[0] == p); }
        lemma_kids_pages(o1, a, depth);
        assert(!pa.contains(p));
        lemma_splice_concat(ma, mb, p, new);
        lemma_splice_concat(pa, pb, p, new);
        assert(splice_before(mb, p, new) =~= new + mb);
        assert(splice_before(pb, p, new) =~= new + pb);
        // The kids in `o2`.
        let k2 = splice_before(kn, p, new);
        assert(k2 =~= (a + new) + b);
        lemma_kids_concat(o2, a + new, b, depth);
        lemma_kids_concat(o2, a, new, depth);
        lemma_kids_leaves(o2, new, depth);
        assert(same_shape(o1, o2, x) || x == n);
        assert(subtree(o2, x, depth) == kids_subtrees(o2, k2, depth));
        assert((ma + new) + mb =~= ma + (new + mb));
        assert((pa + new) + pb =~= pa + (new + pb));
    } else {
        assert(same_shape(o1, o2, x));
        lemma_kids_splice(o1, o2, node_kids(o1, x)->Some_0, depth, n, p, new);
    }
}

pub proof fn lemma_kids_splice(o1: ObjectMap, o2: ObjectMap, kids: Seq<ObjectId>, depth: nat, n: ObjectId, p: ObjectId, new: Seq<ObjectId>)
    requires
        kids_subtrees(o1, kids, depth) matches Some((m, ps)) && m.contains(n) && distinct(m),
        spliced_node(o1, o2, n, p, new),
        forall|k: ObjectId| kids_subtrees(o1, kids, depth)->Some_0.0.contains(k) && k != n ==> same_shape(o1, o2, k),
        forall|j: int| 0 <= j < new.len() ==> !kids_subtrees(o1, kids, depth)->Some_0.0.contains(#[trigger] new[j]),
    ensures
        kids_subtrees(o2, kids, depth) == Some((
            splice_before(kids_subtrees(o1, kids, depth)->Some_0.0, p, new),
            splice_before(kids_subtrees(o1, kids, depth)->Some_0.1, p, new),
        )),
    decreases depth, 0nat, kids.len(),
{
    lemma_name_bytes();
    let (m, ps) = kids_subtrees(o1, kids, depth)->Some_0;
    let front = kids.drop_last();
    let k = kids.last();
    let (m1, p1) = kids_subtrees(o1, front, depth)->Some_0;
    lemma_contains(m1, m1, k);
    lemma_contains(p1, p1, k);
    // What follows `front`: `k` and what is below it.
    let (mb, pb) = if is_page_leaf(o1, k) {
        (Seq::<ObjectId>::empty(), seq![k])
    } else {
        subtree(o1, k, (depth - 1) as nat)->Some_0
    };
    let tail = seq![k] + mb;
    assert(m =~= m1 + tail);
    assert(ps =~= p1 + pb);
    lemma_distinct_concat(m1, tail);
    lemma_contains(m1, tail, k);
    lemma_contains(seq![k], mb, k);
    lemma_contains(p1, pb, k);
    assert(tail.contains(k)) by { assert(tail[0] == k); }
    if m1.contains(n) {
        lemma_kids_splice(o1, o2, front, depth, n, p, new);
        lemma_kids_closed(o1, front, depth, n, p);
        lemma_kids_leaf(o1, front, depth, p);
        // `k` and what is below it are untouched.
        assert(!tail.contains(n));
        assert(k != n);
        assert(same_shape(o1, o2, k));
        if !is_page_leaf(o1, k) {
            assert forall|q: ObjectId| mb.contains(q) implies same_shape(o1, o2, q) by {
                assert(tail.contains(q));
                assert(m.contains(q));
            }
            lemma_subtree_frame(o1, o2, k, (depth - 1) as nat);
        }
        lemma_splice_concat_first(m1, tail, p, new);
        lemma_splice_concat_first(p1, pb, p, new);
        let (n1, q1) = (splice_before(m1, p, new), splice_before(p1, p, new));
        if is_page_leaf(o1, k) {
            assert(n1.push(k) =~= n1 + tail);
            assert(q1.push(k) =~= q1 + pb);
        } else {
            assert(n1.push(k) + mb =~= n1 + tail);
        }
    } else {
        // `n` is `k` or below it.
        assert(tail.contains(n));
        assert forall|q: ObjectId| m1.contains(q) implies same_shape(o1, o2, q) by {
            assert(m.contains(q));
        }
        lemma_kids_frame(o1, o2, front, depth);
        assert(!is_page_leaf(o1, k)) by {
            if is_page_leaf(o1, k) {
                assert(mb =~= Seq::<ObjectId>::empty());
                assert(n == k);
            }
        }
        let d1 = (depth - 1) as nat;
        lemma_distinct_concat(seq![k], mb);
        lemma_subtree_pages(o1, k, d1);
        if n != k {
            lemma_subtree_closed(o1, k, d1, n, p);
        }
        assert(mb.contains(p));
        lemma_subtree_leaf(o1, k, d1, p);
        assert(pb.contains(p));
        assert(tail.contains(p));
        assert(!m1.contains(p));
        lemma_kids_pages(o1, front, depth);
        assert(!p1.contains(p));
        assert(p != k);
        assert forall|q: ObjectId| (q == k || mb.contains(q)) && q != n implies same_shape(o1, o2, q) by {
            assert(tail.contains(q));
            assert(m.contains(q));
        }
        assert forall|j: int| 0 <= j < new.len() implies !mb.contains(#[trigger] new[j]) by {
            if mb.contains(new[j]) {
                assert(tail.contains(new[j]));
                assert(m.contains(new[j]));
            }
        }
        assert(seq![k].contains(k)) by { assert(seq![k][0] == k); }
        assert(!mb.contains(k));
        lemma_subtree_splice(o1, o2, k, d1, n, p, new);
        lemma_splice_concat(m1, tail, p, new);
        lemma_splice_concat(p1, pb, p, new);
        assert(!seq![k].contains(p)) by {
            if seq![k].contains(p) {
                assert(seq![k][0] == p);
            }
        }
        lemma_splice_concat(seq![k], mb, p, new);
        assert(m1.push(k) + splice_before(mb, p, new) =~= m1 + (seq![k] + splice_before(mb, p, new)));
        if n == k {
            assert(same_shape(o1, o2, k) || k == n);
        } else {
            assert(same_shape(o1, o2, k));
        }
    }
}

/// Every object below a node is a page or a node, every page below it is a
/// page, and where no object occurs twice below it no page does.
pub proof fn lemma_subtree_facts(o: ObjectMap, x: ObjectId, depth: nat)
    requires
        subtree(o, x, depth) is Some,
    ensures
        forall|q: ObjectId| subtree(o, x, depth)->Some_0.0.contains(q) ==> is_page_leaf(o, q) || node_kids(o, q) is Some,
        forall|q: ObjectId| subtree(o, x, depth)->Some_0.1.contains(q) ==> is_page_leaf(o, q),
        distinct(subtree(o, x, depth)->Some_0.0) ==> distinct(subtree(o, x, depth)->Some_0.1),
    decreases depth, 1nat, 0nat,
{
    lemma_kids_facts(o, node_kids(o, x)->Some_0, depth);
}

pub proof fn lemma_kids_facts(o: ObjectMap, kids: Seq<ObjectId>, depth: nat)
    requires
        kids_subtrees(o, kids, depth) is Some,
    ensures
        forall|q: ObjectId| kids_subtrees(o, kids, depth)->Some_0.0.contains(q) ==> is_page_leaf(o, q) || node_kids(o, q) is Some,
        forall|q: ObjectId| kids_subtrees(o, kids, depth)->Some_0.1.contains(q) ==> is_page_leaf(o, q),
        distinct(kids_subtrees(o, kids, depth)->Some_0.0) ==> distinct(kids_subtrees(o, kids, depth)->Some_0.1),
    decreases depth, 0nat, kids.len(),
{
    if kids.len() > 0 {
        let (m, ps) = kids_subtrees(o, kids, depth)->Some_0;
        let front = kids.drop_last();
        let k = kids.last();
        lemma_kids_facts(o, front, depth);
        lemma_kids_pages(o, front, depth);
        let (m1, p1) = kids_subtrees(o, front, depth)->Some_0;
        let (mb, pb) = if is_page_leaf(o, k) {
            (Seq::<ObjectId>::empty(), seq![k])
        } else {
            subtree(o, k, (depth - 1) as nat)->Some_0
        };
        let tail = seq![k] + mb;
        assert(m =~= m1 + tail);
        assert(ps =~= p1 + pb);
        lemma_contains(m1, tail, k);
        lemma_contains(p1, pb, k);
        lemma_contains(seq![k], mb, k);
        assert(seq![k].contains(k)) by { assert(seq![k][0] == k); }
        if is_page_leaf(o, k) {
            assert forall|q: ObjectId| seq![k].contains(q) implies q == k by {
                let i = choose|i: int| 0 <= i < seq![k].len() && seq![k][i] == q;
            }
            assert forall|q: ObjectId| mb.contains(q) implies false by {
                let i = choose|i: int| 0 <= i < mb.len() && mb[i] == q;
            }
        } else {
            lemma_subtree_facts(o, k, (depth - 1) as nat);
            lemma_subtree_pages(o, k, (depth - 1) as nat);
            assert forall|q: ObjectId| seq![k].contains(q) implies q == k by {
                let i = choose|i: int| 0 <= i < seq![k].len() && seq![k][i] == q;
            }
        }
        if distinct(m) {
            lemma_distinct_concat(m1, tail);
            lemma_distinct_concat(seq![k], mb);
            assert(distinct(p1));
            assert(distinct(pb)) by {
                if is_page_leaf(o, k) {
                } else {
                    assert(distinct(mb));
                }
            }
            assert forall|i: int, j: int| 0 <= i < j < ps.len() implies ps[i] != ps[j] by {
                if j < p1.len() {
                    assert(ps[i] == p1[i] && ps[j] == p1[j]);
                } else if i >= p1.len() {
                    assert(ps[i] == pb[i - p1.len()] && ps[j] == pb[j - p1.len()]);
                } else {
                    assert(ps[i] == p1[i] && ps[j] == pb[j - p1.len()]);
                    assert(p1.contains(ps[i]));
                    assert(pb.contains(ps[j]));
                    assert(m1.contains(ps[i]));
                    if ps[i] == ps[j] {
                        if is_page_leaf(o, k) {
                            assert(tail.contains(ps[j]));
                        } else {
                            assert(mb.contains(ps[j]));
                            assert(tail.contains(ps[j]));
                        }
                    }
                }
            }
        }
    }
}

/// `p` and `q` trade places; every other object stays.
pub open spec fn swap_id(k: ObjectId, p: ObjectId, q: ObjectId) -> ObjectId {
    if k == p {
        q
    } else if k == q {
        p
    } else {
        k
    }
}

pub open spec fn swap_ids(s: Seq<ObjectId>, p: ObjectId, q: ObjectId) -> Seq<ObjectId> {
    Seq::new(s.len(), |i: int| swap_id(s[i], p, q))
}

/// In `o2` the pages `p` and `q` trade places among the kids of the nodes
/// of the tree; the other objects of the tree keep their shape.
pub open spec fn traded(o1: ObjectMap, o2: ObjectMap, k: ObjectId, p: ObjectId, q: ObjectId) -> bool {
    &&& is_page_leaf(o1, k) == is_page_leaf(o2, swap_id(k, p, q))
    &&& (node_kids(o1, k) matches Some(ks) ==> k != p && k != q && node_kids(o2, k) == Some(swap_ids(ks, p, q)))
    &&& (node_kids(o1, k) is None && !is_page_leaf(o1, k) ==> k != p && k != q && node_kids(o2, k) is None && !is_page_leaf(o2, k))
}

/// The tree below a node whose objects are traded reads with `p` and `q`
/// trading places.
pub proof fn lemma_subtree_traded(o1: ObjectMap, o2: ObjectMap, x: ObjectId, depth: nat, p: ObjectId, q: ObjectId)
    requires
        subtree(o1, x, depth) is Some,
        traded(o1, o2, x, p, q),
        forall|k: ObjectId| subtree(o1, x, depth)->Some_0.0.contains(k) ==> traded(o1, o2, k, p, q),
    ensures
        subtree(o2, x, depth) == Some((
            swap_ids(subtree(o1, x, depth)->Some_0.0, p, q),
            swap_ids(subtree(o1, x, depth)->Some_0.1, p, q),
        )),
    decreases depth, 1nat, 0nat,
{
    lemma_kids_traded(o1, o2, node_kids(o1, x)->Some_0, depth, p, q);
}

pub proof fn lemma_kids_traded(o1: ObjectMap, o2: ObjectMap, kids: Seq<ObjectId>, depth: nat, p: ObjectId, q: ObjectId)
    requires
        kids_subtrees(o1, kids, depth) is Some,
        forall|k: ObjectId| kids_subtrees(o1, kids, depth)->Some_0.0.contains(k) ==> traded(o1, o2, k, p, q),
    ensures
        kids_subtrees(o2, swap_ids(kids, p, q), depth) == Some((
            swap_ids(kids_subtrees(o1, kids, depth)->Some_0.0, p, q),
            swap_ids(kids_subtrees(o1, kids, depth)->Some_0.1, p, q),
        )),
    decreases depth, 0nat, kids.len(),
{
    lemma_name_bytes();
    if kids.len() == 0 {
        assert(swap_ids(kids, p, q) =~= Seq::<ObjectId>::empty());
        assert(swap_ids(Seq::<ObjectId>::empty(), p, q) =~= Seq::<ObjectId>::empty());
    } else {
        let front = kids.drop_last();
        let k = kids.last();
        let (m, ps) = kids_subtrees(o1, kids, depth)->Some_0;
        let (m1, p1) = kids_subtrees(o1, front, depth)->Some_0;
        lemma_contains(m1, m1, k);
        assert forall|j: ObjectId| m1.contains(j) implies traded(o1, o2, j, p, q) by {
            let i = choose|i: int| 0 <= i < m1.len() && m1[i] == j;
            assert(m[i] == j);
        }
        lemma_kids_traded(o1, o2, front, depth, p, q);
        let sk = swap_ids(kids, p, q);
        assert(sk.drop_last() =~= swap_ids(front, p, q));
        assert(sk.last() == swap_id(k, p, q));
        assert(m[m1.len() as int] == k);
        assert(traded(o1, o2, k, p, q));
        if is_page_leaf(o1, k) {
            assert(swap_ids(m1, p, q).push(swap_id(k, p, q)) =~= swap_ids(m, p, q));
            assert(swap_ids(p1, p, q).push(swap_id(k, p, q)) =~= swap_ids(ps, p, q));
        } else {
            let (mb, pb) = subtree(o1, k, (depth - 1) as nat)->Some_0;
            assert(node_kids(o1, k) is Some);
            assert(k != p && k != q);
            assert(swap_id(k, p, q) == k);
            assert(!is_page_leaf(o2, k));
            assert forall|j: ObjectId| mb.contains(j) implies traded(o1, o2, j, p, q) by {
                let i = choose|i: int| 0 <= i < mb.len() && mb[i] == j;
                assert(m[m1.len() + 1 + i] == j);
            }
            lemma_subtree_traded(o1, o2, k, (depth - 1) as nat, p, q);
            assert(swap_ids(m1, p, q).push(k) + swap_ids(mb, p, q) =~= swap_ids(m, p, q));
            assert(swap_ids(p1, p, q) + swap_ids(pb, p, q) =~= swap_ids(ps, p, q));
        }
    }
}

/// The integer `Count` of the dictionary stored under `id`.
pub open spec fn count_of(objects: ObjectMap, id: ObjectId) -> Option<i64> {
    match stored_dictionary(objects, id) {
        Some(d) => if d.contains_key(name("Count")) && d[name("Count")] is Integer {
            Some(d[name("Count")]->Integer_0)
        } else {
            None
        },
        None => None,
    }
}

/// Every node of the tree below and including `x` has a `Count` that is the
/// number of pages below it.
pub open spec fn counted(objects: ObjectMap, x: ObjectId, depth: nat) -> bool
    decreases depth, 1nat, 0nat,
{
    match node_kids(objects, x) {
        Some(kids) => kids_counted(objects, kids, depth) && (subtree(objects, x, depth) matches Some((_, ps))
            && count_of(objects, x) == Some(ps.len() as i64)),
        None => false,
    }
}

/// `counted` for each kid that is a node.
pub open spec fn kids_counted(objects: ObjectMap, kids: Seq<ObjectId>, depth: nat) -> bool
    decreases depth, 0nat, kids.len(),
{
    if kids.len() == 0 {
        true
    } else {
        kids_counted(objects, kids.drop_last(), depth) && (is_page_leaf(objects, kids.last())
            || (depth > 0 && counted(objects, kids.last(), (depth - 1) as nat)))
    }
}

/// Where `p` and `q` trade places and every node keeps its `Count`, every
/// `Count` stays right.
pub proof fn lemma_counted_traded(o1: ObjectMap, o2: ObjectMap, x: ObjectId, depth: nat, p: ObjectId, q: ObjectId)
    requires
        counted(o1, x, depth),
        subtree(o1, x, depth) is Some,
        traded(o1, o2, x, p, q),
        forall|k: ObjectId| subtree(o1, x, depth)->Some_0.0.contains(k) ==> traded(o1, o2, k, p, q),
        count_of(o2, x) == count_of(o1, x),
        forall|k: ObjectId| subtree(o1, x, depth)->Some_0.0.contains(k) && node_kids(o1, k) is Some
            ==> count_of(o2, k) == count_of(o1, k),
    ensures
        counted(o2, x, depth),
    decreases depth, 1nat, 0nat,
{
    lemma_subtree_traded(o1, o2, x, depth, p, q);
    lemma_kids_counted_traded(o1, o2, node_kids(o1, x)->Some_0, depth, p, q);
}

pub proof fn lemma_kids_counted_traded(o1: ObjectMap, o2: ObjectMap, kids: Seq<ObjectId>, depth: nat, p: ObjectId, q: ObjectId)
    requires
        kids_counted(o1, kids, depth),
        kids_subtrees(o1, kids, depth) is Some,
        forall|k: ObjectId| kids_subtrees(o1, kids, depth)->Some_0.0.contains(k) ==> traded(o1, o2, k, p, q),
        forall|k: ObjectId| kids_subtrees(o1, kids, depth)->Some_0.0.contains(k) && node_kids(o1, k) is Some
            ==> count_of(o2, k) == count_of(o1, k),
    ensures
        kids_counted(o2, swap_ids(kids, p, q), depth),
    decreases depth, 0nat, kids.len(),
{
    lemma_name_bytes();
    if kids.len() > 0 {
        let front = kids.drop_last();
        let k = kids.last();
        let (m, ps) = kids_subtrees(o1, kids, depth)->Some_0;
        let (m1, p1) = kids_subtrees(o1, front, depth)->Some_0;
        assert forall|j: ObjectId| m1.contains(j) implies m.contains(j) by {
            let i = choose|i: int| 0 <= i < m1.len() && m1[i] == j;
            assert(m[i] == j);
        }
        lemma_kids_counted_traded(o1, o2, front, depth, p, q);
        let sk = swap_ids(kids, p, q);
        assert(sk.drop_last() =~= swap_ids(front, p, q));
        assert(sk.last() == swap_id(k, p, q));
        assert(m[m1.len() as int] == k);
        assert(traded(o1, o2, k, p, q));
        if !is_page_leaf(o1, k) {
            let (mb, pb) = subtree(o1, k, (depth - 1) as nat)->Some_0;
            assert(node_kids(o1, k) is Some);
            assert(swap_id(k, p, q) == k);
            assert forall|j: ObjectId| mb.contains(j) implies m.contains(j) by {
                let i = choose|i: int| 0 <= i < mb.len() && mb[i] == j;
                assert(m[m1.len() + 1 + i] == j);
            }
            lemma_counted_traded(o1, o2, k, (depth - 1) as nat, p, q);
        }
    }
}

} // verus!
