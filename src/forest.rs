use vstd::prelude::*;

use crate::armature::{
    Bone, ROOT, above, is_ancestor, parent_before, insert_pos, lemma_subtree_end, new_parent, parent_at, relocated, reparented,
    subtree_end, unique_ids, well_formed, with_parent,
};

verus! {

/// No bone outside the block that the bone at `a` heads has its parent inside it.
pub proof fn lemma_block_closed<P>(s: Seq<Bone<P>>, a: int)
    requires
        well_formed(s),
        0 <= a < s.len(),
    ensures
        forall|q: int, x: int|
            a <= q < subtree_end(s, a) && !(a <= x < subtree_end(s, a)) ==> !#[trigger] parent_at(
                s,
                q,
                x,
            ),
{
    let e = subtree_end(s, a);
    lemma_subtree_end(s, a);
    assert forall|q: int, x: int|
        a <= q < e && !(a <= x < e) implies !#[trigger] parent_at(s, q, x) by {
        if parent_at(s, q, x) {
            assert(q < x);
            assert(e < s.len());
            if x == e {
                assert forall|q2: int| #[trigger] parent_at(s, q2, e) implies a <= q2 by {
                    assert(s[q2].id == s[q].id);
                }
                assert(above(s, a, e));
            } else {
                assert(above(s, q, e));
                assert forall|q2: int| #[trigger] parent_at(s, q2, e) implies a <= q2 by {
                    assert(q <= q2);
                }
                assert(above(s, a, e));
            }
        }
    }
}

/// Cutting out the block that a bone heads leaves a well-formed store.
pub proof fn lemma_cut_subtree<P>(s: Seq<Bone<P>>, a: int)
    requires
        well_formed(s),
        0 <= a < s.len(),
    ensures
        well_formed(s.subrange(0, a) + s.subrange(subtree_end(s, a), s.len() as int)),
{
    let e = subtree_end(s, a);
    lemma_subtree_end(s, a);
    lemma_block_closed(s, a);
    let k = e - a;
    let r = s.subrange(0, a) + s.subrange(e, s.len() as int);
    assert(r.len() == s.len() - k);
    assert forall|x: int| 0 <= x < r.len() implies #[trigger] r[x] == s[if x < a { x } else { x + k }] by {}
    assert(unique_ids(r)) by {
        assert forall|i: int, j: int|
            0 <= i < r.len() && 0 <= j < r.len() && i != j implies #[trigger] r[i].id != #[trigger] r[j].id by {
            assert(r[i] == s[if i < a { i } else { i + k }]);
            assert(r[j] == s[if j < a { j } else { j + k }]);
        }
        assert forall|i: int| 0 <= i < r.len() implies #[trigger] r[i].id >= 0 by {
            assert(r[i] == s[if i < a { i } else { i + k }]);
        }
    }
    assert forall|i: int|
        0 <= i < r.len() && #[trigger] r[i].parent_id != ROOT implies exists|j: int|
            0 <= j < i && #[trigger] parent_at(r, j, i) by {
        let gi = if i < a { i } else { i + k };
        assert(r[i] == s[gi]);
        assert(parent_before(s, gi));
        let y = choose|y: int| 0 <= y < gi && #[trigger] parent_at(s, y, gi);
        assert(!(a <= y < e));
        let yr = if y < a { y } else { y - k };
        assert(r[yr] == s[y]);
        assert(parent_at(r, yr, i));
    }
    assert forall|j: int, i: int| #[trigger] parent_at(r, j, i) implies j < i by {
        let gi = if i < a { i } else { i + k };
        let gj = if j < a { j } else { j + k };
        assert(r[i] == s[gi]);
        assert(r[j] == s[gj]);
        assert(parent_at(s, gj, gi));
    }
    assert forall|j: int, m: int, i: int|
        j < m < i && #[trigger] parent_at(r, j, i) implies #[trigger] above(r, j, m) by {
        let gi = if i < a { i } else { i + k };
        let gj = if j < a { j } else { j + k };
        let gm = if m < a { m } else { m + k };
        assert(r[i] == s[gi]);
        assert(r[j] == s[gj]);
        assert(r[m] == s[gm]);
        assert(parent_at(s, gj, gi));
        assert(above(s, gj, gm));
        assert forall|q: int| #[trigger] parent_at(r, q, m) implies j <= q by {
            let gq = if q < a { q } else { q + k };
            assert(r[q] == s[gq]);
            assert(parent_at(s, gq, gm));
        }
    }
}

/// The shape of a block that is about to be pasted into `r`: its ids are fresh
/// for `r`, every bone but the first has its parent earlier in the block, the
/// block is nested like a store, and no bone of `r` points into it.
pub open spec fn pasteable<P>(r: Seq<Bone<P>>, blk: Seq<Bone<P>>) -> bool {
    &&& blk.len() >= 1
    &&& unique_ids(blk)
    &&& forall|x: int, u: int|
        0 <= x < r.len() && 0 <= u < blk.len() ==> #[trigger] r[x].id != #[trigger] blk[u].id
    &&& forall|x: int, u: int|
        0 <= x < r.len() && 0 <= u < blk.len() ==> #[trigger] r[x].parent_id != #[trigger] blk[u].id
    &&& forall|x: int, u: int|
        0 <= x < r.len() && 1 <= u < blk.len() ==> #[trigger] r[x].id != #[trigger] blk[u].parent_id
    &&& forall|u: int| 1 <= u < blk.len() ==> #[trigger] parent_before(blk, u)
    &&& forall|j: int, i: int| #[trigger] parent_at(blk, j, i) ==> j < i
    &&& forall|j: int, m: int, i: int|
        j < m < i && #[trigger] parent_at(blk, j, i) ==> #[trigger] above(blk, j, m)
}

/// Position `at` of `r` may receive a block whose first bone has parent
/// `blk0_parent`: that parent is the bone at `pidx` (or a root marker, with
/// `pidx == -1`), every bone between it and `at` lies in its subtree, and no
/// link reaches across `at` from further back than `pidx`.
pub open spec fn slot<P>(r: Seq<Bone<P>>, at: int, pidx: int, blk0_parent: i32) -> bool {
    &&& 0 <= at <= r.len()
    &&& -1 <= pidx < at
    &&& pidx == -1 ==> blk0_parent == ROOT
    &&& pidx >= 0 ==> r[pidx].id == blk0_parent
    &&& forall|m: int| 0 <= pidx < m < at ==> #[trigger] above(r, pidx, m)
    &&& forall|j: int, i: int| j < at <= i && #[trigger] parent_at(r, j, i) ==> j <= pidx
}

/// Pasting a well-shaped block at a fitting slot gives a well-formed store.
#[verifier::rlimit(60)]
pub proof fn lemma_paste_subtree<P>(r: Seq<Bone<P>>, blk: Seq<Bone<P>>, at: int, pidx: int)
    requires
        well_formed(r),
        pasteable(r, blk),
        slot(r, at, pidx, blk[0].parent_id),
    ensures
        well_formed(r.subrange(0, at) + blk + r.subrange(at, r.len() as int)),
{
    let k = blk.len() as int;
    let t = r.subrange(0, at) + blk + r.subrange(at, r.len() as int);
    assert(t.len() == r.len() + k);
    assert forall|x: int| 0 <= x < t.len() implies #[trigger] t[x] == (if x < at {
        r[x]
    } else if x < at + k {
        blk[x - at]
    } else {
        r[x - k]
    }) by {}
    assert(unique_ids(t)) by {
        assert forall|i: int, j: int|
            0 <= i < t.len() && 0 <= j < t.len() && i != j implies #[trigger] t[i].id
            != #[trigger] t[j].id by {
            assert(t[i] == (if i < at { r[i] } else if i < at + k { blk[i - at] } else { r[i - k] }));
            assert(t[j] == (if j < at { r[j] } else if j < at + k { blk[j - at] } else { r[j - k] }));
        }
        assert forall|i: int| 0 <= i < t.len() implies #[trigger] t[i].id >= 0 by {
            assert(t[i] == (if i < at { r[i] } else if i < at + k { blk[i - at] } else { r[i - k] }));
        }
    }
    // parents precede their children
    assert forall|j: int, i: int| #[trigger] parent_at(t, j, i) implies j < i by {
        assert(t[i] == (if i < at { r[i] } else if i < at + k { blk[i - at] } else { r[i - k] }));
        assert(t[j] == (if j < at { r[j] } else if j < at + k { blk[j - at] } else { r[j - k] }));
        if at <= j < at + k {
            if at <= i < at + k {
                assert(parent_at(blk, j - at, i - at));
            }
        } else {
            let jr = if j < at { j } else { j - k };
            if at <= i < at + k {
                if i == at {
                    if pidx >= 0 {
                        assert(r[jr].id == r[pidx].id);
                        assert(jr == pidx);
                    }
                }
            } else {
                let ir = if i < at { i } else { i - k };
                assert(parent_at(r, jr, ir));
            }
        }
    }
    // every non-root bone has its parent in the store, earlier
    assert forall|i: int|
        0 <= i < t.len() && #[trigger] t[i].parent_id != ROOT implies exists|j: int|
            0 <= j < i && #[trigger] parent_at(t, j, i) by {
        assert(t[i] == (if i < at { r[i] } else if i < at + k { blk[i - at] } else { r[i - k] }));
        if at <= i < at + k {
            if i == at {
                assert(t[pidx] == r[pidx]);
                assert(parent_at(t, pidx, i));
            } else {
                assert(parent_before(blk, i - at));
                let v = choose|v: int| 0 <= v < i - at && #[trigger] parent_at(blk, v, i - at);
                assert(t[at + v] == blk[v]);
                assert(parent_at(t, at + v, i));
            }
        } else {
            let ir = if i < at { i } else { i - k };
            assert(parent_before(r, ir));
            let y = choose|y: int| 0 <= y < ir && #[trigger] parent_at(r, y, ir);
            let yt = if y < at { y } else { y + k };
            assert(t[yt] == r[y]);
            assert(parent_at(t, yt, i));
        }
    }
    // nesting
    assert forall|j: int, m: int, i: int|
        j < m < i && #[trigger] parent_at(t, j, i) implies #[trigger] above(t, j, m) by {
        assert(t[i] == (if i < at { r[i] } else if i < at + k { blk[i - at] } else { r[i - k] }));
        assert(t[j] == (if j < at { r[j] } else if j < at + k { blk[j - at] } else { r[j - k] }));
        assert(t[m] == (if m < at { r[m] } else if m < at + k { blk[m - at] } else { r[m - k] }));
        lemma_paste_nested(r, blk, at, pidx, j, m, i);
    }
}

proof fn lemma_paste_nested<P>(
    r: Seq<Bone<P>>,
    blk: Seq<Bone<P>>,
    at: int,
    pidx: int,
    j: int,
    m: int,
    i: int,
)
    requires
        well_formed(r),
        pasteable(r, blk),
        slot(r, at, pidx, blk[0].parent_id),
        j < m < i,
        parent_at(r.subrange(0, at) + blk + r.subrange(at, r.len() as int), j, i),
    ensures
        above(r.subrange(0, at) + blk + r.subrange(at, r.len() as int), j, m),
{
    let k = blk.len() as int;
    let t = r.subrange(0, at) + blk + r.subrange(at, r.len() as int);
    assert forall|x: int| 0 <= x < t.len() implies #[trigger] t[x] == (if x < at {
        r[x]
    } else if x < at + k {
        blk[x - at]
    } else {
        r[x - k]
    }) by {}
    assert(t[i] == (if i < at { r[i] } else if i < at + k { blk[i - at] } else { r[i - k] }));
    assert(t[j] == (if j < at { r[j] } else if j < at + k { blk[j - at] } else { r[j - k] }));
    assert(t[m] == (if m < at { r[m] } else if m < at + k { blk[m - at] } else { r[m - k] }));
    if at <= i < at + k && i > at {
        // inside the block: the parent is in the block too
        if !(at <= j) {
            assert(r[j].id == blk[i - at].parent_id);
        }
        if j >= at + k {
            assert(false);
        }
        assert(parent_at(blk, j - at, i - at));
        assert(above(blk, j - at, m - at));
        assert forall|q: int| #[trigger] parent_at(t, q, m) implies j <= q by {
            assert(t[q] == (if q < at { r[q] } else if q < at + k { blk[q - at] } else { r[q - k] }));
            if at <= q < at + k {
                assert(parent_at(blk, q - at, m - at));
            } else {
                let qr = if q < at { q } else { q - k };
                assert(r[qr].id == blk[m - at].parent_id);
            }
        }
    } else if i == at {
        // the block's first bone: its parent is the slot's parent
        if at <= j < at + k {
            assert(blk[j - at].id == blk[0].parent_id);
            assert(parent_at(blk, j - at, 0));
        }
        assert(pidx >= 0);
        assert(r[j].id == r[pidx].id);
        assert(j == pidx);
        assert(above(r, pidx, m));
        assert forall|q: int| #[trigger] parent_at(t, q, m) implies j <= q by {
            assert(t[q] == (if q < at { r[q] } else if q < at + k { blk[q - at] } else { r[q - k] }));
            if at <= q < at + k {
                assert(r[m].parent_id == blk[q - at].id);
            } else {
                let qr = if q < at { q } else { q - k };
                assert(parent_at(r, qr, m));
            }
        }
    } else {
        // a bone of `r`
        let ir = if i < at { i } else { i - k };
        if at <= j < at + k {
            assert(r[ir].parent_id == blk[j - at].id);
        }
        let jr = if j < at { j } else { j - k };
        assert(parent_at(r, jr, ir));
        if at <= m < at + k {
            assert(j < at);
            assert(jr <= pidx);
            if m == at {
                assert(pidx >= 0);
                assert forall|q: int| #[trigger] parent_at(t, q, m) implies j <= q by {
                    assert(t[q] == (if q < at { r[q] } else if q < at + k { blk[q - at] } else { r[q - k] }));
                    if at <= q < at + k {
                        assert(parent_at(blk, q - at, 0));
                    } else {
                        let qr = if q < at { q } else { q - k };
                        assert(r[qr].id == r[pidx].id);
                    }
                }
            } else {
                assert(parent_before(blk, m - at));
                let v = choose|v: int| 0 <= v < m - at && #[trigger] parent_at(blk, v, m - at);
                assert(blk[v].id >= 0);
                assert forall|q: int| #[trigger] parent_at(t, q, m) implies j <= q by {
                    assert(t[q] == (if q < at { r[q] } else if q < at + k { blk[q - at] } else { r[q - k] }));
                    if !(at <= q < at + k) {
                        let qr = if q < at { q } else { q - k };
                        assert(r[qr].id == blk[m - at].parent_id);
                    }
                }
            }
        } else {
            let mr = if m < at { m } else { m - k };
            assert(above(r, jr, mr));
            assert forall|q: int| #[trigger] parent_at(t, q, m) implies j <= q by {
                assert(t[q] == (if q < at { r[q] } else if q < at + k { blk[q - at] } else { r[q - k] }));
                if at <= q < at + k {
                    assert(r[mr].parent_id == blk[q - at].id);
                } else {
                    let qr = if q < at { q } else { q - k };
                    assert(parent_at(r, qr, mr));
                }
            }
        }
    }
}

/// Dropping a bone on a bone outside its own subtree keeps the store well formed.
pub proof fn lemma_reparent_well_formed<P>(s: Seq<Bone<P>>, a: int, b: int, as_child: bool)
    requires
        well_formed(s),
        0 <= a < s.len(),
        0 <= b < s.len(),
        !(a <= b < subtree_end(s, a)),
    ensures
        well_formed(reparented(s, a, b, as_child)),
{
    let e = subtree_end(s, a);
    let k = e - a;
    lemma_subtree_end(s, a);
    lemma_block_closed(s, a);
    lemma_cut_subtree(s, a);
    let r = s.subrange(0, a) + s.subrange(e, s.len() as int);
    assert forall|x: int| 0 <= x < r.len() implies #[trigger] r[x] == s[if x < a { x } else { x + k }] by {}
    let np = new_parent(s, b, as_child);
    let blk = s.subrange(a, e).update(0, with_parent(s[a], np));
    assert(blk.len() == k);
    assert forall|u: int| 0 <= u < k implies #[trigger] blk[u] == (if u == 0 {
        with_parent(s[a], np)
    } else {
        s[a + u]
    }) by {}
    assert forall|u: int| 0 <= u < k implies #[trigger] blk[u].id == s[a + u].id by {
        assert(blk[u] == (if u == 0 { with_parent(s[a], np) } else { s[a + u] }));
    }
    // the block's shape
    assert(unique_ids(blk)) by {
        assert forall|i: int, j: int|
            0 <= i < blk.len() && 0 <= j < blk.len() && i != j implies #[trigger] blk[i].id
            != #[trigger] blk[j].id by {
            assert(blk[i].id == s[a + i].id);
            assert(blk[j].id == s[a + j].id);
        }
        assert forall|i: int| 0 <= i < blk.len() implies #[trigger] blk[i].id >= 0 by {
            assert(blk[i].id == s[a + i].id);
        }
    }
    assert forall|x: int, u: int|
        0 <= x < r.len() && 0 <= u < blk.len() implies #[trigger] r[x].id != #[trigger] blk[u].id by {
        assert(r[x] == s[if x < a { x } else { x + k }]);
        assert(blk[u].id == s[a + u].id);
    }
    assert forall|x: int, u: int|
        0 <= x < r.len() && 0 <= u < blk.len() implies #[trigger] r[x].parent_id
        != #[trigger] blk[u].id by {
        let gx = if x < a { x } else { x + k };
        assert(r[x] == s[gx]);
        assert(blk[u].id == s[a + u].id);
        assert(!parent_at(s, a + u, gx));
    }
    assert forall|x: int, u: int|
        0 <= x < r.len() && 1 <= u < blk.len() implies #[trigger] r[x].id
        != #[trigger] blk[u].parent_id by {
        let gx = if x < a { x } else { x + k };
        assert(r[x] == s[gx]);
        assert(blk[u] == s[a + u]);
        assert(above(s, a, a + u));
        assert(parent_before(s, a + u));
        let q = choose|q: int| 0 <= q < a + u && #[trigger] parent_at(s, q, a + u);
        if r[x].id == blk[u].parent_id {
            assert(parent_at(s, gx, a + u));
            assert(s[gx].id == s[q].id);
        }
    }
    assert forall|u: int| 1 <= u < blk.len() implies #[trigger] parent_before(blk, u) by {
        assert(blk[u] == s[a + u]);
        assert(above(s, a, a + u));
        assert(parent_before(s, a + u));
        let q = choose|q: int| 0 <= q < a + u && #[trigger] parent_at(s, q, a + u);
        assert(blk[q - a].id == s[q].id);
        assert(parent_at(blk, q - a, u));
    }
    assert forall|j: int, i: int| #[trigger] parent_at(blk, j, i) implies j < i by {
        assert(blk[j].id == s[a + j].id);
        if i == 0 {
            if as_child {
                assert(s[a + j].id == s[b].id);
            } else {
                assert(parent_at(s, a + j, b));
            }
        } else {
            assert(blk[i] == s[a + i]);
            assert(parent_at(s, a + j, a + i));
        }
    }
    assert forall|j: int, m: int, i: int|
        j < m < i && #[trigger] parent_at(blk, j, i) implies #[trigger] above(blk, j, m) by {
        assert(blk[j].id == s[a + j].id);
        assert(blk[i] == s[a + i]);
        assert(blk[m] == s[a + m]);
        assert(parent_at(s, a + j, a + i));
        assert(above(s, a + j, a + m));
        assert forall|q: int| #[trigger] parent_at(blk, q, m) implies j <= q by {
            assert(blk[q].id == s[a + q].id);
            assert(parent_at(s, a + q, a + m));
        }
    }
    assert(pasteable(r, blk));
    // the slot
    let b2 = if b < a { b } else { b - k };
    assert(r[b2] == s[b]);
    let at = insert_pos(a, e, b, as_child);
    if !as_child && np != ROOT {
        assert(parent_before(r, b2));
    }
    let pidx: int = if as_child {
        b2
    } else if np == ROOT {
        -1
    } else {
        choose|y: int| 0 <= y < b2 && #[trigger] parent_at(r, y, b2)
    };
    if as_child {
        assert(slot(r, at, pidx, blk[0].parent_id));
    } else if np == ROOT {
        assert forall|j: int, i: int| j < at <= i && #[trigger] parent_at(r, j, i) implies j
            <= pidx by {
            if i == b2 {
            } else {
                assert(above(r, j, b2));
            }
        }
        assert(slot(r, at, pidx, blk[0].parent_id));
    } else {
        assert(parent_at(r, pidx, b2));
        assert forall|m: int| pidx < m < at implies #[trigger] above(r, pidx, m) by {}
        assert forall|j: int, i: int| j < at <= i && #[trigger] parent_at(r, j, i) implies j
            <= pidx by {
            if i == b2 {
                assert(r[j].id == r[pidx].id);
            } else {
                assert(above(r, j, b2));
            }
        }
        assert(slot(r, at, pidx, blk[0].parent_id));
    }
    lemma_paste_subtree(r, blk, at, pidx);
    assert(reparented(s, a, b, as_child) =~= r.subrange(0, at) + blk + r.subrange(
        at,
        r.len() as int,
    ));
}

/// In a well-formed store, the bones of the block that the bone at `p` heads
/// are exactly its descendants.
pub proof fn lemma_block_is_descendants<P>(s: Seq<Bone<P>>, p: int, m: int)
    requires
        well_formed(s),
        0 <= p < s.len(),
        0 <= m < s.len(),
    ensures
        (p < m < subtree_end(s, p)) <==> is_ancestor(s, p, m),
    decreases m,
{
    let e = subtree_end(s, p);
    lemma_subtree_end(s, p);
    if p < m < e {
        assert(above(s, p, m));
        assert(parent_before(s, m));
        let q = choose|q: int| 0 <= q < m && #[trigger] parent_at(s, q, m);
        if q != p {
            lemma_block_is_descendants(s, p, q);
        }
        assert(is_ancestor(s, p, m));
    }
    if is_ancestor(s, p, m) {
        let q = choose|q: int|
            0 <= q < m && #[trigger] parent_at(s, q, m) && (q == p || is_ancestor(s, p, q));
        if q != p {
            lemma_block_is_descendants(s, p, q);
        }
        assert(p <= q);
        if m >= e {
            assert forall|q2: int| #[trigger] parent_at(s, q2, m) implies p <= q2 by {
                assert(s[q2].id == s[q].id);
            }
            if m == e {
                assert(above(s, p, e));
            } else {
                assert(above(s, q, e));
                assert forall|q2: int| #[trigger] parent_at(s, q2, e) implies p <= q2 by {
                    assert(q <= q2);
                }
                assert(above(s, p, e));
            }
        }
    }
}

} // verus!
