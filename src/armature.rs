use vstd::prelude::*;
use vstd::string::StringExecFns;

use crate::forest::{lemma_block_is_descendants, lemma_cut_subtree, lemma_reparent_well_formed};

verus! {

/// Index into the editor's texture table; `usize::MAX` means the bone has no image.
#[derive(Clone, Copy, Debug)]
pub struct BoneTexture {
    pub idx: usize,
}

/// Texture index of a bone that has no image.
pub const NO_TEXTURE: usize = usize::MAX;

/// `parent_id` of a root bone.
pub const ROOT: i32 = -1;

/// One node of the armature. `P` is the bone's pose (position, rotation,
/// scale), which the hierarchy carries along but never reads.
#[derive(Clone, Debug)]
pub struct Bone<P> {
    pub name: String,
    pub parent_id: i32,
    pub id: i32,
    pub tex: BoneTexture,
    pub pose: P,
}

/// The bones of one editable subject, listed in pre-order.
pub struct Armature<P> {
    pub bones: Vec<Bone<P>>,
}

impl<P> Armature<P> {
    /// An armature without bones.
    pub fn new() -> (r: Armature<P>)
        ensures
            r.bones@.len() == 0,
            well_formed(r.bones@),
    {
        Armature { bones: Vec::new() }
    }
}

/// Some bone of `s` has identity `id`.
pub open spec fn has_id<P>(s: Seq<Bone<P>>, id: i32) -> bool {
    exists|k: int| 0 <= k < s.len() && s[k].id == id
}

/// The bone at `j` is the parent of the bone at `i`.
pub open spec fn parent_at<P>(s: Seq<Bone<P>>, j: int, i: int) -> bool {
    0 <= j < s.len() && 0 <= i < s.len() && s[j].id == s[i].parent_id
}

/// The bone at `i` has its parent listed before it.
pub open spec fn parent_before<P>(s: Seq<Bone<P>>, i: int) -> bool {
    exists|j: int| 0 <= j < i && #[trigger] parent_at(s, j, i)
}

/// The bone at `m` has a parent, and that parent stands at or after position `p`.
pub open spec fn above<P>(s: Seq<Bone<P>>, p: int, m: int) -> bool {
    &&& s[m].parent_id != ROOT
    &&& forall|q: int| #[trigger] parent_at(s, q, m) ==> p <= q
}

/// Identities are non-negative and pairwise distinct.
pub open spec fn unique_ids<P>(s: Seq<Bone<P>>) -> bool {
    &&& forall|i: int| 0 <= i < s.len() ==> #[trigger] s[i].id >= 0
    &&& forall|i: int, j: int|
        0 <= i < s.len() && 0 <= j < s.len() && i != j ==> #[trigger] s[i].id != #[trigger] s[j].id
}

/// The store is a pre-order listing of a forest: ids are unique, every bone's
/// parent is a root marker or a bone listed before it, and every bone listed
/// between a parent and one of its children lies in that parent's subtree
/// (its own parent stands at or after the parent).
pub open spec fn well_formed<P>(s: Seq<Bone<P>>) -> bool {
    &&& unique_ids(s)
    &&& forall|i: int|
        0 <= i < s.len() && s[i].parent_id != ROOT ==> #[trigger] parent_before(s, i)
    &&& forall|j: int, i: int| #[trigger] parent_at(s, j, i) ==> j < i
    &&& forall|j: int, m: int, i: int|
        j < m < i && #[trigger] parent_at(s, j, i) ==> #[trigger] above(s, j, m)
}

/// First position at or after `e` whose bone does not lie below `p`.
pub open spec fn subtree_end_from<P>(s: Seq<Bone<P>>, p: int, e: int) -> int
    decreases s.len() - e,
{
    if 0 <= e < s.len() && above(s, p, e) {
        subtree_end_from(s, p, e + 1)
    } else {
        e
    }
}

/// Following parent links upward from the bone at `m` reaches the bone at `p`.
pub open spec fn is_ancestor<P>(s: Seq<Bone<P>>, p: int, m: int) -> bool
    decreases m,
{
    exists|q: int|
        0 <= q < m && #[trigger] parent_at(s, q, m) && (q == p || is_ancestor(s, p, q))
}

/// End (exclusive) of the block that the bone at `p` heads: `p`'s
/// descendants are the bones at `p + 1 .. subtree_end(s, p)`.
pub open spec fn subtree_end<P>(s: Seq<Bone<P>>, p: int) -> int {
    subtree_end_from(s, p, p + 1)
}

/// The identities of the bones of `s`, in order.
pub open spec fn ids_of<P>(s: Seq<Bone<P>>) -> Seq<i32> {
    s.map_values(|b: Bone<P>| b.id)
}

/// Smallest non-negative integer that is no bone's identity.
pub open spec fn is_fresh_id<P>(s: Seq<Bone<P>>, r: i32) -> bool {
    &&& r >= 0
    &&& !has_id(s, r)
    &&& forall|k: i32| 0 <= k < r ==> has_id(s, k)
}

/// The decimal digit character for `d < 10`.
pub open spec fn digit(d: nat) -> char {
    if d == 0 { '0' }
    else if d == 1 { '1' }
    else if d == 2 { '2' }
    else if d == 3 { '3' }
    else if d == 4 { '4' }
    else if d == 5 { '5' }
    else if d == 6 { '6' }
    else if d == 7 { '7' }
    else if d == 8 { '8' }
    else { '9' }
}

/// Decimal digits of `n`, most significant first, without leading zeros.
pub open spec fn decimal(n: nat) -> Seq<char>
    decreases n,
{
    if n < 10 {
        seq![digit(n)]
    } else {
        decimal(n / 10).push(digit(n % 10))
    }
}

/// Default name of the bone created when the store holds `n` bones.
pub open spec fn default_name(n: nat) -> Seq<char> {
    seq!['b', 'o', 'n', 'e'] + decimal(n)
}

/// Relies on `<usize as ToString>::to_string` (through `Display`) writing the
/// number in decimal, without leading zeros.
#[verifier::external_body]
fn decimal_string(n: usize) -> (r: String)
    ensures
        r@ == decimal(n as nat),
{
    n.to_string()
}

/// The default name of a bone created when the store holds `n` bones.
fn numbered_name(n: usize) -> (r: String)
    ensures
        r@ == default_name(n as nat),
{
    let digits = decimal_string(n);
    let mut name = String::from_str("bone");
    name.append(digits.as_str());
    proof {
        reveal_strlit("bone");
    }
    name
}

/// If every integer of `ids` is some bone's identity, `ids` has at most as many
/// members as `s` has bones.
proof fn lemma_covered_ids<P>(s: Seq<Bone<P>>, ids: Set<int>)
    requires
        ids.finite(),
        forall|k: int| ids.contains(k) ==> exists|j: int| 0 <= j < s.len() && s[j].id == k,
    ensures
        ids.len() <= s.len(),
    decreases s.len(),
{
    if s.len() == 0 {
        assert(ids =~= Set::<int>::empty());
    } else {
        let s2 = s.drop_last();
        let last = s.last().id as int;
        let ids2 = ids.remove(last);
        assert forall|k: int| ids2.contains(k) implies exists|j: int|
            0 <= j < s2.len() && s2[j].id == k by {
            let j = choose|j: int| 0 <= j < s.len() && s[j].id == k;
            assert(s2[j].id == k);
        }
        lemma_covered_ids(s2, ids2);
    }
}

/// `id` itself when some bone has that identity, -1 otherwise.
fn does_id_exist<P>(bones: &Vec<Bone<P>>, id: i32) -> (r: i32)
    ensures
        r == (if has_id(bones@, id) { id } else { -1i32 }),
{
    let mut i: usize = 0;
    while i < bones.len()
        invariant
            i <= bones@.len(),
            forall|k: int| 0 <= k < i ==> bones@[k].id != id,
        decreases bones@.len() - i,
    {
        if bones[i].id == id {
            return id;
        }
        i += 1;
    }
    -1
}

/// The smallest non-negative integer that no bone of the store uses as its id.
pub fn generate_id<P>(bones: &Vec<Bone<P>>) -> (r: i32)
    requires
        bones@.len() < i32::MAX,
    ensures
        is_fresh_id(bones@, r),
        r <= bones@.len(),
{
    let mut idx: i32 = 0;
    while idx == does_id_exist(bones, idx)
        invariant
            0 <= idx <= bones@.len(),
            bones@.len() < i32::MAX,
            forall|k: i32| 0 <= k < idx ==> has_id(bones@, k),
        decreases bones@.len() - idx,
    {
        proof {
            vstd::set_lib::lemma_int_range(0, idx + 1);
            assert forall|k: int| #[trigger] vstd::set_lib::set_int_range(0, idx + 1).contains(k) implies
                exists|j: int| 0 <= j < bones@.len() && bones@[j].id == k by {
                assert(has_id(bones@, k as i32));
            }
            lemma_covered_ids(bones@, vstd::set_lib::set_int_range(0, idx + 1));
        }
        idx += 1;
    }
    idx
}

/// The first bone with identity `id`, if any.
pub fn find_bone<P>(bones: &Vec<Bone<P>>, id: i32) -> (r: Option<&Bone<P>>)
    ensures
        r.is_none() <==> !has_id(bones@, id),
        r.is_some() ==> exists|k: int|
            0 <= k < bones@.len() && *r.unwrap() == bones@[k] && bones@[k].id == id
                && forall|q: int| 0 <= q < k ==> bones@[q].id != id,
{
    let mut i: usize = 0;
    while i < bones.len()
        invariant
            i <= bones@.len(),
            forall|k: int| 0 <= k < i ==> bones@[k].id != id,
        decreases bones@.len() - i,
    {
        if bones[i].id == id {
            return Some(&bones[i]);
        }
        i += 1;
    }
    None
}

/// Position of the first bone with identity `id`, or -1 when there is none.
pub fn find_bone_idx<P>(bones: &Vec<Bone<P>>, id: i32) -> (r: i32)
    requires
        bones@.len() <= i32::MAX,
    ensures
        -1 <= r < bones@.len(),
        r >= 0 ==> bones@[r as int].id == id,
        forall|k: int| 0 <= k < bones@.len() && (r < 0 || k < r) ==> bones@[k].id != id,
{
    let mut i: usize = 0;
    while i < bones.len()
        invariant
            i <= bones@.len() <= i32::MAX,
            forall|k: int| 0 <= k < i ==> bones@[k].id != id,
        decreases bones@.len() - i,
    {
        if bones[i].id == id {
            return i as i32;
        }
        i += 1;
    }
    -1
}

/// Appends a new root bone named after the store's size, with a fresh id, no
/// texture and the given pose.
pub fn create_bone<P>(bones: &mut Vec<Bone<P>>, pose: P)
    requires
        old(bones)@.len() < i32::MAX,
    ensures
        final(bones)@.len() == old(bones)@.len() + 1,
        final(bones)@.drop_last() == old(bones)@,
        final(bones)@.last().name@ == default_name(old(bones)@.len()),
        final(bones)@.last().parent_id == ROOT,
        is_fresh_id(old(bones)@, final(bones)@.last().id),
        final(bones)@.last().tex.idx == NO_TEXTURE,
        final(bones)@.last().pose == pose,
        unique_ids(old(bones)@) ==> unique_ids(final(bones)@),
        well_formed(old(bones)@) ==> well_formed(final(bones)@),
{
    let name = numbered_name(bones.len());
    let id = generate_id(bones);
    bones.push(Bone { name, parent_id: ROOT, id, tex: BoneTexture { idx: NO_TEXTURE }, pose });
    proof {
        let s = old(bones)@;
        let t = bones@;
        assert(t.drop_last() =~= s);
        let n = s.len() as int;
        assert forall|i: int| 0 <= i < t.len() implies #[trigger] t[i] == (if i < n {
            s[i]
        } else {
            t[n]
        }) by {}
        if unique_ids(s) {
            assert forall|i: int, j: int|
                0 <= i < t.len() && 0 <= j < t.len() && i != j implies #[trigger] t[i].id
                != #[trigger] t[j].id by {
                assert(t[i] == (if i < n { s[i] } else { t[n] }));
                assert(t[j] == (if j < n { s[j] } else { t[n] }));
            }
        }
        if well_formed(s) {
            assert forall|j: int, i: int| #[trigger] parent_at(t, j, i) implies parent_at(s, j, i) by {
                assert(t[i] == (if i < n { s[i] } else { t[n] }));
                assert(t[j] == (if j < n { s[j] } else { t[n] }));
                if j == n {
                    assert(s[i].parent_id != ROOT);
                    assert(parent_before(s, i));
                    let q = choose|q: int| 0 <= q < i && #[trigger] parent_at(s, q, i);
                    assert(has_id(s, id));
                }
            }
            assert forall|i: int|
                0 <= i < t.len() && #[trigger] t[i].parent_id != ROOT implies exists|j: int|
                    0 <= j < i && #[trigger] parent_at(t, j, i) by {
                assert(t[i] == (if i < n { s[i] } else { t[n] }));
                assert(parent_before(s, i));
                let q = choose|q: int| 0 <= q < i && #[trigger] parent_at(s, q, i);
                assert(t[q] == s[q]);
                assert(parent_at(t, q, i));
            }
            assert forall|j: int, m: int, i: int|
                j < m < i && #[trigger] parent_at(t, j, i) implies #[trigger] above(t, j, m) by {
                assert(parent_at(s, j, i));
                assert(above(s, j, m));
                assert(t[m] == s[m]);
                assert forall|q: int| #[trigger] parent_at(t, q, m) implies j <= q by {
                    assert(parent_at(s, q, m));
                }
            }
        }
    }
}

proof fn lemma_subtree_end_from<P>(s: Seq<Bone<P>>, p: int, e: int)
    requires
        0 <= e <= s.len(),
    ensures
        e <= subtree_end_from(s, p, e) <= s.len(),
        forall|m: int| e <= m < subtree_end_from(s, p, e) ==> above(s, p, m),
        subtree_end_from(s, p, e) < s.len() ==> !above(s, p, subtree_end_from(s, p, e)),
    decreases s.len() - e,
{
    if e < s.len() && above(s, p, e) {
        lemma_subtree_end_from(s, p, e + 1);
    }
}

proof fn lemma_subtree_end_skip<P>(s: Seq<Bone<P>>, p: int, e1: int, e2: int)
    requires
        0 <= e1 <= e2 <= s.len(),
        forall|m: int| e1 <= m < e2 ==> above(s, p, m),
    ensures
        subtree_end_from(s, p, e1) == subtree_end_from(s, p, e2),
    decreases e2 - e1,
{
    if e1 < e2 {
        lemma_subtree_end_skip(s, p, e1 + 1, e2);
    }
}

/// Facts on the block that the bone at `p` heads.
pub proof fn lemma_subtree_end<P>(s: Seq<Bone<P>>, p: int)
    requires
        0 <= p < s.len(),
    ensures
        p < subtree_end(s, p) <= s.len(),
        forall|m: int| p < m < subtree_end(s, p) ==> above(s, p, m),
        subtree_end(s, p) < s.len() ==> !above(s, p, subtree_end(s, p)),
{
    lemma_subtree_end_from(s, p, p + 1);
}

/// Appends the ids of the descendants of the bone at `pos`, in store order, and
/// returns the end of its block.
fn collect_subtree<P>(bones: &Vec<Bone<P>>, children: &mut Vec<i32>, pos: usize) -> (end: usize)
    requires
        well_formed(bones@),
        pos < bones@.len(),
    ensures
        end as int == subtree_end(bones@, pos as int),
        final(children)@ == old(children)@ + ids_of(bones@.subrange(pos + 1, end as int)),
    decreases bones@.len() - pos,
{
    let ghost s = bones@;
    let ghost p = pos as int;
    let n: usize = bones.len();
    let mut i: usize = pos + 1;
    let ghost mut last: int = -1;
    proof {
        assert(children@ =~= old(children)@ + ids_of(s.subrange(p + 1, p + 1)));
    }
    while i < bones.len() && bones[i].parent_id == bones[pos].id
        invariant
            well_formed(s),
            bones@ == s,
            p == pos,
            pos < i <= s.len(),
            forall|m: int| p < m < i ==> above(s, p, m),
            children@ == old(children)@ + ids_of(s.subrange(p + 1, i as int)),
            i == pos + 1 || (p < last < i && s[last].parent_id == s[p].id && (i < s.len()
                ==> !above(s, last, i as int))),
        decreases s.len() - i,
    {
        let ghost c = i as int;
        let ghost before = children@;
        children.push(bones[i].id);
        i = collect_subtree(bones, children, i);
        proof {
            lemma_subtree_end(s, c);
            assert(parent_at(s, p, c));
            assert forall|m: int| p < m < i implies above(s, p, m) by {
                if m == c {
                    assert forall|q: int| #[trigger] parent_at(s, q, m) implies p <= q by {
                        assert(s[q].id == s[p].id);
                    }
                } else if m > c {
                    assert(above(s, c, m));
                }
            }
            last = c;
            assert(ids_of(s.subrange(p + 1, i as int)) =~= ids_of(s.subrange(p + 1, c)).push(
                s[c].id,
            ) + ids_of(s.subrange(c + 1, i as int)));
        }
    }
    proof {
        if i < s.len() && above(s, p, i as int) {
            assert(parent_before(s, i as int));
            let q = choose|q: int| 0 <= q < i && #[trigger] parent_at(s, q, i as int);
            assert(p <= q);
            assert(q != p);
            if i == pos + 1 {
            } else {
                if last <= q {
                } else {
                    assert(!above(s, last, i as int));
                    let q2 = choose|q2: int| #[trigger] parent_at(s, q2, i as int) && !(last <= q2);
                    assert(q2 == q);
                    assert(above(s, q, last));
                    assert(parent_at(s, p, last));
                }
            }
        }
        lemma_subtree_end_skip(s, p, p + 1, i as int);
        lemma_subtree_end_from(s, p, i as int);
    }
    i
}

/// Appends to `children_vec` the ids of all descendants of the bone with
/// identity `parent_id`, in store (pre-order) order; appends nothing when no
/// bone has that id.
pub fn get_all_children<P>(bones: &Vec<Bone<P>>, children_vec: &mut Vec<i32>, parent_id: i32)
    requires
        well_formed(bones@),
        bones@.len() <= i32::MAX,
    ensures
        !has_id(bones@, parent_id) ==> final(children_vec)@ == old(children_vec)@,
        forall|p: int|
            0 <= p < bones@.len() && bones@[p].id == parent_id ==> final(children_vec)@
                == old(children_vec)@ + ids_of(bones@.subrange(p + 1, subtree_end(bones@, p))),
{
    let idx = find_bone_idx(bones, parent_id);
    if idx < 0 {
        return;
    }
    collect_subtree(bones, children_vec, idx as usize);
}

/// Where the block ends up: the target's position once the block is cut out,
/// plus one when the block goes after the target.
pub open spec fn insert_pos(a: int, e: int, b: int, as_child: bool) -> int {
    (if b < a { b } else { b - (e - a) }) + (if as_child { 1int } else { 0int })
}

/// `s` with the block `a .. e` cut out and put back right before the bone that
/// stood at `b` (`as_child` false) or right after it (`as_child` true).
pub open spec fn relocated<P>(s: Seq<Bone<P>>, a: int, e: int, b: int, as_child: bool) -> Seq<
    Bone<P>,
> {
    let rest = s.subrange(0, a) + s.subrange(e, s.len() as int);
    let at = insert_pos(a, e, b, as_child);
    rest.subrange(0, at) + s.subrange(a, e) + rest.subrange(at, rest.len() as int)
}

/// Removes the `count` bones at `a ..` and returns them in order.
fn cut_block<P>(bones: &mut Vec<Bone<P>>, a: usize, count: usize) -> (moved: Vec<Bone<P>>)
    requires
        a + count <= old(bones)@.len(),
    ensures
        final(bones)@ == old(bones)@.subrange(0, a as int) + old(bones)@.subrange(
            a + count,
            old(bones)@.len() as int,
        ),
        moved@ == old(bones)@.subrange(a as int, a + count),
{
    let ghost s = bones@;
    let mut moved: Vec<Bone<P>> = Vec::new();
    let mut n: usize = 0;
    proof {
        assert(bones@ =~= s.subrange(0, a as int) + s.subrange(a + n, s.len() as int));
        assert(moved@ =~= s.subrange(a as int, a + n));
    }
    while n < count
        invariant
            0 <= n <= count,
            a + count <= s.len(),
            bones@ == s.subrange(0, a as int) + s.subrange(a + n, s.len() as int),
            moved@ == s.subrange(a as int, a + n),
        decreases count - n,
    {
        let bone = bones.remove(a);
        moved.push(bone);
        n += 1;
        proof {
            assert(bones@ =~= s.subrange(0, a as int) + s.subrange(a + n, s.len() as int));
            assert(moved@ =~= s.subrange(a as int, a + n));
        }
    }
    moved
}

/// Inserts the bones of `moved`, in order, at position `at`.
fn paste_block<P>(bones: &mut Vec<Bone<P>>, moved: Vec<Bone<P>>, at: usize)
    requires
        at <= old(bones)@.len(),
    ensures
        final(bones)@ == old(bones)@.subrange(0, at as int) + moved@ + old(bones)@.subrange(
            at as int,
            old(bones)@.len() as int,
        ),
{
    let ghost r = bones@;
    let ghost block = moved@;
    let mut moved = moved;
    proof {
        assert(bones@ =~= r.subrange(0, at as int) + block.subrange(moved@.len() as int, block.len() as int)
            + r.subrange(at as int, r.len() as int));
    }
    while moved.len() > 0
        invariant
            at <= r.len(),
            moved@.len() <= block.len(),
            bones@ == r.subrange(0, at as int) + block.subrange(moved@.len() as int, block.len() as int)
                + r.subrange(at as int, r.len() as int),
            moved@ == block.subrange(0, moved@.len() as int),
        decreases moved@.len(),
    {
        let bone = moved.pop().unwrap();
        bones.insert(at, bone);
        proof {
            assert(bones@ =~= r.subrange(0, at as int) + block.subrange(moved@.len() as int, block.len() as int)
                + r.subrange(at as int, r.len() as int));
            assert(moved@ =~= block.subrange(0, moved@.len() as int));
        }
    }
    proof {
        assert(block.subrange(0, block.len() as int) =~= block);
    }
}

/// Moves the bone at `old_idx` together with its descendants so that the block
/// stands right after the bone at `new_idx` (`is_setting_parent`) or right
/// before it. Parent links are left as they are.
pub fn move_bone<P>(bones: &mut Vec<Bone<P>>, old_idx: i32, new_idx: i32, is_setting_parent: bool)
    requires
        well_formed(old(bones)@),
        old(bones)@.len() <= i32::MAX,
        0 <= old_idx < old(bones)@.len(),
        0 <= new_idx < old(bones)@.len(),
        !(old_idx <= new_idx < subtree_end(old(bones)@, old_idx as int)),
    ensures
        final(bones)@ == relocated(
            old(bones)@,
            old_idx as int,
            subtree_end(old(bones)@, old_idx as int),
            new_idx as int,
            is_setting_parent,
        ),
{
    let ghost s = bones@;
    let ghost a = old_idx as int;
    let ghost e = subtree_end(s, a);
    let ghost b = new_idx as int;
    proof {
        lemma_subtree_end(s, a);
    }
    let anchor_id = bones[new_idx as usize].id;
    let main_id = bones[old_idx as usize].id;
    let mut to_move: Vec<i32> = Vec::new();
    get_all_children(bones, &mut to_move, main_id);
    let count = to_move.len() + 1;
    let moved = cut_block(bones, old_idx as usize, count);
    let ghost rest = bones@;
    let ghost b2 = if b < a { b } else { b - (e - a) };
    let anchor = find_bone_idx(bones, anchor_id);
    proof {
        assert(rest[b2] == s[b]);
        if anchor != b2 {
            if anchor >= 0 && anchor < b2 {
                let k = if anchor < a { anchor as int } else { anchor + (e - a) };
                assert(rest[anchor as int] == s[k]);
            }
        }
    }
    let at: usize = if is_setting_parent { anchor as usize + 1 } else { anchor as usize };
    paste_block(bones, moved, at);
    proof {
        assert(bones@ =~= relocated(s, a, e, b, is_setting_parent));
    }
}

/// `b` with its parent link replaced.
pub open spec fn with_parent<P>(b: Bone<P>, parent_id: i32) -> Bone<P> {
    Bone { name: b.name, parent_id, id: b.id, tex: b.tex, pose: b.pose }
}

/// The parent that the dragged bone gets when dropped on the bone at `b`:
/// `b` itself (`as_child`) or `b`'s own parent.
pub open spec fn new_parent<P>(s: Seq<Bone<P>>, b: int, as_child: bool) -> i32 {
    if as_child { s[b].id } else { s[b].parent_id }
}

/// The store after the bone at `a`, with its descendants, is dropped on the
/// bone at `b`: the block is relocated and its first bone relinked.
pub open spec fn reparented<P>(s: Seq<Bone<P>>, a: int, b: int, as_child: bool) -> Seq<Bone<P>> {
    let e = subtree_end(s, a);
    relocated(s, a, e, b, as_child).update(
        insert_pos(a, e, b, as_child),
        with_parent(s[a], new_parent(s, b, as_child)),
    )
}

/// Removes the bone at `idx`, and only it: bones that had it as parent keep
/// their now dangling link, which the transform pass treats as a root (see
/// `parent_slots`). Nothing is cascaded or relinked; a store left with such a
/// link is no longer `well_formed`, so `check_forest` reports it and the
/// structural edits that need the invariant are refused by their callers.
pub fn delete_bone<P>(bones: &mut Vec<Bone<P>>, idx: usize)
    requires
        idx < old(bones)@.len(),
    ensures
        final(bones)@ == old(bones)@.remove(idx as int),
        unique_ids(old(bones)@) ==> unique_ids(final(bones)@),
        well_formed(old(bones)@) && (forall|i: int| !#[trigger] parent_at(old(bones)@, idx as int, i))
            ==> well_formed(final(bones)@),
{
    let ghost s = bones@;
    bones.remove(idx);
    proof {
        let d = idx as int;
        assert forall|i: int| 0 <= i < bones@.len() implies #[trigger] bones@[i] == s[if i < d {
            i
        } else {
            i + 1
        }] by {}
        if unique_ids(s) {
            assert forall|i: int, j: int|
                0 <= i < bones@.len() && 0 <= j < bones@.len() && i != j implies #[trigger] bones@[i].id
                != #[trigger] bones@[j].id by {
                assert(bones@[i] == s[if i < d { i } else { i + 1 }]);
                assert(bones@[j] == s[if j < d { j } else { j + 1 }]);
            }
            assert forall|i: int| 0 <= i < bones@.len() implies #[trigger] bones@[i].id >= 0 by {
                assert(bones@[i] == s[if i < d { i } else { i + 1 }]);
            }
        }
        if well_formed(s) && (forall|i: int| !#[trigger] parent_at(s, d, i)) {
            lemma_subtree_end(s, d);
            if d + 1 < s.len() && above(s, d, d + 1) {
                assert(parent_before(s, d + 1));
                let q = choose|q: int| 0 <= q < d + 1 && #[trigger] parent_at(s, q, d + 1);
            }
            assert(subtree_end(s, d) == d + 1);
            lemma_cut_subtree(s, d);
            assert(bones@ =~= s.subrange(0, d) + s.subrange(d + 1, s.len() as int));
        }
    }
}

/// Drops the bone at `dragged` on the row of the bone at `target`. On the
/// upper half of the row the dragged bone becomes `target`'s sibling, placed
/// right before it; on the lower half it becomes `target`'s child, placed right
/// after it. Its descendants travel with it. Dropping a bone on itself or on
/// one of its descendants changes nothing.
pub fn drop_bone<P>(bones: &mut Vec<Bone<P>>, dragged: usize, target: usize, upper_half: bool)
    requires
        well_formed(old(bones)@),
        old(bones)@.len() <= i32::MAX,
        dragged < old(bones)@.len(),
        target < old(bones)@.len(),
    ensures
        dragged == target || is_ancestor(old(bones)@, dragged as int, target as int)
            ==> final(bones)@ == old(bones)@,
        !(dragged == target || is_ancestor(old(bones)@, dragged as int, target as int))
            ==> final(bones)@ == reparented(old(bones)@, dragged as int, target as int, !upper_half),
        well_formed(final(bones)@),
{
    let ghost s = bones@;
    let ghost a = dragged as int;
    let ghost b = target as int;
    let ghost e = subtree_end(s, a);
    proof {
        lemma_subtree_end(s, a);
        lemma_block_is_descendants(s, a, b);
    }
    if dragged == target {
        return;
    }
    let as_child = !upper_half;
    let dragged_id = bones[dragged].id;
    let target_id = bones[target].id;
    let mut children: Vec<i32> = Vec::new();
    get_all_children(bones, &mut children, dragged_id);
    proof {
        assert(children@ =~= ids_of(s.subrange(a + 1, e)));
    }
    let mut i: usize = 0;
    while i < children.len()
        invariant
            bones@ == s,
            children@ == ids_of(s.subrange(a + 1, e)),
            children@.len() == e - a - 1,
            well_formed(s),
            a == dragged,
            b == target,
            e == subtree_end(s, a),
            (a < b < e) <==> is_ancestor(s, a, b),
            0 <= a < e <= s.len(),
            target_id == s[b].id,
            0 <= b < s.len(),
            i <= children@.len(),
            forall|q: int| 0 <= q < i ==> children@[q] != target_id,
        decreases children@.len() - i,
    {
        if children[i] == target_id {
            proof {
                assert(children@[i as int] == s.subrange(a + 1, e)[i as int].id);
                assert(s[a + 1 + i].id == s[b].id);
            }
            return;
        }
        i += 1;
    }
    proof {
        if a < b < e {
            assert(children@[b - a - 1] == s.subrange(a + 1, e)[b - a - 1].id);
        }
    }
    let new_parent = if as_child { target_id } else { bones[target].parent_id };
    let count = children.len() + 1;
    move_bone(bones, dragged as i32, target as i32, as_child);
    let at: usize = (if target < dragged { target } else { target - count }) + (if as_child {
        1usize
    } else {
        0usize
    });
    bones[at].parent_id = new_parent;
    proof {
        assert(bones@ =~= reparented(s, a, b, as_child));
        lemma_reparent_well_formed(s, a, b, as_child);
    }
}

/// For each bone, where the transform pass finds the frame it inherits: the
/// position of the first bone, among those listed up to and including it,
/// whose id is its `parent_id`; -1 when there is none (a root, or a parent that
/// was deleted), in which case the identity frame is used.
pub fn parent_slots<P>(bones: &Vec<Bone<P>>) -> (r: Vec<i32>)
    requires
        bones@.len() <= i32::MAX,
    ensures
        r@.len() == bones@.len(),
        forall|i: int|
            0 <= i < r@.len() ==> -1 <= #[trigger] r@[i] <= i && (r@[i] >= 0 ==> bones@[r@[i] as int].id
                == bones@[i].parent_id) && forall|j: int|
                0 <= j <= i && (r@[i] < 0 || j < r@[i]) ==> bones@[j].id != bones@[i].parent_id,
{
    let mut r: Vec<i32> = Vec::new();
    let mut i: usize = 0;
    while i < bones.len()
        invariant
            i <= bones@.len() <= i32::MAX,
            r@.len() == i,
            forall|k: int|
                0 <= k < i ==> -1 <= #[trigger] r@[k] <= k && (r@[k] >= 0 ==> bones@[r@[k] as int].id
                    == bones@[k].parent_id) && forall|j: int|
                    0 <= j <= k && (r@[k] < 0 || j < r@[k]) ==> bones@[j].id != bones@[k].parent_id,
        decreases bones@.len() - i,
    {
        let pid = bones[i].parent_id;
        let mut j: usize = 0;
        let mut slot: i32 = -1;
        while j <= i && slot < 0
            invariant
                i < bones@.len() <= i32::MAX,
                j <= i + 1,
                pid == bones@[i as int].parent_id,
                slot < 0 ==> slot == -1 && forall|q: int| 0 <= q < j ==> bones@[q].id != pid,
                slot >= 0 ==> slot <= i && bones@[slot as int].id == pid && forall|q: int|
                    0 <= q < slot ==> bones@[q].id != pid,
            decreases i + 1 - j,
        {
            if bones[j].id == pid {
                slot = j as i32;
            }
            j += 1;
        }
        r.push(slot);
        i += 1;
    }
    r
}

/// Whether the store is well formed: unique non-negative ids, parents listed
/// before their children, subtrees contiguous.
pub fn check_forest<P>(bones: &Vec<Bone<P>>) -> (r: bool)
    requires
        bones@.len() <= i32::MAX,
    ensures
        r == well_formed(bones@),
{
    let ghost s = bones@;
    let n = bones.len();
    let mut i: usize = 0;
    while i < n
        invariant
            n == s.len(),
            bones@ == s,
            i <= n,
            forall|k: int| 0 <= k < i ==> #[trigger] s[k].id >= 0,
            forall|a: int, b: int|
                0 <= a < i && 0 <= b < i && a != b ==> #[trigger] s[a].id != #[trigger] s[b].id,
        decreases n - i,
    {
        if bones[i].id < 0 {
            return false;
        }
        let mut j: usize = 0;
        while j < i
            invariant
                n == s.len(),
                bones@ == s,
                j <= i < n,
                forall|b: int| 0 <= b < j ==> s[b].id != s[i as int].id,
            decreases i - j,
        {
            if bones[j].id == bones[i].id {
                return false;
            }
            j += 1;
        }
        i += 1;
    }
    assert(unique_ids(s));
    let mut i: usize = 0;
    while i < n
        invariant
            n == s.len(),
            bones@ == s,
            i <= n,
            n <= i32::MAX,
            unique_ids(s),
            forall|k: int| 0 <= k < i && s[k].parent_id != ROOT ==> #[trigger] parent_before(s, k),
            forall|j: int, k: int| 0 <= k < i && #[trigger] parent_at(s, j, k) ==> j < k,
            forall|j: int, m: int, k: int|
                0 <= k < i && j < m < k && #[trigger] parent_at(s, j, k) ==> #[trigger] above(s, j, m),
        decreases n - i,
    {
        if bones[i].parent_id != ROOT {
            let p = find_bone_idx(bones, bones[i].parent_id);
            if p < 0 || p as usize >= i {
                proof {
                    if parent_before(s, i as int) {
                        let q = choose|q: int| 0 <= q < i && #[trigger] parent_at(s, q, i as int);
                    }
                }
                return false;
            }
            let mut m: usize = p as usize + 1;
            while m < i
                invariant
                    n == s.len(),
                    bones@ == s,
                    0 <= p < m <= i < n,
                    n <= i32::MAX,
                    unique_ids(s),
                    s[p as int].id == s[i as int].parent_id,
                    forall|x: int| p < x < m ==> #[trigger] above(s, p as int, x),
                decreases i - m,
            {
                if bones[m].parent_id == ROOT {
                    proof {
                        assert(parent_at(s, p as int, i as int));
                        assert(!above(s, p as int, m as int));
                    }
                    return false;
                }
                let q = find_bone_idx(bones, bones[m].parent_id);
                if q >= 0 && q < p {
                    proof {
                        assert(parent_at(s, p as int, i as int));
                        assert(parent_at(s, q as int, m as int));
                        assert(!above(s, p as int, m as int));
                    }
                    return false;
                }
                proof {
                    assert forall|y: int| #[trigger] parent_at(s, y, m as int) implies p <= y by {
                        if q < 0 {
                        } else {
                            assert(s[y].id == s[q as int].id);
                        }
                    }
                }
                m += 1;
            }
            proof {
                assert(parent_at(s, p as int, i as int));
                assert forall|j: int, k: int| 0 <= k < i + 1 && #[trigger] parent_at(s, j, k) implies j < k by {
                    if k == i {
                        assert(s[j].id == s[p as int].id);
                    }
                }
                assert forall|j: int, x: int, k: int|
                    0 <= k < i + 1 && j < x < k && #[trigger] parent_at(s, j, k) implies #[trigger] above(
                    s,
                    j,
                    x,
                ) by {
                    if k == i {
                        assert(s[j].id == s[p as int].id);
                    }
                }
            }
        }
        i += 1;
    }
    true
}

} // verus!
