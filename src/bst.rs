//! A binary search tree whose nodes live in a storage region.
//!
//! The tree is plain and unbalanced. Its header sits at a fixed offset, the
//! tree's durable handle; nodes are allocated once, never moved and never
//! freed, and link to each other by offset.

use core::cmp::Ordering;
use crate::codec::{overwrite, Codec, Key};
use crate::header::{Header, HEADER_LEN};
use crate::node::{node_len, widths_fit, Node};
use crate::storage::{read_record, storage_ok, write_record, Error, Offset, Storage};
use vstd::prelude::*;

verus! {

/// The shape of a stored tree: each branch records its node's offset.
pub enum Tree<K, V> {
    Leaf,
    Branch { off: Offset, key: K, value: V, left: Box<Tree<K, V>>, right: Box<Tree<K, V>> },
}

impl<K, V> Tree<K, V> {
    /// Offset of the root node, 0 for the empty tree.
    pub open spec fn root(self) -> Offset {
        match self {
            Tree::Leaf => 0,
            Tree::Branch { off, .. } => off,
        }
    }

    pub open spec fn size(self) -> nat
        decreases self,
    {
        match self {
            Tree::Leaf => 0,
            Tree::Branch { left, right, .. } => 1 + left.size() + right.size(),
        }
    }

    /// Offsets of all nodes.
    pub open spec fn offsets(self) -> Set<Offset>
        decreases self,
    {
        match self {
            Tree::Leaf => Set::empty(),
            Tree::Branch { off, left, right, .. } => left.offsets().union(right.offsets()).insert(off),
        }
    }

    /// The key-value pairs held.
    pub open spec fn map(self) -> Map<K, V>
        decreases self,
    {
        match self {
            Tree::Leaf => Map::empty(),
            Tree::Branch { key, value, left, right, .. } => left.map().union_prefer_right(
                right.map(),
            ).insert(key, value),
        }
    }

    /// The keys in in-order traversal.
    pub open spec fn inorder(self) -> Seq<K>
        decreases self,
    {
        match self {
            Tree::Leaf => Seq::empty(),
            Tree::Branch { key, left, right, .. } => left.inorder() + seq![key] + right.inorder(),
        }
    }
}

/// The value at `k`, if any.
pub open spec fn lookup<K, V>(m: Map<K, V>, k: K) -> Option<V> {
    if m.contains_key(k) {
        Some(m[k])
    } else {
        None
    }
}

/// The node that the bytes at `off` decode to.
pub open spec fn node_at<K: Codec, V: Codec>(mem: Seq<u8>, off: Offset) -> Node<K, V> {
    Node::<K, V>::decoding(mem.subrange(off as int, off + node_len::<K, V>()))
}

/// `mem` holds the tree `t`: every node decodes to its branch, with the
/// children's offsets as links, and keys are ordered: smaller to the left,
/// greater to the right. No node appears twice.
pub open spec fn tree_wf<K: Key, V: Codec>(mem: Seq<u8>, t: Tree<K, V>) -> bool
    decreases t,
{
    match t {
        Tree::Leaf => true,
        Tree::Branch { off, key, value, left, right } => {
            &&& off != 0
            &&& off + node_len::<K, V>() <= mem.len()
            &&& node_at::<K, V>(mem, off) == (Node { left: left.root(), right: right.root(), key, value })
            &&& tree_wf(mem, *left)
            &&& tree_wf(mem, *right)
            &&& forall|k: K| #[trigger] left.map().contains_key(k) ==> k.rank() < key.rank()
            &&& forall|k: K| #[trigger] right.map().contains_key(k) ==> key.rank() < k.rank()
            &&& !left.offsets().contains(off)
            &&& !right.offsets().contains(off)
            &&& left.offsets().disjoint(right.offsets())
        },
    }
}

/// Byte `i` lies outside every node of `s`.
pub open spec fn apart(i: int, s: Set<Offset>, nl: nat) -> bool {
    forall|p: Offset| #[trigger] s.contains(p) ==> i < p || p + nl <= i
}

/// The nodes of `t` lie below the allocation mark `used`, clear of the
/// header at `h` and of each other.
pub open spec fn placed<K: Codec, V: Codec>(t: Tree<K, V>, used: nat, h: Offset) -> bool {
    let nl = node_len::<K, V>();
    &&& forall|o: Offset| #[trigger]
        t.offsets().contains(o) ==> o + nl <= used && (o + nl <= h || h + HEADER_LEN <= o)
    &&& forall|o1: Offset, o2: Offset|
        #![trigger t.offsets().contains(o1), t.offsets().contains(o2)]
        t.offsets().contains(o1) && t.offsets().contains(o2) && o1 != o2 ==> o1 + nl <= o2 || o2
            + nl <= o1
}

/// `m2` agrees with `m1` on every byte below `limit` that lies outside the
/// nodes of `s` and outside the `hl` bytes from `h`.
pub open spec fn kept(
    m1: Seq<u8>,
    m2: Seq<u8>,
    s: Set<Offset>,
    nl: nat,
    limit: nat,
    h: int,
    hl: nat,
) -> bool {
    &&& m2.len() == m1.len()
    &&& forall|i: int|
        0 <= i < m1.len() && i < limit && apart(i, s, nl) && (i < h || h + hl <= i) ==> #[trigger] m2[i]
            == m1[i]
}

/// The offsets of a well-formed tree are non-null and its nodes fit.
proof fn lemma_offsets<K: Key, V: Codec>(mem: Seq<u8>, t: Tree<K, V>)
    requires
        tree_wf(mem, t),
    ensures
        forall|o: Offset| #[trigger]
            t.offsets().contains(o) ==> o != 0 && o + node_len::<K, V>() <= mem.len(),
        t.root() != 0 <==> t is Branch,
        t is Branch ==> t.offsets().contains(t.root()),
        t.offsets().finite(),
        t.offsets().len() == t.size(),
    decreases t,
{
    if let Tree::Branch { off, left, right, .. } = t {
        lemma_offsets(mem, *left);
        lemma_offsets(mem, *right);
        vstd::set_lib::lemma_set_disjoint_lens(left.offsets(), right.offsets());
    }
}

/// A tree stays well formed where its nodes' bytes are unchanged.
proof fn lemma_frame<K: Key, V: Codec>(m1: Seq<u8>, m2: Seq<u8>, t: Tree<K, V>)
    requires
        tree_wf(m1, t),
        m2.len() == m1.len(),
        forall|o: Offset| #[trigger]
            t.offsets().contains(o) ==> m2.subrange(o as int, o + node_len::<K, V>())
                == m1.subrange(o as int, o + node_len::<K, V>()),
    ensures
        tree_wf(m2, t),
    decreases t,
{
    if let Tree::Branch { off, left, right, .. } = t {
        assert(t.offsets().contains(off));
        assert forall|o: Offset| #[trigger] left.offsets().contains(o) implies t.offsets().contains(o) by {}
        assert forall|o: Offset| #[trigger] right.offsets().contains(o) implies t.offsets().contains(o) by {}
        lemma_frame(m1, m2, *left);
        lemma_frame(m1, m2, *right);
    }
}

/// Keeping the bytes outside a set of nodes keeps the nodes that lie
/// outside it.
proof fn lemma_kept_range(
    m1: Seq<u8>,
    m2: Seq<u8>,
    s: Set<Offset>,
    nl: nat,
    limit: nat,
    h: int,
    hl: nat,
    o: int,
    n: nat,
)
    requires
        kept(m1, m2, s, nl, limit, h, hl),
        0 <= o,
        o + n <= m1.len(),
        o + n <= limit,
        forall|p: Offset| #[trigger] s.contains(p) ==> o + n <= p || p + nl <= o,
        o + n <= h || h + hl <= o,
    ensures
        m2.subrange(o, o + n) == m1.subrange(o, o + n),
{
    assert forall|i: int| o <= i < o + n implies m2[i] == m1[i] by {
        assert(apart(i, s, nl));
    }
    assert(m2.subrange(o, o + n) =~= m1.subrange(o, o + n));
}

/// What a write leaves in place and what it puts in.
proof fn lemma_overwrite(m: Seq<u8>, w: int, d: Seq<u8>)
    requires
        0 <= w,
        w + d.len() <= m.len(),
    ensures
        overwrite(m, w, d).len() == m.len(),
        overwrite(m, w, d).subrange(w, w + d.len()) == d,
        forall|i: int| 0 <= i < m.len() && (i < w || w + d.len() <= i) ==> #[trigger] overwrite(m, w, d)[i] == m[i],
{
    assert(overwrite(m, w, d).subrange(w, w + d.len()) =~= d);
}

/// A node reads back as written.
proof fn lemma_node_written<K: Codec, V: Codec>(m: Seq<u8>, off: Offset, n: Node<K, V>)
    requires
        widths_fit::<K, V>(),
        off + node_len::<K, V>() <= m.len(),
    ensures
        node_at::<K, V>(overwrite(m, off as int, n.encoding()), off) == n,
        overwrite(m, off as int, n.encoding()).len() == m.len(),
        forall|i: int| 0 <= i < m.len() && (i < off || off + node_len::<K, V>() <= i)
            ==> #[trigger] overwrite(m, off as int, n.encoding())[i] == m[i],
{
    Node::<K, V>::lemma_round_trip(n);
    lemma_overwrite(m, off as int, n.encoding());
}

/// In a well-formed branch, a key is found in the left subtree if smaller,
/// in the right one if greater, and at the node if of equal rank.
proof fn lemma_lookup_step<K: Key, V: Codec>(mem: Seq<u8>, t: Tree<K, V>, k: K)
    requires
        tree_wf(mem, t),
        t is Branch,
    ensures
        k.rank() < t->key.rank() ==> lookup(t.map(), k) == lookup(t->left.map(), k),
        k.rank() > t->key.rank() ==> lookup(t.map(), k) == lookup(t->right.map(), k),
        k.rank() == t->key.rank() ==> k == t->key && lookup(t.map(), k) == Some(t->value),
{
    K::lemma_rank_injective(k, t->key);
    if k.rank() < t->key.rank() {
        assert(!t->right.map().contains_key(k));
    }
    if k.rank() > t->key.rank() {
        assert(!t->left.map().contains_key(k));
    }
}

/// The subtree of `t` on the chosen side.
pub open spec fn child_of<K, V>(t: Tree<K, V>, go_left: bool) -> Tree<K, V> {
    if go_left {
        *t->left
    } else {
        *t->right
    }
}

/// The subtree of `t` on the other side.
pub open spec fn sibling_of<K, V>(t: Tree<K, V>, go_left: bool) -> Tree<K, V> {
    if go_left {
        *t->right
    } else {
        *t->left
    }
}

/// `t` with the subtree on the chosen side replaced by `c`.
pub open spec fn with_child<K, V>(t: Tree<K, V>, go_left: bool, c: Tree<K, V>) -> Tree<K, V> {
    if go_left {
        Tree::Branch { off: t->off, key: t->key, value: t->value, left: Box::new(c), right: t->right }
    } else {
        Tree::Branch { off: t->off, key: t->key, value: t->value, left: t->left, right: Box::new(c) }
    }
}

/// The node of `t` with the link on the chosen side set to `c`.
pub open spec fn relinked<K, V>(t: Tree<K, V>, go_left: bool, c: Offset) -> Node<K, V> {
    if go_left {
        Node { left: c, right: t->right.root(), key: t->key, value: t->value }
    } else {
        Node { left: t->left.root(), right: c, key: t->key, value: t->value }
    }
}

/// Putting into a branch, on the side where `k` belongs, a subtree that
/// holds one more entry `k` keeps the tree well formed and adds the entry.
proof fn lemma_with_child<K: Key, V: Codec>(
    mem: Seq<u8>,
    m: Seq<u8>,
    t: Tree<K, V>,
    go_left: bool,
    c2: Tree<K, V>,
    k: K,
    v: V,
    fresh: Offset,
)
    requires
        tree_wf(mem, t),
        t is Branch,
        m.len() == mem.len(),
        tree_wf(m, c2),
        tree_wf(m, sibling_of(t, go_left)),
        node_at::<K, V>(m, t->off) == relinked(t, go_left, c2.root()),
        c2.map() == child_of(t, go_left).map().insert(k, v),
        go_left ==> k.rank() < t->key.rank(),
        !go_left ==> k.rank() > t->key.rank(),
        c2.offsets() == child_of(t, go_left).offsets() || c2.offsets() == child_of(
            t,
            go_left,
        ).offsets().insert(fresh),
        !t.offsets().contains(fresh),
    ensures
        tree_wf(m, with_child(t, go_left, c2)),
        with_child(t, go_left, c2).map() == t.map().insert(k, v),
        c2.offsets() == child_of(t, go_left).offsets() ==> with_child(t, go_left, c2).offsets()
            == t.offsets(),
        c2.offsets() != child_of(t, go_left).offsets() ==> with_child(t, go_left, c2).offsets()
            == t.offsets().insert(fresh),
        with_child(t, go_left, c2).size() == t.size() - child_of(t, go_left).size() + c2.size(),
        with_child(t, go_left, c2).root() == t.root(),
        c2.inorder() == child_of(t, go_left).inorder() ==> with_child(t, go_left, c2).inorder()
            == t.inorder(),
{
    let t2 = with_child(t, go_left, c2);
    K::lemma_rank_injective(k, t->key);
    if go_left {
        assert(!t->right.map().contains_key(k));
    } else {
        assert(!t->left.map().contains_key(k));
    }
    assert(t2.map() =~= t.map().insert(k, v));
    if c2.offsets() == child_of(t, go_left).offsets() {
        assert(t2.offsets() =~= t.offsets());
    } else {
        assert(t2.offsets() =~= t.offsets().insert(fresh));
    }
}

/// Putting into a branch, on the side where `k` belongs, a subtree that
/// holds the same entries but `k` keeps the tree well formed and takes the
/// entry out.
proof fn lemma_with_child_removed<K: Key, V: Codec>(
    mem: Seq<u8>,
    m: Seq<u8>,
    t: Tree<K, V>,
    go_left: bool,
    c2: Tree<K, V>,
    k: K,
)
    requires
        tree_wf(mem, t),
        t is Branch,
        m.len() == mem.len(),
        tree_wf(m, c2),
        tree_wf(m, sibling_of(t, go_left)),
        node_at::<K, V>(m, t->off) == relinked(t, go_left, c2.root()),
        c2.map() == child_of(t, go_left).map().remove(k),
        go_left ==> k.rank() < t->key.rank(),
        !go_left ==> k.rank() > t->key.rank(),
        c2.offsets().subset_of(child_of(t, go_left).offsets()),
        c2.size() == child_of(t, go_left).size() - if child_of(t, go_left).map().contains_key(k) { 1int } else { 0int },
    ensures
        tree_wf(m, with_child(t, go_left, c2)),
        with_child(t, go_left, c2).map() == t.map().remove(k),
        with_child(t, go_left, c2).offsets().subset_of(t.offsets()),
        with_child(t, go_left, c2).size() == t.size() - if t.map().contains_key(k) { 1int } else { 0int },
        with_child(t, go_left, c2).root() == t.root(),
{
    let t2 = with_child(t, go_left, c2);
    K::lemma_rank_injective(k, t->key);
    if go_left {
        assert(!t->right.map().contains_key(k));
    } else {
        assert(!t->left.map().contains_key(k));
    }
    assert(t2.map() =~= t.map().remove(k));
    assert(t.map().contains_key(k) == child_of(t, go_left).map().contains_key(k));
}

/// `t` with the entry `sk`, `sv` at its root and `r2` as its right subtree.
pub open spec fn promoted<K, V>(t: Tree<K, V>, r2: Tree<K, V>, sk: K, sv: V) -> Tree<K, V> {
    Tree::Branch { off: t->off, key: sk, value: sv, left: t->left, right: Box::new(r2) }
}

/// Moving the least entry of the right subtree into a branch, in place of
/// the branch's own entry, keeps the tree well formed and takes out the
/// branch's key.
proof fn lemma_successor<K: Key, V: Codec>(
    mem: Seq<u8>,
    m: Seq<u8>,
    t: Tree<K, V>,
    r2: Tree<K, V>,
    sk: K,
    sv: V,
)
    requires
        tree_wf(mem, t),
        t is Branch,
        m.len() == mem.len(),
        tree_wf(m, *t->left),
        tree_wf(m, r2),
        node_at::<K, V>(m, t->off) == (Node { left: t->left.root(), right: r2.root(), key: sk, value: sv }),
        t->right.map().contains_key(sk),
        t->right.map()[sk] == sv,
        forall|k: K| #[trigger] t->right.map().contains_key(k) ==> sk.rank() <= k.rank(),
        r2.map() == t->right.map().remove(sk),
        r2.offsets().subset_of(t->right.offsets()),
        r2.size() + 1 == t->right.size(),
    ensures
        tree_wf(m, promoted(t, r2, sk, sv)),
        promoted(t, r2, sk, sv).map() == t.map().remove(t->key),
        promoted(t, r2, sk, sv).offsets().subset_of(t.offsets()),
        promoted(t, r2, sk, sv).size() + 1 == t.size(),
{
    let t2 = promoted(t, r2, sk, sv);
    assert(t->key.rank() < sk.rank());
    assert forall|k: K| #[trigger] r2.map().contains_key(k) implies sk.rank() < k.rank() by {
        K::lemma_rank_injective(k, sk);
    }
    assert forall|k: K| #[trigger] t->left.map().contains_key(k) implies k.rank() < sk.rank() by {}
    assert(!t->left.map().contains_key(sk));
    assert(!t->left.map().contains_key(t->key));
    assert(!t->right.map().contains_key(t->key));
    assert(t2.map() =~= t.map().remove(t->key));
    assert(t2.offsets().subset_of(t.offsets()));
}

/// Taking out a branch's entry, where one side is empty, leaves the other
/// side.
proof fn lemma_splice<K: Key, V: Codec>(mem: Seq<u8>, t: Tree<K, V>)
    requires
        tree_wf(mem, t),
        t is Branch,
        (*t->left) is Leaf || (*t->right) is Leaf,
    ensures
        (*t->left) is Leaf ==> t->right.map() == t.map().remove(t->key) && t->right.offsets().subset_of(t.offsets()) && t->right.size() + 1 == t.size(),
        (*t->right) is Leaf ==> t->left.map() == t.map().remove(t->key) && t->left.offsets().subset_of(t.offsets()) && t->left.size() + 1 == t.size(),
{
    assert(!t->left.map().contains_key(t->key));
    assert(!t->right.map().contains_key(t->key));
    assert(t->left.offsets().subset_of(t.offsets()));
    assert(t->right.offsets().subset_of(t.offsets()));
    if (*t->left) is Leaf {
        assert(t->left.size() == 0);
        assert(t->left.map() =~= Map::<K, V>::empty());
        assert(t->right.map() =~= t.map().remove(t->key));
    }
    if (*t->right) is Leaf {
        assert(t->right.size() == 0);
        assert(t->right.map() =~= Map::<K, V>::empty());
        assert(t->left.map() =~= t.map().remove(t->key));
    }
}

/// A byte outside a set of nodes is outside any part of it.
proof fn lemma_apart_subset(i: int, s1: Set<Offset>, s2: Set<Offset>, nl: nat)
    requires
        apart(i, s2, nl),
        s1.subset_of(s2),
    ensures
        apart(i, s1, nl),
{
    assert forall|p: Offset| #[trigger] s1.contains(p) implies i < p || p + nl <= i by {
        assert(s2.contains(p));
    }
}

/// Keeping the bytes outside part `sub` of a tree, then writing one node
/// `off` of the tree, keeps every byte outside the whole tree `s`.
proof fn lemma_kept_widen(
    m0: Seq<u8>,
    m1: Seq<u8>,
    m2: Seq<u8>,
    sub: Set<Offset>,
    s: Set<Offset>,
    nl: nat,
    off: Offset,
)
    requires
        kept(m0, m1, sub, nl, m0.len(), 0, 0),
        sub.subset_of(s),
        s.contains(off),
        m2.len() == m1.len(),
        forall|i: int| 0 <= i < m1.len() && (i < off || off + nl <= i) ==> #[trigger] m2[i] == m1[i],
    ensures
        kept(m0, m2, s, nl, m0.len(), 0, 0),
{
    assert forall|i: int|
        0 <= i < m0.len() && i < m0.len() && apart(i, s, nl) && (i < 0 || 0 + 0nat <= i) implies #[trigger] m2[i]
            == m0[i] by {
        lemma_apart_subset(i, sub, s, nl);
        assert(m1[i] == m0[i]);
    }
}

/// The placement of a tree holds of any tree whose nodes are among its own.
proof fn lemma_placed_subset<K: Codec, V: Codec>(t: Tree<K, V>, t2: Tree<K, V>, used: nat, h: Offset)
    requires
        placed(t, used, h),
        t2.offsets().subset_of(t.offsets()),
    ensures
        placed(t2, used, h),
{
    assert forall|o1: Offset, o2: Offset|
        t2.offsets().contains(o1) && t2.offsets().contains(o2) && o1 != o2 implies o1 + node_len::<K, V>() <= o2 || o2 + node_len::<K, V>() <= o1 by {
        assert(t.offsets().contains(o1));
        assert(t.offsets().contains(o2));
    }
}

/// Reads the node at `offset`.
fn read_node<S: Storage, K: Codec, V: Codec>(s: &S, offset: Offset) -> (r: Result<Node<K, V>, Error>)
    requires
        storage_ok(s),
        widths_fit::<K, V>(),
    ensures
        r is Ok <==> offset + node_len::<K, V>() <= s.region().len(),
        match r {
            Ok(n) => n == node_at::<K, V>(s.region(), offset),
            Err(e) => e == Error::StorageBounds,
        },
{
    let bytes = s.sread(offset, Node::<K, V>::packed_len())?;
    Ok(Node::from_bytes(bytes.as_slice()))
}

/// Writes `n` at `offset`.
fn write_node<S: Storage, K: Codec, V: Codec>(s: &mut S, offset: Offset, n: &Node<K, V>) -> (r: Result<(), Error>)
    requires
        storage_ok(old(s)),
        widths_fit::<K, V>(),
    ensures
        storage_ok(final(s)),
        final(s).used() == old(s).used(),
        r is Ok <==> offset + node_len::<K, V>() <= old(s).region().len(),
        r is Ok ==> final(s).region() == overwrite(old(s).region(), offset as int, n.encoding()),
        r is Err ==> final(s).region() == old(s).region() && r == Err::<(), Error>(Error::StorageBounds),
{
    proof {
        Node::<K, V>::lemma_round_trip(*n);
    }
    let len = Node::<K, V>::packed_len();
    let mut buf: Vec<u8> = Vec::new();
    let mut i: u32 = 0;
    while i < len
        invariant
            i <= len,
            buf@.len() == i,
        decreases len - i,
    {
        buf.push(0u8);
        i = i + 1;
    }
    n.to_bytes(buf.as_mut_slice());
    s.swrite(offset, buf.as_slice())
}

/// A handle on a search tree stored in a region.
///
/// It caches the tree's header, which every change writes through to the
/// region before it returns. Two live handles on the same header must not
/// both change the tree.
pub struct StorageBST<K, V> {
    header_offset: Offset,
    header: Header,
    tree: Ghost<Tree<K, V>>,
}

impl<K: Key, V: Codec> StorageBST<K, V> {
    /// The region holds at `h` the header `header` of a tree of shape `t`
    /// with keys and values of this handle's types.
    pub open spec fn holds(mem: Seq<u8>, used: nat, h: Offset, header: Header, t: Tree<K, V>) -> bool {
        &&& h + HEADER_LEN <= mem.len()
        &&& h + HEADER_LEN <= used
        &&& Header::decoding(mem.subrange(h as int, h + HEADER_LEN)) == header
        &&& header.key_len == K::width()
        &&& header.value_len == V::width()
        &&& tree_wf(mem, t)
        &&& header.root_offset == t.root()
        &&& header.items == t.size()
        &&& placed(t, used, h)
        // every node took at least one byte of the allocation mark, so the
        // count stays below it and one more node cannot overflow `items`
        &&& t.size() < used
    }

    /// The handle matches the region: its cached header is the stored one,
    /// and the stored tree is well formed.
    pub closed spec fn wf<S: Storage>(self, s: &S) -> bool {
        &&& storage_ok(s)
        &&& widths_fit::<K, V>()
        &&& Self::holds(s.region(), s.used(), self.header_offset, self.header, self.tree@)
    }

    /// The key-value pairs of the tree.
    pub closed spec fn view(self) -> Map<K, V> {
        self.tree@.map()
    }

    /// The keys of the tree in in-order traversal.
    pub closed spec fn keys(self) -> Seq<K> {
        self.tree@.inorder()
    }

    /// Offsets of the nodes reachable from the root.
    pub closed spec fn footprint(self) -> Set<Offset> {
        self.tree@.offsets()
    }

    pub closed spec fn spec_offset(self) -> Offset {
        self.header_offset
    }

    /// The item count of the cached header.
    pub closed spec fn spec_len(self) -> nat {
        self.header.items as nat
    }

    /// The cached header.
    pub closed spec fn header_view(self) -> Header {
        self.header
    }

    /// The two handles' trees have the same nodes, keys and links.
    pub closed spec fn same_shape_as(self, other: Self) -> bool {
        same_shape(self.tree@, other.tree@)
    }

    /// A well-formed handle mirrors the header stored at its offset: the
    /// stored header is the cached one, records the widths of `K` and `V`,
    /// counts the entries, and has a null root exactly when the tree is
    /// empty.
    pub proof fn lemma_stored_header<S: Storage>(self, s: &S)
        requires
            self.wf(s),
        ensures
            self.spec_offset() + HEADER_LEN <= s.region().len(),
            stored_header(s.region(), self.spec_offset()) == self.header_view(),
            header_matches::<K, V>(s.region(), self.spec_offset()),
            self.header_view().items == self.spec_len(),
            self.header_view().key_len == K::width(),
            self.header_view().value_len == V::width(),
            (self.header_view().root_offset == 0) == (self.spec_len() == 0),
            self.spec_len() == self.view().len(),
    {
        lemma_offsets(s.region(), self.tree@);
        lemma_map_len(s.region(), self.tree@);
    }

    /// A well-formed handle counts exactly the entries of its tree.
    pub proof fn lemma_len<S: Storage>(self, s: &S)
        requires
            self.wf(s),
        ensures
            self.spec_len() == self.view().len(),
            self.view().dom().finite(),
    {
        lemma_map_len(s.region(), self.tree@);
    }

    /// Creates an empty tree: allocates its header and writes it.
    ///
    /// Fails, with nothing written, when the region has no room for a header.
    pub fn create<S: Storage>(storage: &mut S) -> (r: Result<Self, Error>)
        requires
            storage_ok(old(storage)),
            widths_fit::<K, V>(),
        ensures
            storage_ok(final(storage)),
            final(storage).region().len() == old(storage).region().len(),
            r is Ok <==> old(storage).used() + HEADER_LEN <= old(storage).region().len(),
            match r {
                Ok(t) => {
                    &&& t.wf(final(storage))
                    &&& t.view() == Map::<K, V>::empty()
                    &&& t.spec_len() == 0
                    &&& t.spec_offset() == old(storage).used()
                    &&& t.header_view() == (Header { items: 0, key_len: K::width() as u16, value_len: V::width() as u16, root_offset: 0 })
                    &&& stored_header(final(storage).region(), t.spec_offset()) == t.header_view()
                    &&& final(storage).used() == old(storage).used() + HEADER_LEN
                },
                Err(e) => {
                    &&& e == Error::AllocationExhausted
                    &&& final(storage).region() == old(storage).region()
                    &&& final(storage).used() == old(storage).used()
                },
            },
    {
        let header_offset = storage.allocate(HEADER_LEN)?;
        let header = Header::new::<K, V>();
        let ghost m0 = storage.region();
        let w = write_record(storage, header_offset, &header);
        proof {
            Header::lemma_round_trip(header);
            lemma_overwrite(m0, header_offset as int, header.encoding());
        }
        match w {
            Ok(()) => {},
            Err(e) => {
                return Err(e);
            },
        }
        Ok(StorageBST { header_offset, header, tree: Ghost(Tree::Leaf) })
    }

    /// Opens the tree whose header is at `offset`.
    ///
    /// Fails with `StorageBounds` when no header fits there, and with
    /// `TypeMismatch` when the header records other key or value widths.
    /// Where the region holds a well-formed tree at `offset`, the handle is
    /// well formed, and it sees what every other handle on it sees.
    pub fn load<S: Storage>(storage: &S, offset: Offset) -> (r: Result<Self, Error>)
        requires
            storage_ok(storage),
            widths_fit::<K, V>(),
        ensures
            match r {
                Ok(t) => {
                    &&& offset + HEADER_LEN <= storage.region().len()
                    &&& header_matches::<K, V>(storage.region(), offset)
                    &&& t.spec_offset() == offset
                    &&& t.header_view() == stored_header(storage.region(), offset)
                    &&& t.spec_len() == stored_header(storage.region(), offset).items
                    &&& (exists|hd: Header, tr: Tree<K, V>|
                        Self::holds(storage.region(), storage.used(), offset, hd, tr)) ==> t.wf(
                        storage,
                    )
                    &&& forall|b: Self|
                        b.wf(storage) && b.spec_offset() == offset ==> t.view() == b.view()
                            && t.spec_len() == b.spec_len() && t.keys() == b.keys()
                },
                Err(e) => e == if offset + HEADER_LEN > storage.region().len() {
                    Error::StorageBounds
                } else {
                    Error::TypeMismatch
                },
            },
            forall|b: Self| #[trigger] b.wf(storage) && b.spec_offset() == offset ==> r is Ok && r->Ok_0.wf(storage),
            r is Ok <==> offset + HEADER_LEN <= storage.region().len() && header_matches::<K, V>(
                storage.region(),
                offset,
            ),
    {
        let header: Header = read_record(storage, offset)?;
        if header.key_len as u32 != K::packed_len() || header.value_len as u32 != V::packed_len() {
            return Err(Error::TypeMismatch);
        }
        let ghost mem = storage.region();
        let ghost used = storage.used();
        let ghost tree = choose|tr: Tree<K, V>| Self::holds(mem, used, offset, header, tr);
        proof {
            if exists|hd: Header, tr: Tree<K, V>| Self::holds(mem, used, offset, hd, tr) {
                let (hd, tr) = choose|hd: Header, tr: Tree<K, V>| Self::holds(mem, used, offset, hd, tr);
                assert(Self::holds(mem, used, offset, header, tr));
            }
            assert forall|b: Self| b.wf(storage) && b.spec_offset() == offset implies tree == b.tree@ && header == b.header && Self::holds(mem, used, offset, header, tree) by {
                assert(Self::holds(mem, used, offset, header, b.tree@));
                lemma_unique(mem, tree, b.tree@);
            }
        }
        Ok(StorageBST { header_offset: offset, header, tree: Ghost(tree) })
    }

    /// Returns the offset of the header, the tree's durable handle.
    pub fn offset(&self) -> (r: Offset)
        ensures
            r == self.spec_offset(),
    {
        self.header_offset
    }

    /// Returns the number of entries.
    pub fn len(&self) -> (r: u32)
        ensures
            r == self.spec_len(),
    {
        self.header.items
    }

    /// Returns `true` if the tree holds no entry.
    pub fn is_empty(&self) -> (r: bool)
        ensures
            r == (self.spec_len() == 0),
    {
        self.len() == 0
    }

    /// Returns the value stored for `key`, if any.
    pub fn find<S: Storage>(&self, storage: &S, key: &K) -> (r: Result<Option<V>, Error>)
        requires
            self.wf(storage),
        ensures
            r == Ok::<Option<V>, Error>(lookup(self.view(), *key)),
    {
        if self.header.items == 0 {
            return Ok(None);
        }
        let ghost mem = storage.region();
        let mut offset = self.header.root_offset;
        let ghost mut cur = self.tree@;
        proof {
            lemma_offsets(mem, cur);
        }
        loop
            invariant
                self.wf(storage),
                mem == storage.region(),
                tree_wf(mem, cur),
                cur is Branch,
                cur.root() == offset,
                lookup(self.view(), *key) == lookup(cur.map(), *key),
            decreases cur.size(),
        {
            let node: Node<K, V> = match read_node(storage, offset) {
                Ok(n) => n,
                Err(e) => {
                    proof {
                        lemma_offsets(mem, cur);
                    }
                    return Err(e);
                },
            };
            proof {
                lemma_lookup_step(mem, cur, *key);
            }
            match key.compare(&node.key) {
                Ordering::Less => {
                    proof {
                        lemma_offsets(mem, *cur->left);
                    }
                    if node.left == 0 {
                        return Ok(None);
                    }
                    offset = node.left;
                    proof {
                        cur = *cur->left;
                    }
                },
                Ordering::Greater => {
                    proof {
                        lemma_offsets(mem, *cur->right);
                    }
                    if node.right == 0 {
                        return Ok(None);
                    }
                    offset = node.right;
                    proof {
                        cur = *cur->right;
                    }
                },
                Ordering::Equal => {
                    return Ok(Some(node.value));
                },
            }
        }
    }

    /// Inserts `key` with `value` below the node at `offset`, the root of
    /// the subtree `t`, and returns the value it had.
    #[verifier::rlimit(80)]
    #[verifier::spinoff_prover]
    fn insert_below<S: Storage>(
        &mut self,
        storage: &mut S,
        offset: Offset,
        Ghost(t): Ghost<Tree<K, V>>,
        key: K,
        value: V,
    ) -> (r: Result<(Option<V>, Ghost<Tree<K, V>>), Error>)
        requires
            old(self).wf(old(storage)),
            tree_wf(old(storage).region(), t),
            t is Branch,
            t.root() == offset,
            t.offsets().subset_of(old(self).tree@.offsets()),
        ensures
            storage_ok(final(storage)),
            final(self).header_offset == old(self).header_offset,
            final(self).tree == old(self).tree,
            match r {
                Ok((res, t2)) => {
                    let mem = old(storage).region();
                    let used = old(storage).used();
                    let h = old(self).header_offset;
                    let present = t.map().contains_key(key);
                    &&& res == lookup(t.map(), key)
                    &&& t2@.map() == t.map().insert(key, value)
                    &&& tree_wf(final(storage).region(), t2@)
                    &&& t2@.root() == offset
                    &&& t2@.size() == t.size() + if present { 0nat } else { 1nat }
                    &&& present ==> t2@.inorder() == t.inorder() && same_shape(t2@, t)
                    &&& present ==> t2@.offsets() == t.offsets() && final(storage).used() == used
                        && final(self).header == old(self).header
                    &&& !present ==> t2@.offsets() == t.offsets().insert(used as Offset)
                        && final(storage).used() == used + node_len::<K, V>()
                        && used + node_len::<K, V>() <= mem.len()
                        && final(self).header == (Header { items: (old(self).header.items + 1) as u32, ..old(self).header })
                    &&& Header::decoding(final(storage).region().subrange(h as int, h + HEADER_LEN)) == final(self).header
                    &&& kept(mem, final(storage).region(), t.offsets(), node_len::<K, V>(), used, h as int, HEADER_LEN as nat)
                },
                Err(e) => {
                    &&& e == Error::AllocationExhausted
                    &&& !t.map().contains_key(key)
                    &&& old(storage).used() + node_len::<K, V>() > old(storage).region().len()
                    &&& final(storage).region() == old(storage).region()
                    &&& final(storage).used() == old(storage).used()
                    &&& final(self).header == old(self).header
                },
            },
        decreases t.size(),
    {
        let ghost mem = storage.region();
        let ghost used = storage.used();
        let ghost whole = self.tree@;
        let ghost nl = node_len::<K, V>();
        let h = self.header_offset;
        proof {
            lemma_offsets(mem, t);
            lemma_lookup_step(mem, t, key);
            lemma_offsets(mem, *t->left);
            lemma_offsets(mem, *t->right);
        }
        let mut node: Node<K, V> = read_node(storage, offset)?;
        let ord = key.compare(&node.key);
        let go_left = match ord {
            Ordering::Less => true,
            _ => false,
        };
        if let Ordering::Equal = ord {
            let ghost v = value;
            let updated = Node { left: node.left, right: node.right, key: node.key, value };
            write_node(storage, offset, &updated)?;
            let ghost t2 = Tree::Branch { off: offset, key: t->key, value: v, left: t->left, right: t->right };
            proof {
                let m2 = storage.region();
                lemma_node_written(mem, offset, updated);
                assert(forall|o: Offset| #[trigger] t.offsets().contains(o) && o != offset ==> o + nl <= offset || offset + nl <= o);
                assert forall|o: Offset| #[trigger] t->left.offsets().contains(o) || t->right.offsets().contains(o) implies
                    m2.subrange(o as int, o + nl) == mem.subrange(o as int, o + nl) by {
                    assert(t.offsets().contains(o));
                    assert(m2.subrange(o as int, o + nl) =~= mem.subrange(o as int, o + nl));
                }
                lemma_frame(mem, m2, *t->left);
                lemma_frame(mem, m2, *t->right);
                assert(t2.map() =~= t.map().insert(key, value));
                assert(m2.subrange(h as int, h + HEADER_LEN) =~= mem.subrange(h as int, h + HEADER_LEN));
                Header::lemma_round_trip(self.header);
                assert(t2.offsets() =~= t.offsets());
                assert(t.offsets().contains(offset));
                assert forall|i: int| 0 <= i < mem.len() && i < used && apart(i, t.offsets(), nl) && (i < h || h + HEADER_LEN <= i) implies #[trigger] m2[i] == mem[i] by {
                    assert(t.offsets().contains(offset));
                }
                assert(t2.inorder() == t.inorder());
                assert(tree_wf(m2, t2));
                lemma_same_shape_refl(*t->left);
                lemma_same_shape_refl(*t->right);
            }
            return Ok((Some(node.value), Ghost(t2)));
        }
        let child = if go_left { node.left } else { node.right };
        let ghost sub = if go_left { *t->left } else { *t->right };
        let ghost other = if go_left { *t->right } else { *t->left };
        if child == 0 {
            let new_offset = storage.allocate(Node::<K, V>::packed_len())?;
            let ghost k = key;
            let ghost v = value;
            let new_node = Node::new(key, value);
            self.header.items = self.header.items + 1;
            write_record(storage, h, &self.header)?;
            let ghost m1 = storage.region();
            if go_left {
                node.left = new_offset;
            } else {
                node.right = new_offset;
            }
            write_node(storage, offset, &node)?;
            let ghost m2 = storage.region();
            write_node(storage, new_offset, &new_node)?;
            let ghost m3 = storage.region();
            let ghost leaf = Tree::Branch { off: new_offset, key: k, value: v, left: Box::new(Tree::Leaf), right: Box::new(Tree::Leaf) };
            let ghost t2 = with_child(t, go_left, leaf);
            proof {
                Header::lemma_round_trip(self.header);
                lemma_overwrite(mem, h as int, self.header.encoding());
                lemma_node_written(m1, offset, node);
                lemma_node_written(m2, new_offset, new_node);
                assert(forall|o: Offset| #[trigger] t.offsets().contains(o) ==> whole.offsets().contains(o));
                assert(t.offsets().contains(offset));
                assert forall|i: int| 0 <= i < mem.len() && i < used && apart(i, t.offsets(), nl) && (i < h || h + HEADER_LEN <= i) implies #[trigger] m3[i] == mem[i] by {
                    assert(t.offsets().contains(offset));
                }
                assert forall|o: Offset| #[trigger] other.offsets().contains(o) implies
                    m3.subrange(o as int, o + nl) == mem.subrange(o as int, o + nl) by {
                    assert(t.offsets().contains(o));
                    assert(whole.offsets().contains(o));
                    assert(o + nl <= offset || offset + nl <= o);
                    assert(m3.subrange(o as int, o + nl) =~= mem.subrange(o as int, o + nl));
                }
                lemma_frame(mem, m3, other);
                assert(m3.subrange(offset as int, offset + nl) =~= m2.subrange(offset as int, offset + nl));
                assert(node == relinked(t, go_left, new_offset));
                assert(tree_wf(m3, Tree::<K, V>::Leaf));
                assert(Tree::<K, V>::Leaf.offsets() =~= Set::<Offset>::empty());
                assert(leaf.offsets() =~= set![new_offset]);
                assert(sub.root() == 0);
                assert(sub is Leaf);
                assert(sub.offsets() =~= Set::<Offset>::empty());
                assert(leaf.map() =~= sub.map().insert(k, v));
                assert(tree_wf(m3, leaf));
                assert(leaf.offsets() =~= sub.offsets().insert(new_offset));
                assert(!t.offsets().contains(new_offset));
                lemma_with_child(mem, m3, t, go_left, leaf, k, v, new_offset);
                assert(m3.subrange(h as int, h + HEADER_LEN) =~= m1.subrange(h as int, h + HEADER_LEN));
            }
            return Ok((None, Ghost(t2)));
        }
        proof {
            assert(forall|o: Offset| #[trigger] sub.offsets().contains(o) ==> t.offsets().contains(o));
        }
        let (res, sub2) = self.insert_below(storage, child, Ghost(sub), key, value)?;
        let ghost m2 = storage.region();
        let ghost t2 = with_child(t, go_left, sub2@);
        proof {
            assert(t.offsets().contains(offset));
            assert(whole.offsets().contains(offset));
            assert(forall|o: Offset| #[trigger] t.offsets().contains(o) ==> whole.offsets().contains(o));
            lemma_kept_range(mem, m2, sub.offsets(), nl, used, h as int, HEADER_LEN as nat, offset as int, nl);
            assert forall|o: Offset| #[trigger] other.offsets().contains(o) implies
                m2.subrange(o as int, o + nl) == mem.subrange(o as int, o + nl) by {
                assert(t.offsets().contains(o));
                lemma_kept_range(mem, m2, sub.offsets(), nl, used, h as int, HEADER_LEN as nat, o as int, nl);
            }
            lemma_frame(mem, m2, other);
            assert(node_at::<K, V>(m2, offset) == node_at::<K, V>(mem, offset));
            assert(!t.offsets().contains(used as Offset));
            lemma_with_child(mem, m2, t, go_left, sub2@, key, value, used as Offset);
            if t.map().contains_key(key) {
                assert(sub.map().contains_key(key));
                lemma_same_shape_refl(other);
            }
            assert forall|i: int| 0 <= i < mem.len() && i < used && apart(i, t.offsets(), nl) && (i < h || h + HEADER_LEN <= i) implies #[trigger] m2[i] == mem[i] by {
                assert(apart(i, sub.offsets(), nl));
            }
        }
        Ok((res, Ghost(t2)))
    }

    /// Inserts `key` with `value` and returns the value the key had before.
    ///
    /// A present key has its value replaced in place; the shape of the tree
    /// and its count stay the same. A new key gets a new node, linked below
    /// the node where the search ended. Fails with `AllocationExhausted`, with
    /// nothing changed, when a new node is needed and the region has no room.
    pub fn insert<S: Storage>(&mut self, storage: &mut S, key: K, value: V) -> (r: Result<Option<V>, Error>)
        requires
            old(self).wf(old(storage)),
        ensures
            final(self).wf(final(storage)),
            final(self).spec_offset() == old(self).spec_offset(),
            final(storage).region().len() == old(storage).region().len(),
            r is Err <==> !old(self).view().contains_key(key) && old(storage).used() + node_len::<K, V>()
                > old(storage).region().len(),
            kept(old(storage).region(), final(storage).region(), old(self).footprint(), node_len::<K, V>(), old(storage).used(), old(self).spec_offset() as int, HEADER_LEN as nat),
            stored_header(final(storage).region(), final(self).spec_offset()) == final(self).header_view(),
            r is Ok && old(self).view().contains_key(key) ==> final(self).footprint() == old(self).footprint()
                && final(self).same_shape_as(*old(self)),
            r is Ok && !old(self).view().contains_key(key) ==> final(self).footprint() == old(self).footprint().insert(old(storage).used() as Offset),
            r is Err ==> final(self).footprint() == old(self).footprint() && final(self).same_shape_as(*old(self)),
            final(storage).used() == old(storage).used() + if r is Ok && !old(self).view().contains_key(key) { node_len::<K, V>() } else { 0 },
            match r {
                Ok(res) => {
                    &&& res == lookup(old(self).view(), key)
                    &&& final(self).view() == old(self).view().insert(key, value)
                    &&& final(self).spec_len() == old(self).spec_len() + if old(self).view().contains_key(key) { 0nat } else { 1nat }
                    &&& old(self).view().contains_key(key) ==> final(self).keys() == old(self).keys()
                },
                Err(e) => {
                    &&& e == Error::AllocationExhausted
                    &&& final(self).view() == old(self).view()
                    &&& final(self).spec_len() == old(self).spec_len()
                    &&& final(self).keys() == old(self).keys()
                    &&& final(storage).region() == old(storage).region()
                },
            },
    {
        let ghost mem = storage.region();
        let ghost used = storage.used();
        let ghost nl = node_len::<K, V>();
        let h = self.header_offset;
        if self.header.items == 0 {
            proof {
                lemma_offsets(mem, self.tree@);
            }
            proof {
                lemma_same_shape_refl(self.tree@);
            }
            let offset = storage.allocate(Node::<K, V>::packed_len())?;
            let ghost k = key;
            let ghost v = value;
            let root = Node::new(key, value);
            self.header.items = 1;
            self.header.root_offset = offset;
            write_record(storage, h, &self.header)?;
            let ghost m1 = storage.region();
            write_node(storage, offset, &root)?;
            let ghost m2 = storage.region();
            let ghost t2 = Tree::Branch { off: offset, key: k, value: v, left: Box::new(Tree::Leaf), right: Box::new(Tree::Leaf) };
            proof {
                Header::lemma_round_trip(self.header);
                lemma_overwrite(mem, h as int, self.header.encoding());
                lemma_node_written(m1, offset, root);
                assert(self.tree@.map() =~= Map::<K, V>::empty());
                assert forall|i: int| 0 <= i < mem.len() && i < used && apart(i, self.tree@.offsets(), nl) && (i < h || h + HEADER_LEN <= i) implies #[trigger] m2[i] == mem[i] by {}
                assert(m2.subrange(h as int, h + HEADER_LEN) =~= m1.subrange(h as int, h + HEADER_LEN));
                assert(tree_wf(m2, Tree::<K, V>::Leaf));
                assert(Tree::<K, V>::Leaf.size() == 0);
                assert(Tree::<K, V>::Leaf.offsets() =~= Set::<Offset>::empty());
                assert(t2.map() =~= Map::<K, V>::empty().insert(k, v));
                assert(t2.offsets() =~= set![offset]);
                assert(self.tree@.map() =~= Map::<K, V>::empty());
            }
            self.tree = Ghost(t2);
            return Ok(None);
        }
        proof {
            lemma_offsets(mem, self.tree@);
        }
        let root = self.header.root_offset;
        proof {
            lemma_same_shape_refl(self.tree@);
        }
        let (res, t2) = self.insert_below(storage, root, Ghost(self.tree@), key, value)?;
        let ghost m2 = storage.region();
        proof {
            let t = self.tree@;
            let used2 = storage.used();
            Header::lemma_round_trip(self.header);
            assert forall|o: Offset| #[trigger] t2@.offsets().contains(o) implies o + nl <= used2 && (o + nl <= h || h + HEADER_LEN <= o) by {
                if o != used {
                    assert(t.offsets().contains(o));
                }
            }
            assert forall|o1: Offset, o2: Offset| t2@.offsets().contains(o1) && t2@.offsets().contains(o2) && o1 != o2 implies o1 + nl <= o2 || o2 + nl <= o1 by {
                if o1 != used && o2 != used {
                    assert(t.offsets().contains(o1));
                    assert(t.offsets().contains(o2));
                } else if o1 != used {
                    assert(t.offsets().contains(o1));
                } else {
                    assert(t.offsets().contains(o2));
                }
            }
        }
        self.tree = t2;
        Ok(res)
    }

    /// Takes the least entry out of the subtree `t` rooted at `offset`, and
    /// returns it with the subtree's new root offset.
    #[verifier::rlimit(80)]
    #[verifier::spinoff_prover]
    fn detach_min<S: Storage>(&self, storage: &mut S, offset: Offset, Ghost(t): Ghost<Tree<K, V>>) -> (r: Result<(K, V, Offset, Ghost<Tree<K, V>>), Error>)
        requires
            self.wf(old(storage)),
            tree_wf(old(storage).region(), t),
            t is Branch,
            t.root() == offset,
            t.offsets().subset_of(self.tree@.offsets()),
        ensures
            storage_ok(final(storage)),
            final(storage).used() == old(storage).used(),
            r is Ok,
            match r {
                Ok((k, v, root2, t2)) => {
                    let mem = old(storage).region();
                    &&& t.map().contains_key(k)
                    &&& t.map()[k] == v
                    &&& forall|kk: K| #[trigger] t.map().contains_key(kk) ==> k.rank() <= kk.rank()
                    &&& t2@.map() == t.map().remove(k)
                    &&& tree_wf(final(storage).region(), t2@)
                    &&& t2@.root() == root2
                    &&& t2@.offsets().subset_of(t.offsets())
                    &&& t2@.size() + 1 == t.size()
                    &&& kept(mem, final(storage).region(), t.offsets(), node_len::<K, V>(), mem.len(), 0, 0)
                },
                Err(_) => true,
            },
        decreases t.size(),
    {
        let ghost mem = storage.region();
        let ghost whole = self.tree@;
        let ghost nl = node_len::<K, V>();
        proof {
            lemma_offsets(mem, t);
            lemma_offsets(mem, *t->left);
            lemma_offsets(mem, *t->right);
        }
        let mut node: Node<K, V> = read_node(storage, offset)?;
        if node.left == 0 {
            proof {
                lemma_splice(mem, t);
                assert forall|kk: K| #[trigger] t.map().contains_key(kk) implies t->key.rank() <= kk.rank() by {
                    if kk != t->key {
                        assert(t->right.map().contains_key(kk));
                    }
                }
            }
            return Ok((node.key, node.value, node.right, Ghost(*t->right)));
        }
        proof {
            assert(t->left.offsets().subset_of(whole.offsets()));
        }
        let (k, v, lroot2, l2) = self.detach_min(storage, node.left, Ghost(*t->left))?;
        let ghost m1 = storage.region();
        let changed = lroot2 != node.left;
        if changed {
            node.left = lroot2;
            write_node(storage, offset, &node)?;
        }
        let ghost m2 = storage.region();
        proof {
            assert(t.offsets().contains(offset));
            assert(forall|o: Offset| #[trigger] t.offsets().contains(o) ==> whole.offsets().contains(o));
            lemma_kept_range(mem, m1, t->left.offsets(), nl, mem.len(), 0, 0, offset as int, nl);
            if changed {
                lemma_node_written(m1, offset, node);
            }
            assert(node_at::<K, V>(m2, offset) == relinked(t, true, l2@.root()));
            assert forall|o: Offset| #[trigger] t->right.offsets().contains(o) implies
                m2.subrange(o as int, o + nl) == mem.subrange(o as int, o + nl) by {
                assert(t.offsets().contains(o));
                lemma_kept_range(mem, m1, t->left.offsets(), nl, mem.len(), 0, 0, o as int, nl);
                assert(m2.subrange(o as int, o + nl) =~= m1.subrange(o as int, o + nl));
            }
            lemma_frame(mem, m2, *t->right);
            assert forall|o: Offset| #[trigger] l2@.offsets().contains(o) implies
                m2.subrange(o as int, o + nl) == m1.subrange(o as int, o + nl) by {
                assert(t->left.offsets().contains(o));
                assert(t.offsets().contains(o));
                assert(m2.subrange(o as int, o + nl) =~= m1.subrange(o as int, o + nl));
            }
            lemma_frame(m1, m2, l2@);
            assert(t->left.map().contains_key(k));
            assert(!t->right.map().contains_key(k));
            lemma_with_child_removed(mem, m2, t, true, l2@, k);
            assert forall|kk: K| #[trigger] t.map().contains_key(kk) implies k.rank() <= kk.rank() by {
                if t->left.map().contains_key(kk) {
                } else if kk != t->key {
                    assert(t->right.map().contains_key(kk));
                }
            }
            lemma_kept_widen(mem, m1, m2, t->left.offsets(), t.offsets(), nl, offset);
        }
        Ok((k, v, offset, Ghost(with_child(t, true, l2@))))
    }

    /// Takes `key` out of the subtree `t` rooted at `offset`, and returns
    /// the value it had with the subtree's new root offset.
    #[verifier::rlimit(80)]
    #[verifier::spinoff_prover]
    fn remove_below<S: Storage>(&self, storage: &mut S, offset: Offset, Ghost(t): Ghost<Tree<K, V>>, key: &K) -> (r: Result<(Option<V>, Offset, Ghost<Tree<K, V>>), Error>)
        requires
            self.wf(old(storage)),
            tree_wf(old(storage).region(), t),
            t.root() == offset,
            t.offsets().subset_of(self.tree@.offsets()),
        ensures
            storage_ok(final(storage)),
            final(storage).used() == old(storage).used(),
            r is Ok,
            match r {
                Ok((res, root2, t2)) => {
                    let mem = old(storage).region();
                    &&& res == lookup(t.map(), *key)
                    &&& t2@.map() == t.map().remove(*key)
                    &&& tree_wf(final(storage).region(), t2@)
                    &&& t2@.root() == root2
                    &&& t2@.offsets().subset_of(t.offsets())
                    &&& t2@.size() == t.size() - if t.map().contains_key(*key) { 1int } else { 0int }
                    &&& kept(mem, final(storage).region(), t.offsets(), node_len::<K, V>(), mem.len(), 0, 0)
                    &&& res is None ==> final(storage).region() == mem && t2@ == t
                },
                Err(_) => true,
            },
        decreases t.size(),
    {
        let ghost mem = storage.region();
        let ghost whole = self.tree@;
        let ghost nl = node_len::<K, V>();
        proof {
            lemma_offsets(mem, t);
        }
        if offset == 0 {
            proof {
                assert(t.map() =~= t.map().remove(*key));
            }
            return Ok((None, 0, Ghost(t)));
        }
        proof {
            lemma_offsets(mem, *t->left);
            lemma_offsets(mem, *t->right);
            lemma_lookup_step(mem, t, *key);
        }
        let mut node: Node<K, V> = read_node(storage, offset)?;
        let ord = key.compare(&node.key);
        if let Ordering::Equal = ord {
            if node.left == 0 || node.right == 0 {
                proof {
                    lemma_splice(mem, t);
                    assert(t->left.offsets().subset_of(t.offsets()));
                    assert(t->right.offsets().subset_of(t.offsets()));
                }
                if node.left != 0 {
                    return Ok((Some(node.value), node.left, Ghost(*t->left)));
                }
                return Ok((Some(node.value), node.right, Ghost(*t->right)));
            }
            proof {
                assert(t->right.offsets().subset_of(whole.offsets()));
            }
            let (sk, sv, rroot2, r2) = self.detach_min(storage, node.right, Ghost(*t->right))?;
            let ghost m1 = storage.region();
            let updated = Node { left: node.left, right: rroot2, key: sk, value: sv };
            write_node(storage, offset, &updated)?;
            let ghost m2 = storage.region();
            proof {
                assert(t.offsets().contains(offset));
                assert(forall|o: Offset| #[trigger] t.offsets().contains(o) ==> whole.offsets().contains(o));
                lemma_kept_range(mem, m1, t->right.offsets(), nl, mem.len(), 0, 0, offset as int, nl);
                lemma_node_written(m1, offset, updated);
                assert forall|o: Offset| #[trigger] t->left.offsets().contains(o) implies
                    m2.subrange(o as int, o + nl) == mem.subrange(o as int, o + nl) by {
                    assert(t.offsets().contains(o));
                    lemma_kept_range(mem, m1, t->right.offsets(), nl, mem.len(), 0, 0, o as int, nl);
                    assert(m2.subrange(o as int, o + nl) =~= m1.subrange(o as int, o + nl));
                }
                lemma_frame(mem, m2, *t->left);
                assert forall|o: Offset| #[trigger] r2@.offsets().contains(o) implies
                    m2.subrange(o as int, o + nl) == m1.subrange(o as int, o + nl) by {
                    assert(t->right.offsets().contains(o));
                    assert(t.offsets().contains(o));
                    assert(m2.subrange(o as int, o + nl) =~= m1.subrange(o as int, o + nl));
                }
                lemma_frame(m1, m2, r2@);
                lemma_successor(mem, m2, t, r2@, sk, sv);
                lemma_kept_widen(mem, m1, m2, t->right.offsets(), t.offsets(), nl, offset);
            }
            return Ok((Some(node.value), offset, Ghost(promoted(t, r2@, sk, sv))));
        }
        let go_left = match ord {
            Ordering::Less => true,
            _ => false,
        };
        let child = if go_left { node.left } else { node.right };
        let ghost sub = child_of(t, go_left);
        let ghost other = sibling_of(t, go_left);
        proof {
            assert(sub.offsets().subset_of(whole.offsets()));
        }
        let (res, croot2, c2) = self.remove_below(storage, child, Ghost(sub), key)?;
        let ghost m1 = storage.region();
        let changed = croot2 != child;
        if changed {
            if go_left {
                node.left = croot2;
            } else {
                node.right = croot2;
            }
            write_node(storage, offset, &node)?;
        }
        let ghost m2 = storage.region();
        proof {
            assert(t.offsets().contains(offset));
            assert(forall|o: Offset| #[trigger] t.offsets().contains(o) ==> whole.offsets().contains(o));
            lemma_kept_range(mem, m1, sub.offsets(), nl, mem.len(), 0, 0, offset as int, nl);
            if changed {
                lemma_node_written(m1, offset, node);
            }
            assert(node_at::<K, V>(m2, offset) == relinked(t, go_left, c2@.root()));
            assert forall|o: Offset| #[trigger] other.offsets().contains(o) implies
                m2.subrange(o as int, o + nl) == mem.subrange(o as int, o + nl) by {
                assert(t.offsets().contains(o));
                lemma_kept_range(mem, m1, sub.offsets(), nl, mem.len(), 0, 0, o as int, nl);
                assert(m2.subrange(o as int, o + nl) =~= m1.subrange(o as int, o + nl));
            }
            lemma_frame(mem, m2, other);
            assert forall|o: Offset| #[trigger] c2@.offsets().contains(o) implies
                m2.subrange(o as int, o + nl) == m1.subrange(o as int, o + nl) by {
                assert(sub.offsets().contains(o));
                assert(t.offsets().contains(o));
                assert(m2.subrange(o as int, o + nl) =~= m1.subrange(o as int, o + nl));
            }
            lemma_frame(m1, m2, c2@);
            lemma_with_child_removed(mem, m2, t, go_left, c2@, *key);
            lemma_kept_widen(mem, m1, m2, sub.offsets(), t.offsets(), nl, offset);
            if res is None {
                assert(with_child(t, go_left, c2@) == t);
            }
        }
        Ok((res, offset, Ghost(with_child(t, go_left, c2@))))
    }

    /// Takes `key` out of the tree and returns the value it had.
    ///
    /// A node with at most one child is spliced out: its parent's link, or
    /// the header's root, takes the child. A node with two children takes
    /// the key and value of its in-order successor, the least node of its
    /// right subtree, which is unlinked in turn. An absent key changes
    /// nothing.
    #[verifier::rlimit(80)]
    #[verifier::spinoff_prover]
    pub fn remove<S: Storage>(&mut self, storage: &mut S, key: &K) -> (r: Result<Option<V>, Error>)
        requires
            old(self).wf(old(storage)),
        ensures
            final(self).wf(final(storage)),
            final(self).spec_offset() == old(self).spec_offset(),
            final(storage).region().len() == old(storage).region().len(),
            r == Ok::<Option<V>, Error>(lookup(old(self).view(), *key)),
            final(self).view() == old(self).view().remove(*key),
            final(self).spec_len() == old(self).spec_len() - if old(self).view().contains_key(*key) { 1int } else { 0int },
            !old(self).view().contains_key(*key) ==> final(storage).region() == old(storage).region()
                && final(self).keys() == old(self).keys(),
            final(storage).used() == old(storage).used(),
            kept(old(storage).region(), final(storage).region(), old(self).footprint(), node_len::<K, V>(), old(storage).region().len(), old(self).spec_offset() as int, HEADER_LEN as nat),
            stored_header(final(storage).region(), final(self).spec_offset()) == final(self).header_view(),
            final(self).footprint().subset_of(old(self).footprint()),
    {
        let ghost mem = storage.region();
        let ghost nl = node_len::<K, V>();
        let ghost whole = self.tree@;
        let h = self.header_offset;
        proof {
            lemma_offsets(mem, self.tree@);
        }
        if self.header.items == 0 {
            proof {
                assert(self.tree@.map() =~= self.tree@.map().remove(*key));
            }
            return Ok(None);
        }
        let root = self.header.root_offset;
        let (res, root2, t2) = self.remove_below(storage, root, Ghost(self.tree@), key)?;
        match res {
            None => {
                return Ok(None);
            },
            Some(v) => {
                self.header.root_offset = root2;
                self.header.items = self.header.items - 1;
                let ghost m1 = storage.region();
                write_record(storage, h, &self.header)?;
                let ghost m2 = storage.region();
                proof {
                    Header::lemma_round_trip(self.header);
                    lemma_overwrite(m1, h as int, self.header.encoding());
                    lemma_placed_subset(whole, t2@, storage.used(), h);
                    assert forall|o: Offset| #[trigger] t2@.offsets().contains(o) implies
                        m2.subrange(o as int, o + nl) == m1.subrange(o as int, o + nl) by {
                        assert(whole.offsets().contains(o));
                        assert(m2.subrange(o as int, o + nl) =~= m1.subrange(o as int, o + nl));
                    }
                    lemma_frame(m1, m2, t2@);
                    assert forall|i: int| 0 <= i < mem.len() && i < mem.len() && apart(i, whole.offsets(), nl) && (i < h || h + HEADER_LEN <= i) implies #[trigger] m2[i] == mem[i] by {
                        assert(m1[i] == mem[i]);
                    }
                }
                self.tree = t2;
                return Ok(Some(v));
            },
        }
    }

    /// Appends the keys of the subtree `t`, rooted at `offset`, in order.
    fn collect_keys<S: Storage>(&self, storage: &S, offset: Offset, Ghost(t): Ghost<Tree<K, V>>, out: &mut Vec<K>) -> (r: Result<(), Error>)
        requires
            self.wf(storage),
            tree_wf(storage.region(), t),
            t.root() == offset,
        ensures
            r is Ok,
            final(out)@ == old(out)@ + t.inorder(),
        decreases t.size(),
    {
        proof {
            lemma_offsets(storage.region(), t);
        }
        if offset == 0 {
            assert(old(out)@ + t.inorder() =~= old(out)@);
            return Ok(());
        }
        let node: Node<K, V> = read_node(storage, offset)?;
        self.collect_keys(storage, node.left, Ghost(*t->left), out)?;
        out.push(node.key);
        self.collect_keys(storage, node.right, Ghost(*t->right), out)?;
        assert(out@ =~= old(out)@ + t.inorder());
        Ok(())
    }

    /// Returns the keys in in-order traversal, which is ascending.
    pub fn inorder_keys<S: Storage>(&self, storage: &S) -> (r: Result<Vec<K>, Error>)
        requires
            self.wf(storage),
        ensures
            r is Ok,
            match r {
                Ok(v) => v@ == self.keys(),
                Err(_) => true,
            },
    {
        let mut out: Vec<K> = Vec::new();
        self.collect_keys(storage, self.header.root_offset, Ghost(self.tree@), &mut out)?;
        assert(out@ =~= self.tree@.inorder());
        Ok(out)
    }

    /// After any sequence of changes the in-order traversal of the tree is
    /// strictly ascending, and it lists exactly the keys of the tree.
    pub proof fn lemma_ordered<S: Storage>(self, s: &S)
        requires
            self.wf(s),
        ensures
            ascending(self.keys()),
            forall|i: int| 0 <= i < self.keys().len() ==> self.view().contains_key(#[trigger] self.keys()[i]),
            forall|k: K| #[trigger] self.view().contains_key(k) ==> self.keys().contains(k),
            self.keys().len() == self.spec_len(),
    {
        lemma_inorder(s.region(), self.tree@);
    }

    /// After `insert(k, v)`, `find(k)` gives `v`; every other key keeps its
    /// value.
    pub proof fn lemma_insert_then_find(self, after: Self, k: K, v: V)
        requires
            after.view() == self.view().insert(k, v),
        ensures
            lookup(after.view(), k) == Some(v),
            forall|j: K| j != k ==> lookup(after.view(), j) == lookup(self.view(), j),
    {
    }

    /// After `remove(k)`, `find(k)` finds nothing; every other key keeps its
    /// value.
    pub proof fn lemma_remove_then_find(self, after: Self, k: K)
        requires
            after.view() == self.view().remove(k),
        ensures
            lookup(after.view(), k) == None::<V>,
            forall|j: K| j != k ==> lookup(after.view(), j) == lookup(self.view(), j),
    {
    }

    /// Two well-formed handles on the same header see the same tree: what
    /// one handle wrote, a handle loaded later from its offset reads back.
    pub proof fn lemma_persistence<S: Storage>(self, other: Self, s: &S)
        requires
            self.wf(s),
            other.wf(s),
            self.spec_offset() == other.spec_offset(),
        ensures
            self.view() == other.view(),
            self.spec_len() == other.spec_len(),
            self.keys() == other.keys(),
    {
        lemma_unique(s.region(), self.tree@, other.tree@);
    }

    /// Returns `true` if the tree holds a value for `key`.
    pub fn contains_key<S: Storage>(&self, storage: &S, key: &K) -> (r: Result<bool, Error>)
        requires
            self.wf(storage),
        ensures
            r == Ok::<bool, Error>(self.view().contains_key(*key)),
    {
        let found = self.find(storage, key)?;
        Ok(found.is_some())
    }
}

/// The header that the bytes at `offset` decode to.
pub open spec fn stored_header(mem: Seq<u8>, offset: Offset) -> Header {
    Header::decoding(mem.subrange(offset as int, offset + HEADER_LEN))
}

/// The header at `offset` records the widths of `K` and `V`.
pub open spec fn header_matches<K: Codec, V: Codec>(mem: Seq<u8>, offset: Offset) -> bool {
    let hd = stored_header(mem, offset);
    hd.key_len == K::width() && hd.value_len == V::width()
}

/// The two trees have the same nodes at the same offsets, with the same
/// keys and links; only values may differ.
pub open spec fn same_shape<K, V>(t1: Tree<K, V>, t2: Tree<K, V>) -> bool
    decreases t1,
{
    match t1 {
        Tree::Leaf => t2 is Leaf,
        Tree::Branch { off, key, left, right, .. } => {
            &&& t2 is Branch
            &&& t2->off == off
            &&& t2->key == key
            &&& same_shape(*left, *t2->left)
            &&& same_shape(*right, *t2->right)
        },
    }
}

proof fn lemma_same_shape_refl<K, V>(t: Tree<K, V>)
    ensures
        same_shape(t, t),
    decreases t,
{
    if let Tree::Branch { left, right, .. } = t {
        lemma_same_shape_refl(*left);
        lemma_same_shape_refl(*right);
    }
}

/// The keys of `s` strictly ascend by rank.
pub open spec fn ascending<K: Key>(s: Seq<K>) -> bool {
    forall|i: int, j: int| 0 <= i < j < s.len() ==> #[trigger] s[i].rank() < #[trigger] s[j].rank()
}

/// The in-order traversal of a well-formed tree ascends and lists its keys.
proof fn lemma_inorder<K: Key, V: Codec>(mem: Seq<u8>, t: Tree<K, V>)
    requires
        tree_wf(mem, t),
    ensures
        ascending(t.inorder()),
        forall|i: int| 0 <= i < t.inorder().len() ==> t.map().contains_key(#[trigger] t.inorder()[i]),
        forall|k: K| #[trigger] t.map().contains_key(k) ==> t.inorder().contains(k),
        t.inorder().len() == t.size(),
    decreases t,
{
    if let Tree::Branch { key, left, right, .. } = t {
        lemma_inorder(mem, *left);
        lemma_inorder(mem, *right);
        let l = left.inorder();
        let r = right.inorder();
        let s = t.inorder();
        assert(s == l + seq![key] + r);
        assert forall|i: int| 0 <= i < s.len() implies t.map().contains_key(#[trigger] s[i]) by {
            if i < l.len() {
                assert(s[i] == l[i]);
            } else if i > l.len() {
                assert(s[i] == r[i - l.len() - 1]);
            }
        }
        assert forall|i: int, j: int| 0 <= i < j < s.len() implies #[trigger] s[i].rank() < #[trigger] s[j].rank() by {
            if i < l.len() {
                assert(s[i] == l[i]);
                assert(left.map().contains_key(l[i]));
            } else if i > l.len() {
                assert(s[i] == r[i - l.len() - 1]);
            }
            if j < l.len() {
                assert(s[j] == l[j]);
            } else if j > l.len() {
                assert(s[j] == r[j - l.len() - 1]);
                assert(right.map().contains_key(r[j - l.len() - 1]));
            }
        }
        assert forall|k: K| #[trigger] t.map().contains_key(k) implies s.contains(k) by {
            if k == key {
                assert(s[l.len() as int] == key);
            } else if left.map().contains_key(k) {
                let i = choose|i: int| 0 <= i < l.len() && l[i] == k;
                assert(s[i] == k);
            } else {
                assert(right.map().contains_key(k));
                let i = choose|i: int| 0 <= i < r.len() && r[i] == k;
                assert(s[i + l.len() + 1] == k);
            }
        }
    }
}

/// A region holds at most one well-formed tree at each root offset.
proof fn lemma_unique<K: Key, V: Codec>(mem: Seq<u8>, t1: Tree<K, V>, t2: Tree<K, V>)
    requires
        tree_wf(mem, t1),
        tree_wf(mem, t2),
        t1.root() == t2.root(),
    ensures
        t1 == t2,
    decreases t1,
{
    lemma_offsets(mem, t1);
    lemma_offsets(mem, t2);
    if let Tree::Branch { off, left, right, .. } = t1 {
        lemma_unique(mem, *left, *t2->left);
        lemma_unique(mem, *right, *t2->right);
    }
}

/// The keys of a well-formed tree are distinct, so it holds as many
/// entries as nodes.
proof fn lemma_map_len<K: Key, V: Codec>(mem: Seq<u8>, t: Tree<K, V>)
    requires
        tree_wf(mem, t),
    ensures
        t.map().dom().finite(),
        t.map().dom().len() == t.size(),
    decreases t,
{
    if let Tree::Branch { key, left, right, .. } = t {
        lemma_map_len(mem, *left);
        lemma_map_len(mem, *right);
        let u = left.map().union_prefer_right(right.map());
        assert(left.map().dom().disjoint(right.map().dom()));
        assert(u.dom() =~= left.map().dom().union(right.map().dom()));
        vstd::set_lib::lemma_set_disjoint_lens(left.map().dom(), right.map().dom());
        assert(!u.dom().contains(key));
    }
}

} // verus!
