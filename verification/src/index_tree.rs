//! The rank index: a tree of sums over the bucket sizes.

use vstd::prelude::*;

verus! {

/// The number of leaves of the smallest tree.
pub const DEFAULT_INDEX_TREE_OFFSET: usize = 32;

/// `n` is a power of two.
pub open spec fn is_pow2(n: int) -> bool
    decreases n,
{
    n == 1 || (n > 1 && n % 2 == 0 && is_pow2(n / 2))
}

/// The number of leaves below node `n` of a tree with `offset` leaves; the root is node 1 and
/// the children of node `n` are `2 * n` and `2 * n + 1`.
pub open spec fn node_width(offset: int, n: int) -> int
    decreases n,
{
    if n <= 1 {
        offset
    } else {
        node_width(offset, n / 2) / 2
    }
}

/// The first leaf below node `n` of a tree with `offset` leaves.
pub open spec fn node_lo(offset: int, n: int) -> int
    decreases n,
{
    if n <= 1 {
        0
    } else if n % 2 == 1 {
        node_lo(offset, n / 2) + node_width(offset, n)
    } else {
        node_lo(offset, n / 2)
    }
}

/// The first node of the level that node `n` stands on.
pub open spec fn level_start(n: int) -> int
    decreases n,
{
    if n <= 1 {
        1
    } else {
        2 * level_start(n / 2)
    }
}

/// The sum of `s[lo..hi]`.
pub open spec fn range_sum(s: Seq<usize>, lo: int, hi: int) -> int
    decreases hi - lo,
{
    if hi <= lo {
        0
    } else {
        range_sum(s, lo, hi - 1) + s[hi - 1]
    }
}

/// A level of the tree starts at a power of two, and its nodes share the leaves evenly.
pub proof fn lemma_level(offset: int, n: int)
    requires
        is_pow2(offset),
        1 <= n < 2 * offset,
    ensures
        level_start(n) <= n < 2 * level_start(n),
        level_start(n) * node_width(offset, n) == offset,
        node_lo(offset, n) == (n - level_start(n)) * node_width(offset, n),
        is_pow2(node_width(offset, n)),
    decreases n,
{
    if n > 1 {
        let p = n / 2;
        lemma_level(offset, p);
        let bp = level_start(p);
        let wp = node_width(offset, p);
        let b = level_start(n);
        let w = node_width(offset, n);
        if wp == 1 {
            assert(bp * wp == bp) by (nonlinear_arith)
                requires
                    wp == 1,
            ;
        }
        assert(wp == 2 * w);
        assert(b * w == bp * wp) by (nonlinear_arith)
            requires
                wp == 2 * w,
                b == 2 * bp,
        ;
        if n % 2 == 0 {
            assert((p - bp) * wp == (n - b) * w) by (nonlinear_arith)
                requires
                    wp == 2 * w,
                    b == 2 * bp,
                    n == 2 * p,
            ;
        } else {
            assert((p - bp) * wp + w == (n - b) * w) by (nonlinear_arith)
                requires
                    wp == 2 * w,
                    b == 2 * bp,
                    n == 2 * p + 1,
            ;
        }
    } else {
        assert((n - level_start(n)) * node_width(offset, n) == 0) by (nonlinear_arith)
            requires
                n - level_start(n) == 0,
        ;
        assert(level_start(n) * node_width(offset, n) == offset) by (nonlinear_arith)
            requires
                level_start(n) == 1,
                node_width(offset, n) == offset,
        ;
    }
}

/// The leaves below a node: where they lie, and how its children share them.
pub proof fn lemma_span(offset: int, n: int)
    requires
        is_pow2(offset),
        1 <= n < 2 * offset,
    ensures
        node_width(offset, n) >= 1,
        0 <= node_lo(offset, n),
        node_lo(offset, n) + node_width(offset, n) <= offset,
        n >= offset ==> node_width(offset, n) == 1 && node_lo(offset, n) == n - offset,
        n < offset ==> {
            &&& node_width(offset, n) == 2 * node_width(offset, 2 * n)
            &&& node_width(offset, 2 * n + 1) == node_width(offset, 2 * n)
            &&& node_lo(offset, 2 * n) == node_lo(offset, n)
            &&& node_lo(offset, 2 * n + 1) == node_lo(offset, n) + node_width(offset, 2 * n)
        },
{
    lemma_level(offset, n);
    let b = level_start(n);
    let w = node_width(offset, n);
    let lo = node_lo(offset, n);
    assert(lo >= 0 && lo + w <= offset) by (nonlinear_arith)
        requires
            b <= n < 2 * b,
            b * w == offset,
            lo == (n - b) * w,
            w >= 1,
    ;
    if n >= offset {
        assert(w == 1) by (nonlinear_arith)
            requires
                b <= n < 2 * b,
                b * w == offset,
                n >= offset,
                w >= 1,
        ;
        assert(b == offset) by (nonlinear_arith)
            requires
                b * w == offset,
                w == 1,
        ;
        assert(lo == n - offset) by (nonlinear_arith)
            requires
                lo == (n - b) * w,
                w == 1,
                b == offset,
        ;
    } else {
        assert(w >= 2) by (nonlinear_arith)
            requires
                b <= n,
                b * w == offset,
                n < offset,
                w >= 1,
        ;
        assert((2 * n) / 2 == n && (2 * n + 1) / 2 == n);
    }
}

/// A range of leaves is the sum of its two parts.
pub proof fn lemma_range_split(s: Seq<usize>, lo: int, mid: int, hi: int)
    requires
        lo <= mid <= hi,
    ensures
        range_sum(s, lo, hi) == range_sum(s, lo, mid) + range_sum(s, mid, hi),
    decreases hi - mid,
{
    if mid < hi {
        lemma_range_split(s, lo, mid, hi - 1);
    }
}

/// A range of leaves sums to no more than a range that holds it.
pub proof fn lemma_range_mono(s: Seq<usize>, lo: int, hi: int, lo2: int, hi2: int)
    requires
        0 <= lo2 <= lo <= hi <= hi2 <= s.len(),
    ensures
        0 <= range_sum(s, lo, hi) <= range_sum(s, lo2, hi2),
{
    lemma_range_nonneg(s, lo2, lo);
    lemma_range_nonneg(s, lo, hi);
    lemma_range_nonneg(s, hi, hi2);
    lemma_range_split(s, lo2, lo, hi2);
    lemma_range_split(s, lo, hi, hi2);
}

/// A range of leaves has a sum of at least zero.
pub proof fn lemma_range_nonneg(s: Seq<usize>, lo: int, hi: int)
    requires
        0 <= lo,
        hi <= s.len(),
    ensures
        0 <= range_sum(s, lo, hi),
    decreases hi - lo,
{
    if lo < hi {
        lemma_range_nonneg(s, lo, hi - 1);
    }
}

/// Two sequences that agree on a range have the same sum there.
pub proof fn lemma_range_agree(s: Seq<usize>, t: Seq<usize>, lo: int, hi: int)
    requires
        0 <= lo,
        hi <= s.len(),
        hi <= t.len(),
        forall|i: int| lo <= i < hi ==> s[i] == t[i],
    ensures
        range_sum(s, lo, hi) == range_sum(t, lo, hi),
    decreases hi - lo,
{
    if lo < hi {
        lemma_range_agree(s, t, lo, hi - 1);
    }
}

/// Node `n` of `t` holds the sum of its two children.
pub open spec fn node_is_sum(t: Seq<usize>, n: int) -> bool {
    t[n] == t[2 * n] + t[2 * n + 1]
}

/// The nodes `t` form a tree over `offset` leaves in which every inner node is the sum of its
/// two children.
pub open spec fn tree_sums(t: Seq<usize>, offset: int) -> bool {
    &&& is_pow2(offset)
    &&& t.len() == 2 * offset
    &&& forall|n: int| 1 <= n < offset ==> #[trigger] node_is_sum(t, n)
}

/// The leaves of the tree `t`, left to right.
pub open spec fn leaves_of(t: Seq<usize>, offset: int) -> Seq<usize> {
    t.subrange(offset, 2 * offset)
}

/// In a tree of sums, a node holds the sum of the leaves below it.
pub proof fn lemma_node_sum(t: Seq<usize>, offset: int, n: int)
    requires
        tree_sums(t, offset),
        1 <= n < 2 * offset,
    ensures
        t[n] == range_sum(
            leaves_of(t, offset),
            node_lo(offset, n),
            node_lo(offset, n) + node_width(offset, n),
        ),
    decreases 2 * offset - n,
{
    lemma_span(offset, n);
    let s = leaves_of(t, offset);
    let lo = node_lo(offset, n);
    if n >= offset {
        assert(range_sum(s, lo, lo + 1) == range_sum(s, lo, lo) + s[lo]);
    } else {
        let h = node_width(offset, 2 * n);
        assert(node_is_sum(t, n));
        lemma_node_sum(t, offset, 2 * n);
        lemma_node_sum(t, offset, 2 * n + 1);
        lemma_range_split(s, lo, lo + h, lo + 2 * h);
    }
}

/// In a tree of sums, the root holds the sum of all leaves, and no node holds more.
pub proof fn lemma_root_sum(t: Seq<usize>, offset: int, n: int)
    requires
        tree_sums(t, offset),
        1 <= n < 2 * offset,
    ensures
        t[1] == range_sum(leaves_of(t, offset), 0, offset),
        t[n] <= t[1],
{
    lemma_node_sum(t, offset, 1);
    lemma_node_sum(t, offset, n);
    lemma_span(offset, n);
    lemma_range_mono(
        leaves_of(t, offset),
        node_lo(offset, n),
        node_lo(offset, n) + node_width(offset, n),
        0,
        offset,
    );
}

/// The lengths of the buckets, in order.
pub open spec fn sizes_of<T>(lists: Seq<Vec<T>>) -> Seq<usize> {
    Seq::new(lists.len(), |i: int| lists[i].len())
}

/// A range of zeros sums to zero.
pub proof fn lemma_range_zero(s: Seq<usize>, lo: int, hi: int)
    requires
        0 <= lo,
        hi <= s.len(),
        forall|i: int| lo <= i < hi ==> s[i] == 0,
    ensures
        range_sum(s, lo, hi) == 0,
    decreases hi - lo,
{
    if lo < hi {
        lemma_range_zero(s, lo, hi - 1);
    }
}

/// The rank index: a complete binary tree, stored level by level from node 1, whose leaves hold
/// the bucket sizes and whose inner nodes hold the sum of their children.
pub struct IndexTree {
    tree: Vec<usize>,
    offset: usize,
}

impl IndexTree {
    /// The nodes of the tree; node 0 is unused.
    pub closed spec fn nodes(&self) -> Seq<usize> {
        self.tree@
    }

    /// The number of leaves, which is also the index of the first leaf.
    pub closed spec fn offset(&self) -> int {
        self.offset as int
    }

    /// The leaves, left to right.
    pub open spec fn leaves(&self) -> Seq<usize> {
        leaves_of(self.nodes(), self.offset())
    }

    /// The tree is complete over a power of two of leaves, and every inner node is the sum of
    /// its children.
    pub open spec fn wf(&self) -> bool {
        &&& tree_sums(self.nodes(), self.offset())
        &&& self.offset() >= DEFAULT_INDEX_TREE_OFFSET
        &&& 2 * self.offset() <= usize::MAX
    }

    /// The leaves hold the sizes of `lists`, bucket by bucket, and zero after the last bucket,
    /// and the tree is the smallest that has a leaf for each bucket.
    pub open spec fn indexes<T>(&self, lists: Seq<Vec<T>>) -> bool {
        &&& self.wf()
        &&& lists.len() <= self.offset()
        &&& self.offset() > DEFAULT_INDEX_TREE_OFFSET ==> self.offset() / 2 < lists.len()
        &&& forall|i: int| 0 <= i < lists.len() ==> #[trigger] self.leaves()[i] == lists[i]@.len()
        &&& forall|i: int| lists.len() <= i < self.offset() ==> #[trigger] self.leaves()[i] == 0
    }

    /// A tree that indexed the buckets before one of them changed its size indexes them again
    /// once as much has been added to the leaf of that bucket.
    pub proof fn lemma_patched<T>(
        &self,
        before: &IndexTree,
        old_lists: Seq<Vec<T>>,
        lists: Seq<Vec<T>>,
        i: int,
    )
        requires
            before.indexes(old_lists),
            self.wf(),
            self.offset() == before.offset(),
            0 <= i < old_lists.len(),
            lists.len() == old_lists.len(),
            forall|m: int|
                0 <= m < lists.len() && m != i ==> (#[trigger] lists[m])@.len()
                    == old_lists[m]@.len(),
            self.leaves() == before.leaves().update(i, lists[i].len()),
        ensures
            self.indexes(lists),
    {
        assert forall|m: int| 0 <= m < lists.len() implies #[trigger] self.leaves()[m]
            == lists[m]@.len() by {
            assert(before.leaves()[m] == old_lists[m]@.len());
        }
        assert forall|m: int| lists.len() <= m < self.offset() implies #[trigger] self.leaves()[m]
            == 0 by {
            assert(before.leaves()[m] == 0);
        }
    }

    /// A tree that indexed no bucket indexes a single bucket once its first leaf holds the
    /// size of that bucket.
    pub proof fn lemma_started<T>(&self, before: &IndexTree, lists: Seq<Vec<T>>)
        requires
            before.indexes(Seq::<Vec<T>>::empty()),
            self.wf(),
            self.offset() == before.offset(),
            lists.len() == 1,
            self.leaves() == before.leaves().update(0, lists[0].len()),
        ensures
            self.indexes(lists),
    {
        assert forall|m: int| lists.len() <= m < self.offset() implies #[trigger] self.leaves()[m]
            == 0 by {
            assert(before.leaves()[m] == 0);
        }
    }

    /// A tree that indexed a single bucket indexes no bucket once its first leaf is zero.
    pub proof fn lemma_emptied<T>(&self, before: &IndexTree, old_lists: Seq<Vec<T>>)
        requires
            before.indexes(old_lists),
            self.wf(),
            self.offset() == before.offset(),
            old_lists.len() == 1,
            self.leaves() == before.leaves().update(0, 0),
        ensures
            self.indexes(Seq::<Vec<T>>::empty()),
    {
        assert forall|m: int| 0 <= m < self.offset() implies #[trigger] self.leaves()[m] == 0 by {
            if m != 0 {
                assert(before.leaves()[m] == 0);
            }
        }
    }

    /// The smallest tree, with every node zero.
    pub fn new() -> (t: Self)
        ensures
            t.wf(),
            t.offset() == DEFAULT_INDEX_TREE_OFFSET,
            forall|n: int| 0 <= n < t.nodes().len() ==> t.nodes()[n] == 0,
    {
        let mut tree: Vec<usize> = Vec::new();
        tree.resize(2 * DEFAULT_INDEX_TREE_OFFSET, 0);
        proof {
            lemma_pow2_32();
        }
        IndexTree { tree, offset: DEFAULT_INDEX_TREE_OFFSET }
    }

    /// Shrinks the tree to the smallest one and sets every node to zero.
    pub fn reset(&mut self)
        ensures
            final(self).wf(),
            final(self).offset() == DEFAULT_INDEX_TREE_OFFSET,
            forall|n: int| 0 <= n < final(self).nodes().len() ==> final(self).nodes()[n] == 0,
    {
        self.tree.clear();
        self.tree.resize(2 * DEFAULT_INDEX_TREE_OFFSET, 0);
        self.offset = DEFAULT_INDEX_TREE_OFFSET;
        proof {
            lemma_pow2_32();
        }
    }

    /// Builds the tree anew over the sizes of `lists`: the smallest power of two of leaves,
    /// at least 32, that gives each bucket a leaf.
    pub fn rebuild<T>(&mut self, lists: &Vec<Vec<T>>)
        requires
            lists.len() <= usize::MAX / 4,
            range_sum(sizes_of(lists@), 0, lists.len() as int) <= usize::MAX,
        ensures
            final(self).indexes(lists@),
    {
        let mut offset: usize = DEFAULT_INDEX_TREE_OFFSET;
        proof {
            lemma_pow2_32();
        }
        while offset < lists.len()
            invariant
                is_pow2(offset as int),
                offset >= DEFAULT_INDEX_TREE_OFFSET,
                offset > DEFAULT_INDEX_TREE_OFFSET ==> offset / 2 < lists.len(),
                lists.len() <= usize::MAX / 4,
                offset <= usize::MAX / 2,
            decreases usize::MAX - offset,
        {
            offset = offset * 2;
        }
        self.offset = offset;
        self.tree.clear();
        self.tree.resize(2 * offset, 0);
        assert(forall|n: int| 0 <= n < 2 * offset ==> self.tree@[n] == 0);

        let mut node: usize = 0;
        while node < lists.len()
            invariant
                node <= lists.len() <= offset <= usize::MAX / 2,
                self.offset == offset,
                self.tree@.len() == 2 * offset,
                forall|i: int| 0 <= i < node ==> self.tree@[offset + i] == lists@[i]@.len(),
                forall|n: int|
                    0 <= n < 2 * offset && !(offset <= n < offset + node) ==> self.tree@[n] == 0,
            decreases lists.len() - node,
        {
            self.tree[node + offset] = lists[node].len();
            node = node + 1;
        }

        let ghost sizes = sizes_of(lists@);
        let ghost leaves = leaves_of(self.tree@, offset as int);
        proof {
            lemma_range_agree(sizes, leaves, 0, lists.len() as int);
            lemma_range_zero(leaves, lists.len() as int, offset as int);
            lemma_range_split(leaves, 0, lists.len() as int, offset as int);
            assert forall|m: int| offset <= m < 2 * offset implies self.tree@[m] == range_sum(
                leaves,
                node_lo(offset as int, m),
                node_lo(offset as int, m) + node_width(offset as int, m),
            ) by {
                lemma_span(offset as int, m);
                let lo = m - offset;
                assert(range_sum(leaves, lo, lo + 1) == range_sum(leaves, lo, lo) + leaves[lo]);
            }
        }

        let mut node: usize = offset - 1;
        while node >= 1
            invariant
                0 <= node < offset <= usize::MAX / 2,
                is_pow2(offset as int),
                self.offset == offset,
                self.tree@.len() == 2 * offset,
                leaves_of(self.tree@, offset as int) == leaves,
                range_sum(leaves, 0, offset as int) <= usize::MAX,
                forall|m: int| node < m < offset ==> #[trigger] node_is_sum(self.tree@, m),
                forall|m: int|
                    node < m < 2 * offset ==> #[trigger] self.tree@[m] == range_sum(
                        leaves,
                        node_lo(offset as int, m),
                        node_lo(offset as int, m) + node_width(offset as int, m),
                    ),
            decreases node,
        {
            proof {
                let n = node as int;
                let o = offset as int;
                lemma_span(o, n);
                let lo = node_lo(o, n);
                let h = node_width(o, 2 * n);
                lemma_range_split(leaves, lo, lo + h, lo + 2 * h);
                lemma_range_mono(leaves, lo, lo + 2 * h, 0, o);
                assert(self.tree@[2 * n] == range_sum(leaves, lo, lo + h));
                assert(self.tree@[2 * n + 1] == range_sum(leaves, lo + h, lo + 2 * h));
            }
            let ghost before = self.tree@;
            self.tree[node] = self.tree[2 * node] + self.tree[2 * node + 1];
            proof {
                assert(leaves_of(self.tree@, offset as int) =~= leaves_of(before, offset as int));
                assert forall|m: int| node - 1 < m < offset implies #[trigger] node_is_sum(
                    self.tree@,
                    m,
                ) by {
                    if m > node {
                        assert(node_is_sum(before, m));
                    }
                }
            }
            node = node - 1;
        }
        proof {
            assert forall|i: int| 0 <= i < lists@.len() implies #[trigger] self.leaves()[i]
                == lists@[i]@.len() by {
                assert(self.leaves()[i] == leaves[i]);
            }
            assert forall|i: int|
                lists@.len() <= i < self.offset() implies #[trigger] self.leaves()[i] == 0 by {
                assert(self.leaves()[i] == leaves[i]);
            }
        }
    }

    /// Adds `val`, which is 1 or -1, to leaf `i`, and brings the nodes above it up to date, from
    /// the leaf's parent to the root, each as the sum of its two children.
    pub fn add(&mut self, i: usize, val: i32)
        requires
            old(self).wf(),
            i < old(self).offset(),
            val == 1 || val == -1,
            val == 1 ==> range_sum(old(self).leaves(), 0, old(self).offset()) < usize::MAX,
            val == -1 ==> old(self).leaves()[i as int] >= 1,
        ensures
            final(self).wf(),
            final(self).offset() == old(self).offset(),
            final(self).leaves() == old(self).leaves().update(
                i as int,
                (old(self).leaves()[i as int] + val) as usize,
            ),
            old(self).leaves()[i as int] + val >= 0,
            final(self).nodes()[1] == old(self).nodes()[1] + val,
    {
        let ghost before = self.tree@;
        let ghost o = self.offset as int;
        proof {
            lemma_pow2_min(o);
            lemma_root_sum(before, o, o + i);
        }
        let mut node: usize = self.offset + i;
        if val >= 0 {
            self.tree[node] = self.tree[node] + 1;
        } else {
            self.tree[node] = self.tree[node] - 1;
        }
        let ghost child = node as int;
        node = node / 2;
        proof {
            assert forall|m: int| 1 <= m < o && m != node implies #[trigger] node_is_sum(
                self.tree@,
                m,
            ) by {
                assert(node_is_sum(before, m));
            }
        }

        while node > 0
            invariant
                self.offset == o,
                o >= DEFAULT_INDEX_TREE_OFFSET,
                2 * o <= usize::MAX,
                i < o,
                tree_sums(before, o),
                self.tree@.len() == 2 * o,
                val == 1 || val == -1,
                val == 1 ==> before[1] < usize::MAX,
                val == -1 ==> before[child] >= 1,
                1 <= child < 2 * o,
                node == child / 2,
                self.tree@[child] == before[child] + val,
                forall|m: int| o <= m < 2 * o && m != o + i ==> self.tree@[m] == before[m],
                self.tree@[o + i] == before[o + i] + val,
                forall|m: int|
                    0 <= m < 2 * child && m < 2 * o && m != child ==> self.tree@[m] == before[m],
                forall|m: int| 1 <= m < o && m != node ==> #[trigger] node_is_sum(self.tree@, m),
            decreases node,
        {
            proof {
                lemma_root_sum(before, o, node as int);
                assert(node_is_sum(before, node as int));
            }
            let ghost prior = self.tree@;
            self.tree[node] = self.tree[2 * node] + self.tree[2 * node + 1];
            proof {
                assert forall|m: int| 1 <= m < o && m != node / 2 implies #[trigger] node_is_sum(
                    self.tree@,
                    m,
                ) by {
                    if m != node {
                        assert(node_is_sum(prior, m));
                    }
                }
                child = node as int;
            }
            node = node / 2;
        }
        proof {
            assert(final(self).leaves() =~= old(self).leaves().update(
                i as int,
                (old(self).leaves()[i as int] + val) as usize,
            ));
        }
    }

    /// The sum of the leaves `ql..=qr`, as far as the tree has them.
    pub fn sum(&self, ql: usize, qr: usize) -> (total: usize)
        requires
            self.wf(),
        ensures
            total == range_sum(
                self.leaves(),
                ql as int,
                if qr < self.offset() { qr + 1 } else { self.offset() },
            ),
    {
        proof {
            lemma_pow2_min(self.offset());
        }
        self.sum_below(ql, qr, 1, 0, self.offset - 1)
    }

    /// The sum of those leaves among `ql..=qr` that lie below `node`, whose leaves are `l..=r`.
    pub fn sum_below(&self, ql: usize, qr: usize, node: usize, l: usize, r: usize) -> (total:
        usize)
        requires
            self.wf(),
            1 <= node < 2 * self.offset(),
            l == node_lo(self.offset(), node as int),
            r + 1 == l + node_width(self.offset(), node as int),
        ensures
            total == range_sum(
                self.leaves(),
                if ql > l { ql as int } else { l as int },
                if qr < r { qr + 1 } else { r + 1 },
            ),
        decreases 2 * self.offset() - node,
    {
        proof {
            lemma_span(self.offset(), node as int);
            lemma_node_sum(self.nodes(), self.offset(), node as int);
        }
        if ql <= l && r <= qr {
            return self.tree[node];
        }
        if qr < l || r < ql {
            return 0;
        }
        let m = (l + r) / 2;
        let left = self.sum_below(ql, qr, 2 * node, l, m);
        let right = self.sum_below(ql, qr, 2 * node + 1, m + 1, r);
        proof {
            let s = self.leaves();
            let lo = if ql > l { ql as int } else { l as int };
            let hi = if qr < r { qr + 1 } else { r + 1 };
            if lo <= hi {
                let mid = if m + 1 < lo { lo } else if m + 1 > hi { hi } else { m + 1 };
                lemma_range_split(s, lo, mid, hi);
                lemma_range_mono(s, lo, hi, 0, self.offset());
                lemma_root_sum(self.nodes(), self.offset(), 1);
            }
        }
        left + right
    }

    /// The leaf that holds the element of rank `k`, counted over all leaves from the left, and
    /// the element's place within that leaf.
    pub fn locate(&self, k: usize) -> (at: (usize, usize))
        requires
            self.wf(),
            k < range_sum(self.leaves(), 0, self.offset()),
        ensures
            at.0 < self.offset(),
            at.1 < self.leaves()[at.0 as int],
            range_sum(self.leaves(), 0, at.0 as int) + at.1 == k,
    {
        let ghost o = self.offset();
        let ghost s = self.leaves();
        proof {
            lemma_pow2_min(o);
            lemma_root_sum(self.nodes(), o, 1);
            lemma_node_sum(self.nodes(), o, 1);
        }
        let mut cnt: usize = k + 1;
        let mut node: usize = 1;
        while node < self.offset
            invariant
                self.wf(),
                o == self.offset(),
                s == self.leaves(),
                1 <= node < 2 * o,
                1 <= cnt <= self.nodes()[node as int],
                range_sum(s, 0, node_lo(o, node as int)) + cnt == k + 1,
            decreases 2 * o - node,
        {
            proof {
                lemma_span(o, node as int);
                lemma_node_sum(self.nodes(), o, node as int);
                lemma_node_sum(self.nodes(), o, 2 * node);
                lemma_node_sum(self.nodes(), o, 2 * node + 1);
                let lo = node_lo(o, node as int);
                let h = node_width(o, 2 * node);
                lemma_range_split(s, 0, lo, lo + h);
                assert(node_is_sum(self.nodes(), node as int));
            }
            if self.tree[2 * node] >= cnt {
                node = 2 * node;
            } else {
                cnt = cnt - self.tree[2 * node];
                node = 2 * node + 1;
            }
        }
        proof {
            lemma_span(o, node as int);
        }
        (node - self.offset, cnt - 1)
    }

    /// The nodes, node 0 included.
    pub fn as_vec(&self) -> (v: &Vec<usize>)
        ensures
            v@ == self.nodes(),
    {
        &self.tree
    }

    /// The number of leaves.
    pub fn leaf_count(&self) -> (n: usize)
        ensures
            n == self.offset(),
    {
        self.offset
    }
}

/// 32 is a power of two.
pub proof fn lemma_pow2_32()
    ensures
        is_pow2(32),
{
    assert(is_pow2(1));
    assert(is_pow2(2));
    assert(is_pow2(4));
    assert(is_pow2(8));
    assert(is_pow2(16));
}

/// A power of two is at least one.
pub proof fn lemma_pow2_min(n: int)
    requires
        is_pow2(n),
    ensures
        n >= 1,
{
}

} // verus!
