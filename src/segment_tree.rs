use vstd::prelude::*;

verus! {

/// `2` to the power `h`.
pub open spec fn pow2(h: nat) -> nat
    decreases h,
{
    if h == 0 {
        1
    } else {
        2 * pow2((h - 1) as nat)
    }
}

/// `f` is associative and `e` is a two-sided identity of it.
pub open spec fn is_monoid<M>(f: spec_fn(M, M) -> M, e: M) -> bool {
    &&& forall|a: M, b: M, c: M| #[trigger] f(f(a, b), c) == f(a, f(b, c))
    &&& forall|a: M| #[trigger] f(e, a) == a
    &&& forall|a: M| #[trigger] f(a, e) == a
}

/// `op` may be called on any two values, and whatever it returns on `(a, b)` is `f(a, b)`.
pub open spec fn computes<M, BinOp: Fn(M, M) -> M>(op: BinOp, f: spec_fn(M, M) -> M) -> bool {
    &&& forall|a: M, b: M| #[trigger] call_requires(op, (a, b))
    &&& forall|a: M, b: M, r: M| #[trigger] call_ensures(op, (a, b), r) ==> r == f(a, b)
}

/// `op` computes `f`, and `f` is associative with identity `e`.
pub open spec fn models<M, BinOp: Fn(M, M) -> M>(op: BinOp, e: M, f: spec_fn(M, M) -> M) -> bool {
    computes(op, f) && is_monoid(f, e)
}

/// `op` computes an associative operation of which `e` is the identity.
pub open spec fn is_monoid_op<M, BinOp: Fn(M, M) -> M>(op: BinOp, e: M) -> bool {
    exists|f: spec_fn(M, M) -> M| #[trigger] models(op, e, f)
}

/// Entry `k` of `s` is `f` of entries `2k+1` and `2k+2`.
spec fn combines_at<M>(s: Seq<M>, f: spec_fn(M, M) -> M, k: int) -> bool {
    s[k] == f(s[2 * k + 1], s[2 * k + 2])
}

/// The fold of `s` from the left under `f`, starting from `e`.
pub open spec fn fold<M>(f: spec_fn(M, M) -> M, e: M, s: Seq<M>) -> M
    decreases s.len(),
{
    if s.len() == 0 {
        e
    } else {
        f(fold(f, e, s.drop_last()), s.last())
    }
}

/// `c` is the smallest power of two that is at least `n` (and at least 1).
pub open spec fn is_padded_size(c: nat, n: nat) -> bool {
    &&& exists|h: nat| c == #[trigger] pow2(h)
    &&& n <= c
    &&& c == 1 || c < 2 * n
}

/// The fold of `s ++ t` combines the folds of `s` and of `t`.
pub proof fn lemma_fold_concat<M>(f: spec_fn(M, M) -> M, e: M, s: Seq<M>, t: Seq<M>)
    requires
        is_monoid(f, e),
    ensures
        fold(f, e, s + t) == f(fold(f, e, s), fold(f, e, t)),
    decreases t.len(),
{
    if t.len() == 0 {
        assert(s + t =~= s);
    } else {
        lemma_fold_concat(f, e, s, t.drop_last());
        assert((s + t).drop_last() =~= s + t.drop_last());
        assert((s + t).last() == t.last());
    }
}

/// The fold of a single value is that value.
pub proof fn lemma_fold_single<M>(f: spec_fn(M, M) -> M, e: M, x: M)
    requires
        is_monoid(f, e),
    ensures
        fold(f, e, seq![x]) == x,
{
    assert(seq![x].drop_last() =~= Seq::<M>::empty());
    assert(fold(f, e, seq![x].drop_last()) == e);
}

/// A sequence of identities folds to the identity.
pub proof fn lemma_fold_identities<M>(f: spec_fn(M, M) -> M, e: M, n: nat)
    requires
        is_monoid(f, e),
    ensures
        fold(f, e, Seq::new(n, |j: int| e)) == e,
    decreases n,
{
    if n > 0 {
        lemma_fold_identities(f, e, (n - 1) as nat);
        assert(Seq::new(n, |j: int| e).drop_last() =~= Seq::new((n - 1) as nat, |j: int| e));
    }
}

/// A tree of all identities in which one slot was set to `v` folds, over its
/// whole range, to `v`.
pub proof fn lemma_single_update_full_range<M>(f: spec_fn(M, M) -> M, e: M, n: nat, p: nat, v: M)
    requires
        is_monoid(f, e),
        p < n,
    ensures
        fold(f, e, Seq::new(n, |j: int| e).update(p as int, v)) == v,
{
    let s = Seq::new(n, |j: int| e).update(p as int, v);
    let before = Seq::new(p, |j: int| e);
    let after = Seq::new((n - p - 1) as nat, |j: int| e);
    assert(s =~= before + seq![v] + after);
    lemma_fold_concat(f, e, before + seq![v], after);
    lemma_fold_concat(f, e, before, seq![v]);
    lemma_fold_identities(f, e, p);
    lemma_fold_identities(f, e, (n - p - 1) as nat);
    lemma_fold_single(f, e, v);
}

proof fn lemma_pow2_pos(h: nat)
    ensures
        pow2(h) >= 1,
    decreases h,
{
    if h > 0 {
        lemma_pow2_pos((h - 1) as nat);
    }
}

proof fn lemma_pow2_mono(a: nat, b: nat)
    requires
        a <= b,
    ensures
        pow2(a) <= pow2(b),
    decreases b,
{
    if a < b {
        lemma_pow2_mono(a, (b - 1) as nat);
        lemma_pow2_pos((b - 1) as nat);
    }
}

/// Index in the implicit layout of node `i` (from the left) at depth `d`.
spec fn node_index(d: nat, i: nat) -> int {
    pow2(d) - 1 + i
}

/// Width of the leaf range covered by a node at depth `d` of a tree of height `h`.
spec fn node_width(h: nat, d: nat) -> nat {
    pow2((h - d) as nat)
}

/// The arithmetic that relates a node to its two children.
proof fn lemma_children(h: nat, d: nat, i: nat)
    requires
        d < h,
        i < pow2(d),
    ensures
        node_width(h, d) == 2 * node_width(h, d + 1),
        node_index(d + 1, 2 * i) == 2 * node_index(d, i) + 1,
        node_index(d + 1, 2 * i + 1) == 2 * node_index(d, i) + 2,
        2 * i + 1 < pow2(d + 1),
        (2 * i) * node_width(h, d + 1) == i * node_width(h, d),
        (2 * i + 1) * node_width(h, d + 1) == i * node_width(h, d) + node_width(h, d + 1),
        node_index(d, i) < pow2(h) - 1,
{
    let w = node_width(h, d + 1);
    assert(pow2((h - d) as nat) == 2 * pow2((h - (d + 1)) as nat));
    assert(pow2(d + 1) == 2 * pow2(d));
    lemma_pow2_mono(d + 1, h);
    assert((2 * i) * w == i * (2 * w)) by (nonlinear_arith);
    assert((2 * i + 1) * w == i * (2 * w) + w) by (nonlinear_arith);
}

/// A node's leaf range lies within the leaves.
proof fn lemma_node_range(h: nat, d: nat, i: nat)
    requires
        d <= h,
        i < pow2(d),
    ensures
        i * node_width(h, d) + node_width(h, d) <= pow2(h),
        node_width(h, d) >= 1,
        d == h ==> node_width(h, d) == 1 && i * node_width(h, d) == i,
        0 <= node_index(d, i) < 2 * pow2(h) - 1,
{
    let w = node_width(h, d);
    if d == h {
        assert(pow2(0) == 1);
        assert((h - d) as nat == 0);
        assert(i * w == i) by (nonlinear_arith)
            requires
                w == 1,
        ;
    }
    lemma_pow2_pos((h - d) as nat);
    lemma_pow2_mono(d, h);
    lemma_pow2_adds(d, (h - d) as nat);
    assert(d + (h - d) as nat == h);
    assert(i * w + w <= pow2(d) * w) by (nonlinear_arith)
        requires
            i + 1 <= pow2(d),
            w >= 1,
    ;
}

proof fn lemma_pow2_adds(a: nat, b: nat)
    ensures
        pow2(a + b) == pow2(a) * pow2(b),
    decreases a,
{
    if a > 0 {
        lemma_pow2_adds((a - 1) as nat, b);
        assert(pow2(a + b) == 2 * pow2((a - 1 + b) as nat));
        assert(pow2(a) == 2 * pow2((a - 1) as nat));
        assert(2 * pow2((a - 1) as nat) * pow2(b) == 2 * (pow2((a - 1) as nat) * pow2(b)))
            by (nonlinear_arith);
    } else {
        assert(pow2(a) == 1);
    }
}

/// Node `k` lies on the path from node `p` to the root, `p` excluded.
spec fn is_ancestor(k: int, p: int) -> bool
    decreases p,
{
    if p <= 0 {
        false
    } else {
        k == (p - 1) / 2 || is_ancestor(k, (p - 1) / 2)
    }
}

/// A fixed-size sequence of monoid values, kept as a complete binary tree in
/// array form, with point update and range fold in logarithmic time.
pub struct SegmentTree<M, BinOp> {
    n_org: usize,
    n: usize,
    op: BinOp,
    e: M,
    dat: Vec<M>,
    height: Ghost<nat>,
}

impl<M, BinOp> View for SegmentTree<M, BinOp> {
    type V = Seq<M>;

    /// The values at the logical positions, in order.
    closed spec fn view(&self) -> Seq<M> {
        self.dat@.subrange(self.n - 1, self.n - 1 + self.n_org)
    }
}

impl<M: Copy, BinOp: Fn(M, M) -> M> SegmentTree<M, BinOp> {
    /// The number of positions that callers address.
    pub closed spec fn size(&self) -> nat {
        self.n_org as nat
    }

    /// The number of leaves: the size rounded up to a power of two.
    pub closed spec fn capacity(&self) -> nat {
        self.n as nat
    }

    /// The combining function given at construction.
    pub closed spec fn operation(&self) -> BinOp {
        self.op
    }

    /// The identity given at construction.
    pub closed spec fn identity(&self) -> M {
        self.e
    }

    /// All leaves, the padding ones included.
    closed spec fn leaves(&self) -> Seq<M> {
        self.dat@.subrange(self.n - 1, 2 * self.n - 1)
    }

    /// Internal node `k` holds the combination of its two children under `f`.
    closed spec fn node_combines(&self, f: spec_fn(M, M) -> M, k: int) -> bool {
        combines_at(self.dat@, f, k)
    }

    /// The tree's invariant.
    pub closed spec fn well_formed(&self) -> bool {
        &&& is_monoid_op(self.op, self.e)
        &&& self.n == pow2(self.height@)
        &&& self.n_org <= self.n
        &&& self.dat@.len() == 2 * self.n - 1
        &&& self.dat@.len() <= usize::MAX
        &&& forall|f: spec_fn(M, M) -> M, k: int|
            models(self.op, self.e, f) && 0 <= k < self.n - 1 ==> #[trigger] self.node_combines(f, k)
        &&& forall|p: int| self.n_org <= p < self.n ==> #[trigger] self.leaves()[p] == self.e
    }

    /// The fold of the leaves that lie both in `[a, b)` and in `[l, r)`.
    closed spec fn clipped_fold(&self, f: spec_fn(M, M) -> M, a: int, b: int, l: int, r: int) -> M {
        let lo = if a < l { l } else { a };
        let hi = if b < r { b } else { r };
        if lo < hi {
            fold(f, self.e, self.leaves().subrange(lo, hi))
        } else {
            self.e
        }
    }

    /// Node `i` at depth `d` holds the fold of the leaves it covers.
    proof fn lemma_node_value(&self, f: spec_fn(M, M) -> M, d: nat, i: nat)
        requires
            self.well_formed(),
            models(self.op, self.e, f),
            d <= self.height@,
            i < pow2(d),
        ensures
            self.dat@[node_index(d, i)] == fold(
                f,
                self.e,
                self.leaves().subrange(
                    (i * node_width(self.height@, d)) as int,
                    (i * node_width(self.height@, d) + node_width(self.height@, d)) as int,
                ),
            ),
        decreases self.height@ - d,
    {
        let h = self.height@;
        lemma_node_range(h, d, i);
        if d == h {
            assert(node_width(h, d) == 1);
            assert(self.leaves().subrange(i as int, i + 1 as int) =~= seq![self.leaves()[i as int]]);
            lemma_fold_single(f, self.e, self.leaves()[i as int]);
        } else {
            lemma_children(h, d, i);
            lemma_node_range(h, d + 1, 2 * i + 1);
            self.lemma_node_value(f, d + 1, 2 * i);
            self.lemma_node_value(f, d + 1, 2 * i + 1);
            let k = node_index(d, i);
            assert(self.node_combines(f, k));
            let lo: int = (i * node_width(h, d)) as int;
            let mid: int = lo + node_width(h, d + 1);
            let hi: int = lo + node_width(h, d);
            let lv = self.leaves();
            assert(lv.subrange(lo, mid) + lv.subrange(mid, hi) =~= lv.subrange(lo, hi));
            lemma_fold_concat(f, self.e, lv.subrange(lo, mid), lv.subrange(mid, hi));
        }
    }

    /// Creates a tree of `n` positions, each holding `e`; `bin_op` and `e` are
    /// fixed for the tree's lifetime. The bound on `n` keeps the storage,
    /// under four times `n`, within `usize`.
    pub fn new(n: usize, bin_op: BinOp, e: M) -> (t: Self)
        requires
            is_monoid_op(bin_op, e),
            n <= usize::MAX / 4,
        ensures
            t.well_formed(),
            t.size() == n,
            is_padded_size(t.capacity(), n as nat),
            t.operation() == bin_op,
            t.identity() == e,
            t@ == Seq::new(n as nat, |j: int| e),
    {
        let mut seg_n: usize = 1;
        let ghost mut h: nat = 0;
        while seg_n < n
            invariant
                seg_n == pow2(h),
                seg_n >= 1,
                seg_n == 1 || seg_n < 2 * n,
                n <= usize::MAX / 4,
            decreases 2 * n - seg_n,
        {
            seg_n = seg_n * 2;
            proof {
                h = h + 1;
            }
        }
        let len: usize = seg_n + (seg_n - 1);
        let mut dat: Vec<M> = Vec::new();
        while dat.len() < len
            invariant
                dat@.len() <= len,
                forall|j: int| 0 <= j < dat@.len() ==> dat@[j] == e,
            decreases len - dat@.len(),
        {
            dat.push(e);
        }
        let t = SegmentTree { n_org: n, n: seg_n, op: bin_op, e, dat, height: Ghost(h) };
        proof {
            assert forall|f: spec_fn(M, M) -> M, k: int|
                models(t.op, t.e, f) && 0 <= k < t.n - 1 implies #[trigger] t.node_combines(f, k) by {
                assert(f(e, e) == e);
            }
            assert(t@ =~= Seq::new(n as nat, |j: int| e));
        }
        t
    }

    /// The fold of the leaves in `[a, b)` that lie under node `k`, which covers `[l, r)`.
    fn query_impl(
        &self,
        a: usize,
        b: usize,
        k: usize,
        l: usize,
        r: usize,
        Ghost(d): Ghost<nat>,
        Ghost(i): Ghost<nat>,
    ) -> (v: M)
        requires
            self.well_formed(),
            d <= self.height@,
            i < pow2(d),
            k == node_index(d, i),
            l == i * node_width(self.height@, d),
            r == l + node_width(self.height@, d),
        ensures
            forall|f: spec_fn(M, M) -> M|
                #[trigger] models(self.op, self.e, f) ==> v == self.clipped_fold(
                    f,
                    a as int,
                    b as int,
                    l as int,
                    r as int,
                ),
        decreases self.height@ - d,
    {
        let ghost h = self.height@;
        proof {
            lemma_node_range(h, d, i);
        }
        if a <= l && r <= b {
            proof {
                assert forall|f: spec_fn(M, M) -> M| #[trigger] models(self.op, self.e, f) implies self.dat@[k as int]
                    == self.clipped_fold(f, a as int, b as int, l as int, r as int) by {
                    self.lemma_node_value(f, d, i);
                }
            }
            self.dat[k]
        } else if r <= a || b <= l {
            self.e
        } else {
            proof {
                lemma_children(h, d, i);
                lemma_node_range(h, d + 1, 2 * i + 1);
            }
            let mid = l + (r - l) / 2;
            let vl = self.query_impl(a, b, k * 2 + 1, l, mid, Ghost(d + 1), Ghost(2 * i));
            let vr = self.query_impl(a, b, k * 2 + 2, mid, r, Ghost(d + 1), Ghost(2 * i + 1));
            let v = (self.op)(vl, vr);
            proof {
                assert forall|f: spec_fn(M, M) -> M| #[trigger] models(self.op, self.e, f) implies v
                    == self.clipped_fold(f, a as int, b as int, l as int, r as int) by {
                    assert(v == f(vl, vr));
                    assert(vl == self.clipped_fold(f, a as int, b as int, l as int, mid as int));
                    assert(vr == self.clipped_fold(f, a as int, b as int, mid as int, r as int));
                    let lv = self.leaves();
                    let lo: int = if a < l { l as int } else { a as int };
                    let hi: int = if b < r { b as int } else { r as int };
                    if lo < mid && mid < hi {
                        assert(lv.subrange(lo, mid as int) + lv.subrange(mid as int, hi) =~= lv.subrange(lo, hi));
                        lemma_fold_concat(f, self.e, lv.subrange(lo, mid as int), lv.subrange(mid as int, hi));
                    }
                }
            }
            v
        }
    }

    /// Sets the value at position `pos` to `x`, then recomputes its ancestors
    /// from the leaf up to the root.
    pub fn update(&mut self, pos: usize, x: M)
        requires
            old(self).well_formed(),
            pos < old(self).size(),
        ensures
            final(self).well_formed(),
            final(self)@ == old(self)@.update(pos as int, x),
            final(self).size() == old(self).size(),
            final(self).capacity() == old(self).capacity(),
            final(self).operation() == old(self).operation(),
            final(self).identity() == old(self).identity(),
    {
        let ghost old_leaves = self.leaves();
        let mut p: usize = pos + (self.n - 1);
        self.dat.set(p, x);
        proof {
            assert(self.leaves() =~= old_leaves.update(pos as int, x));
            assert forall|f: spec_fn(M, M) -> M, k: int|
                models(self.op, self.e, f) && 0 <= k < self.n - 1 && !is_ancestor(k, p as int)
                    implies #[trigger] self.node_combines(f, k) by {
                assert(old(self).node_combines(f, k));
            }
        }
        while p > 0
            invariant
                self.n == old(self).n,
                self.n_org == old(self).n_org,
                self.op == old(self).op,
                self.e == old(self).e,
                self.height == old(self).height,
                is_monoid_op(self.op, self.e),
                self.n == pow2(self.height@),
                self.n_org <= self.n,
                self.dat@.len() == 2 * self.n - 1,
                self.dat@.len() <= usize::MAX,
                p < self.dat@.len(),
                self.leaves() == old_leaves.update(pos as int, x),
                forall|f: spec_fn(M, M) -> M, k: int|
                    models(self.op, self.e, f) && 0 <= k < self.n - 1 && !is_ancestor(k, p as int)
                        ==> #[trigger] self.node_combines(f, k),
            decreases p,
        {
            let par = (p - 1) / 2;
            let cl = par * 2 + 1;
            let cr = par * 2 + 2;
            let v = (self.op)(self.dat[cl], self.dat[cr]);
            let ghost before = self.dat@;
            proof {
                assert forall|f: spec_fn(M, M) -> M, k: int|
                    models(self.op, self.e, f) && 0 <= k < self.n - 1 && !is_ancestor(k, p as int)
                        implies #[trigger] combines_at(before, f, k) by {
                    assert(self.node_combines(f, k));
                }
            }
            self.dat.set(par, v);
            proof {
                assert(self.leaves() =~= old_leaves.update(pos as int, x)) by {
                    assert forall|j: int| 0 <= j < self.n implies self.leaves()[j] == old_leaves.update(pos as int, x)[j] by {
                        assert(self.dat@[self.n - 1 + j] == before[self.n - 1 + j]);
                    }
                }
                assert forall|f: spec_fn(M, M) -> M, k: int|
                    models(self.op, self.e, f) && 0 <= k < self.n - 1 && !is_ancestor(k, par as int)
                        implies #[trigger] self.node_combines(f, k) by {
                    if k != par {
                        assert(!is_ancestor(k, p as int));
                        assert(combines_at(before, f, k));
                    } else {
                        assert(v == f(before[2 * k + 1], before[2 * k + 2]));
                    }
                }
            }
            p = par;
        }
        proof {
            assert forall|q: int| self.n_org <= q < self.n implies #[trigger] self.leaves()[q] == self.e by {
                assert(old_leaves[q] == old(self).leaves()[q]);
            }
            assert(self@ =~= old(self)@.update(pos as int, x));
        }
    }

    /// The fold, from the left, of the values at positions `a .. b`, under
    /// every operation that the combining function computes; the identity
    /// where the range is empty.
    pub fn query(&self, a: usize, b: usize) -> (v: M)
        requires
            self.well_formed(),
            a <= b <= self.size(),
        ensures
            forall|f: spec_fn(M, M) -> M|
                #[trigger] models(self.operation(), self.identity(), f) ==> v == fold(
                    f,
                    self.identity(),
                    self@.subrange(a as int, b as int),
                ),
            a == b ==> v == self.identity(),
    {
        proof {
            let f = choose|f: spec_fn(M, M) -> M| #[trigger] models(self.op, self.e, f);
            assert(models(self.op, self.e, f));
            assert(node_index(0, 0) == 0);
            assert(0 * node_width(self.height@, 0) == 0);
            assert(node_width(self.height@, 0) == self.n);
            assert(self@.subrange(a as int, b as int) =~= self.leaves().subrange(a as int, b as int));
            assert(Seq::<M>::empty().len() == 0);
        }
        self.query_impl(a, b, 0, 0, self.n, Ghost(0), Ghost(0))
    }
}

} // verus!
