use vstd::prelude::*;

verus! {

/// A finite, restartable sequence of grid indices.
///
/// Every index sequence can be walked any number of times and read at any
/// position, which is what a cross product needs: the fast sequence is walked
/// once for every element of the slow one.
pub trait Range: Sized {
    /// The indices, in order.
    spec fn indices(&self) -> Seq<usize>;

    /// Number of indices.
    fn count(&self) -> (n: usize)
        ensures
            n == self.indices().len(),
    ;

    /// The index at position `i`.
    fn at(&self, i: usize) -> (v: usize)
        requires
            i < self.indices().len(),
        ensures
            v == self.indices()[i as int],
    ;

}

impl Range for std::ops::Range<usize> {
    open spec fn indices(&self) -> Seq<usize> {
        Seq::new(
            if self.start <= self.end {
                (self.end - self.start) as nat
            } else {
                0
            },
            |i: int| (self.start + i) as usize,
        )
    }

    fn count(&self) -> (n: usize) {
        if self.start <= self.end {
            self.end - self.start
        } else {
            0
        }
    }

    fn at(&self, i: usize) -> (v: usize) {
        self.start + i
    }
}

impl Range for Vec<usize> {
    open spec fn indices(&self) -> Seq<usize> {
        self@
    }

    fn count(&self) -> (n: usize) {
        self.len()
    }

    fn at(&self, i: usize) -> (v: usize) {
        self[i]
    }
}

/// The pairs of the cross product of `xs` and `ys`: for each `y` of `ys` in
/// order, every `x` of `xs` in order.
pub open spec fn cross(xs: Seq<usize>, ys: Seq<usize>) -> Seq<(usize, usize)> {
    Seq::new(xs.len() * ys.len(), |i: int| (xs[i % xs.len() as int], ys[i / xs.len() as int]))
}

/// All pairs `(x, y)` with `x` from `xs` and `y` from `ys`, `x` varying fastest.
pub fn cross_product<X: Range, Y: Range>(xs: X, ys: Y) -> (r: CrossProduct<X, Y>)
    ensures
        r.wf(),
        r.xs() == xs.indices(),
        r.ys() == ys.indices(),
        r.position() == 0,
{
    CrossProduct::new(xs, ys)
}

/// Position `i` of row `j` of a cross product sits at `j * n + i`.
pub proof fn lemma_row_major(n: int, j: int, i: int)
    requires
        0 <= i < n,
        0 <= j,
    ensures
        (j * n + i) % n == i,
        (j * n + i) / n == j,
{
    vstd::arithmetic::div_mod::lemma_fundamental_div_mod_converse(j * n + i, n, j, i);
}

/// A position below `n * m` lies in a row below `m`.
pub proof fn lemma_cross_index_bounds(n: int, m: int, k: int)
    requires
        0 <= k < n * m,
        0 < n,
    ensures
        0 <= k % n < n,
        0 <= k / n < m,
{
    vstd::arithmetic::div_mod::lemma_div_pos_is_pos(k, n);
    vstd::arithmetic::div_mod::lemma_mod_bound(k, n);
    vstd::arithmetic::div_mod::lemma_fundamental_div_mod(k, n);
    let q = k / n;
    let r = k % n;
    assert(q < m) by (nonlinear_arith)
        requires
            k == n * q + r,
            0 <= r,
            0 < n,
            k < n * m,
    ;
}

/// Every pair of a cross product is made of members of the two sequences.
pub proof fn lemma_cross_bounded(xs: Seq<usize>, ys: Seq<usize>, bx: int, by: int, i: int)
    requires
        forall|j: int| 0 <= j < xs.len() ==> #[trigger] xs[j] < bx,
        forall|j: int| 0 <= j < ys.len() ==> #[trigger] ys[j] < by,
        0 <= i < cross(xs, ys).len(),
    ensures
        cross(xs, ys)[i].0 < bx,
        cross(xs, ys)[i].1 < by,
{
    if xs.len() == 0 {
        assert(xs.len() * ys.len() == 0);
    }
    lemma_cross_index_bounds(xs.len() as int, ys.len() as int, i);
}

/// The pairs `(x, y)` of a cross product, handed out one at a time.
pub struct CrossProduct<X: Range, Y: Range> {
    xs: X,
    ys: Y,
    x_len: usize,
    y_len: usize,
    x_pos: usize,
    y_pos: usize,
}

impl<X: Range, Y: Range> CrossProduct<X, Y> {
    /// The fast index sequence.
    pub closed spec fn xs(&self) -> Seq<usize> {
        self.xs.indices()
    }

    /// The slow index sequence.
    pub closed spec fn ys(&self) -> Seq<usize> {
        self.ys.indices()
    }

    /// How many pairs have been handed out so far.
    pub closed spec fn position(&self) -> int {
        self.y_pos * self.x_len + self.x_pos
    }

    /// All pairs, handed out or not.
    pub open spec fn pairs(&self) -> Seq<(usize, usize)> {
        cross(self.xs(), self.ys())
    }

    pub closed spec fn wf(&self) -> bool {
        &&& self.x_len == self.xs.indices().len()
        &&& self.y_len == self.ys.indices().len()
        &&& self.y_pos <= self.y_len
        &&& (self.y_pos < self.y_len ==> self.x_pos < self.x_len)
        &&& (self.y_pos == self.y_len ==> self.x_pos == 0)
    }

    /// No more pairs are handed out than there are.
    pub proof fn lemma_position_bounds(&self)
        requires
            self.wf(),
        ensures
            0 <= self.position() <= self.pairs().len(),
    {
        let n = self.x_len as int;
        let m = self.y_len as int;
        let j = self.y_pos as int;
        let i = self.x_pos as int;
        assert(0 <= j * n + i <= n * m) by (nonlinear_arith)
            requires
                0 <= j <= m,
                0 <= i,
                0 <= n,
                j < m ==> i < n,
                j == m ==> i == 0,
        ;
    }

    pub fn new(xs: X, ys: Y) -> (r: Self)
        ensures
            r.wf(),
            r.xs() == xs.indices(),
            r.ys() == ys.indices(),
            r.position() == 0,
    {
        let x_len = xs.count();
        let y_len = ys.count();
        // With no x there is no pair at all.
        let y_pos = if x_len == 0 {
            y_len
        } else {
            0
        };
        let r = CrossProduct { xs, ys, x_len, y_len, x_pos: 0, y_pos };
        assert(r.position() == 0) by (nonlinear_arith)
            requires
                x_len == 0 || y_pos == 0,
                r.position() == y_pos * x_len + 0,
        ;
        r
    }

    /// The next pair, or `None` once all `|xs| * |ys|` pairs have been handed out.
    pub fn next(&mut self) -> (r: Option<(usize, usize)>)
        requires
            old(self).wf(),
        ensures
            final(self).wf(),
            final(self).xs() == old(self).xs(),
            final(self).ys() == old(self).ys(),
            0 <= old(self).position() <= old(self).pairs().len(),
            old(self).position() < old(self).pairs().len() ==> r == Some(
                old(self).pairs()[old(self).position()],
            ) && final(self).position() == old(self).position() + 1,
            old(self).position() == old(self).pairs().len() ==> r is None && final(self).position()
                == old(self).position(),
    {
        let ghost n = self.x_len as int;
        let ghost m = self.y_len as int;
        let ghost j = self.y_pos as int;
        let ghost i = self.x_pos as int;
        proof {
            self.lemma_position_bounds();
        }
        if self.y_pos >= self.y_len {
            assert(j * n + i == n * m) by (nonlinear_arith)
                requires
                    j == m,
                    i == 0,
            ;
            return None;
        }
        assert(j * n + i < m * n) by (nonlinear_arith)
            requires
                j < m,
                i < n,
                0 <= i,
        ;
        assert(n * m == m * n) by (nonlinear_arith);
        proof {
            lemma_row_major(n, j, i);
        }
        let pair = (self.xs.at(self.x_pos), self.ys.at(self.y_pos));
        if self.x_pos + 1 == self.x_len {
            self.x_pos = 0;
            self.y_pos = self.y_pos + 1;
            assert((j + 1) * n + 0 == j * n + i + 1) by (nonlinear_arith)
                requires
                    i + 1 == n,
            ;
        } else {
            self.x_pos = self.x_pos + 1;
        }
        Some(pair)
    }

    /// The pairs not handed out yet, in order.
    pub fn collect(self) -> (r: Vec<(usize, usize)>)
        requires
            self.wf(),
        ensures
            r@ == self.pairs().skip(self.position()),
    {
        let ghost start = self.position();
        let ghost all = self.pairs();
        proof {
            self.lemma_position_bounds();
        }
        let mut rest = self;
        let mut r: Vec<(usize, usize)> = Vec::new();
        loop
            invariant
                rest.wf(),
                rest.pairs() == all,
                all == self.pairs(),
                start == self.position(),
                0 <= start <= rest.position() <= all.len(),
                r@ == all.subrange(start, rest.position()),
            decreases all.len() - rest.position(),
        {
            let ghost before = rest.position();
            proof {
                rest.lemma_position_bounds();
            }
            match rest.next() {
                Some(pair) => {
                    r.push(pair);
                    assert(r@ =~= all.subrange(start, rest.position()));
                },
                None => {
                    assert(before == all.len());
                    assert(all.subrange(start, before) =~= all.skip(start));
                    return r;
                },
            }
        }
    }
}

/// Law of the cross product of `0..a` and `0..b`: it has `a * b` pairs, the
/// first `a` of them are `(0, 0)` to `(a - 1, 0)`, and the last is `(a - 1, b - 1)`.
pub proof fn lemma_cross_product_of_ranges(a: usize, b: usize)
    requires
        0 < a,
        0 < b,
    ensures
        ({
            let p = cross((0..a).indices(), (0..b).indices());
            &&& p.len() == a * b
            &&& forall|i: int| 0 <= i < a ==> #[trigger] p[i] == (i as usize, 0usize)
            &&& p[a * b - 1] == ((a - 1) as usize, (b - 1) as usize)
        }),
{
    let xs = (0..a).indices();
    let ys = (0..b).indices();
    let p = cross(xs, ys);
    assert(xs.len() == a && ys.len() == b);
    assert forall|i: int| 0 <= i < a implies #[trigger] p[i] == (i as usize, 0usize) by {
        lemma_row_major(a as int, 0, i);
        assert(a <= a * b) by (nonlinear_arith)
            requires
                0 < b,
        ;
    }
    lemma_row_major(a as int, b - 1, a - 1);
    assert((b - 1) * a + (a - 1) == a * b - 1) by (nonlinear_arith);
}

} // verus!
