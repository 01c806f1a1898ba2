use vstd::prelude::*;

verus! {

/// The key of a distance that no pair of centroids beats.
///
/// Distances are compared through keys: for non-negative binary32 values, the bit patterns
/// are ordered as the values are, and this is the pattern of positive infinity.
pub const INFINITE_DISTANCE_KEY: u32 = 0x7f80_0000u32;

/// `d` is an `n` x `n` matrix.
pub open spec fn is_square(d: Seq<Seq<u32>>, n: int) -> bool {
    &&& d.len() == n
    &&& forall|a: int| 0 <= a < n ==> #[trigger] d[a].len() == n
}

/// `d` is an `n` x `n` matrix that equals its transpose.
pub open spec fn is_symmetric(d: Seq<Seq<u32>>, n: int) -> bool {
    &&& is_square(d, n)
    &&& forall|a: int, b: int| 0 <= a < n && 0 <= b < n ==> #[trigger] d[a][b] == d[b][a]
}

/// The matrix `d` truncated to its first `m` rows and columns.
pub open spec fn truncated(d: Seq<Seq<u32>>, m: int) -> Seq<Seq<u32>> {
    Seq::new(m as nat, |a: int| Seq::new(m as nat, |b: int| d[a][b]))
}

/// The matrix `d` after a row of distances `row` for entry `i` is written both into row `i`
/// and into column `i`, leaving the diagonal entry alone.
pub open spec fn with_distances(d: Seq<Seq<u32>>, i: int, row: Seq<u32>) -> Seq<Seq<u32>> {
    Seq::new(
        d.len(),
        |a: int|
            Seq::new(
                d[a].len(),
                |b: int|
                    if a == i && b != i {
                        row[b]
                    } else if b == i && a != i {
                        row[a]
                    } else {
                        d[a][b]
                    },
            ),
    )
}

/// A set of cluster centroids together with the distance keys between every two of them.
pub struct CentroidSet<C> {
    centroids: Vec<C>,
    distances: Vec<Vec<u32>>,
}

impl<C> View for CentroidSet<C> {
    type V = (Seq<C>, Seq<Seq<u32>>);

    closed spec fn view(&self) -> (Seq<C>, Seq<Seq<u32>>) {
        (self.centroids@, self.distances@.map_values(|row: Vec<u32>| row@))
    }
}

impl<C> CentroidSet<C> {
    /// The distance matrix has one row and one column per centroid.
    pub open spec fn wf(&self) -> bool {
        is_square(self@.1, self@.0.len() as int)
    }

    pub fn new(centroids: Vec<C>, distances: Vec<Vec<u32>>) -> (s: CentroidSet<C>)
        requires
            is_square(distances@.map_values(|row: Vec<u32>| row@), centroids@.len() as int),
        ensures
            s.wf(),
            s@.0 == centroids@,
            s@.1 == distances@.map_values(|row: Vec<u32>| row@),
    {
        CentroidSet { centroids, distances }
    }

    pub fn num_centroids(&self) -> (n: usize)
        ensures
            n == self@.0.len(),
    {
        self.centroids.len()
    }

    pub fn centroid(&self, i: usize) -> (c: &C)
        requires
            i < self@.0.len(),
        ensures
            *c == self@.0[i as int],
    {
        &self.centroids[i]
    }

    pub fn into_centroids(self) -> (v: Vec<C>)
        ensures
            v@ == self@.0,
    {
        self.centroids
    }

    /// The distance key at row `a`, column `b`.
    fn entry(&self, a: usize, b: usize) -> (x: u32)
        requires
            a < self@.1.len(),
            b < self@.1[a as int].len(),
        ensures
            x == self@.1[a as int][b as int],
    {
        proof {
            assert(self.distances@[a as int]@ == self@.1[a as int]);
        }
        self.distances[a][b]
    }

    /// Writes `v` at row `a`, column `b` of the distance matrix.
    fn set_entry(&mut self, a: usize, b: usize, v: u32)
        requires
            a < old(self)@.1.len(),
            b < old(self)@.1[a as int].len(),
        ensures
            final(self)@.0 == old(self)@.0,
            final(self)@.1 == old(self)@.1.update(a as int, old(self)@.1[a as int].update(b as int, v)),
    {
        proof {
            assert(self.distances@[a as int]@ == self@.1[a as int]);
        }
        self.distances[a][b] = v;
        assert(self@.1 =~= old(self)@.1.update(a as int, old(self)@.1[a as int].update(b as int, v)));
    }

    /// Keeps the first `n` entries of row `a` of the distance matrix.
    fn truncate_row(&mut self, a: usize, n: usize)
        requires
            a < old(self)@.1.len(),
        ensures
            final(self)@.0 == old(self)@.0,
            final(self)@.1 == old(self)@.1.update(
                a as int,
                if n < old(self)@.1[a as int].len() {
                    old(self)@.1[a as int].take(n as int)
                } else {
                    old(self)@.1[a as int]
                },
            ),
    {
        proof {
            assert(self.distances@[a as int]@ == self@.1[a as int]);
        }
        self.distances[a].truncate(n);
        assert(self.distances@[a as int]@ =~= if n < old(self)@.1[a as int].len() {
            old(self)@.1[a as int].take(n as int)
        } else {
            old(self)@.1[a as int]
        });
        assert(self@.1 =~= old(self)@.1.update(
            a as int,
            if n < old(self)@.1[a as int].len() {
                old(self)@.1[a as int].take(n as int)
            } else {
                old(self)@.1[a as int]
            },
        ));
    }

    /// Keeps the first `n` centroids and their distances.
    pub fn truncate(&mut self, n: usize)
        requires
            old(self).wf(),
        ensures
            final(self).wf(),
            ({
                let m = if n < old(self)@.0.len() {
                    n as int
                } else {
                    old(self)@.0.len() as int
                };
                &&& final(self)@.0 == old(self)@.0.take(m)
                &&& final(self)@.1 == truncated(old(self)@.1, m)
            }),
    {
        let ghost d = self@.1;
        let ghost m = if n < self@.0.len() {
            n as int
        } else {
            self@.0.len() as int
        };
        self.distances.truncate(n);
        self.centroids.truncate(n);
        assert(self@.1 =~= d.take(m));
        let rows = self.distances.len();
        for r in 0..rows
            invariant
                rows == m,
                m == if n < d.len() {
                    n as int
                } else {
                    d.len() as int
                },
                self@.1.len() == m,
                self@.0 == old(self)@.0.take(m),
                m <= d.len(),
                is_square(d, d.len() as int),
                forall|a: int|
                    0 <= a < m ==> #[trigger] self@.1[a] == if a < r {
                        d[a].take(m)
                    } else {
                        d[a]
                    },
        {
            proof {
                assert(d[r as int].len() == d.len());
                assert(d[r as int].take(d.len() as int) =~= d[r as int]);
            }
            self.truncate_row(r, n);
        }
        assert(self@.1 =~= truncated(d, m)) by {
            assert forall|a: int| 0 <= a < m implies #[trigger] self@.1[a] =~= truncated(d, m)[a] by {}
        }
    }

    /// Replaces centroid `i` by `data`, whose distance key to centroid `j` is `row[j]`.
    pub fn set(&mut self, i: usize, data: C, row: &Vec<u32>)
        requires
            old(self).wf(),
            i < old(self)@.0.len(),
            row@.len() == old(self)@.0.len(),
        ensures
            final(self).wf(),
            final(self)@.0 == old(self)@.0.update(i as int, data),
            final(self)@.1 == with_distances(old(self)@.1, i as int, row@),
            forall|k: int|
                0 <= k < old(self)@.0.len() && k != i ==> #[trigger] final(self)@.1[i as int][k]
                    == row@[k] && final(self)@.1[k][i as int] == row@[k],
            forall|a: int, b: int|
                0 <= a < old(self)@.0.len() && 0 <= b < old(self)@.0.len() && a != i && b != i
                    ==> #[trigger] final(self)@.1[a][b] == old(self)@.1[a][b],
            final(self)@.1[i as int][i as int] == old(self)@.1[i as int][i as int],
            forall|dist: spec_fn(C, C) -> u32|
                is_distance(dist) && #[trigger] distances_follow(old(self)@.0, old(self)@.1, dist) && (
                forall|k: int|
                    0 <= k < old(self)@.0.len() && k != i ==> row@[k] == dist(
                        data,
                        #[trigger] old(self)@.0[k],
                    )) ==> distances_follow(final(self)@.0, final(self)@.1, dist),
    {
        let ghost d = self@.1;
        let n = self.centroids.len();
        self.centroids.set(i, data);
        for j in 0..n
            invariant
                n == self@.0.len(),
                n == d.len(),
                i < n,
                row@.len() == n,
                is_square(d, n as int),
                self@.0 == old(self)@.0.update(i as int, data),
                is_square(self@.1, n as int),
                forall|a: int, b: int|
                    0 <= a < n && 0 <= b < n ==> #[trigger] self@.1[a][b] == if (a == i && b
                        != i && b < j) {
                        row@[b]
                    } else if (b == i && a != i && a < j) {
                        row@[a]
                    } else {
                        d[a][b]
                    },
        {
            if i != j {
                let dist = row[j];
                self.set_entry(i, j, dist);
                self.set_entry(j, i, dist);
            }
        }
        assert(self@.1 =~= with_distances(d, i as int, row@)) by {
            assert forall|a: int| 0 <= a < n implies #[trigger] self@.1[a] =~= with_distances(
                d,
                i as int,
                row@,
            )[a] by {}
        }
        proof {
            lemma_set_follows_centroids(old(self)@.0, d, i as int, data, row@);
        }
    }

    /// Exchanges centroids `i` and `j` and their rows and columns of distances; the four
    /// entries where those rows and columns cross stay where they are.
    pub fn swap(&mut self, i: usize, j: usize)
        requires
            old(self).wf(),
            i < old(self)@.0.len(),
            j < old(self)@.0.len(),
        ensures
            final(self).wf(),
            final(self)@.0 == old(self)@.0.update(i as int, old(self)@.0[j as int]).update(
                j as int,
                old(self)@.0[i as int],
            ),
            final(self)@.1 == swapped(old(self)@.1, i as int, j as int),
            forall|a: int, b: int|
                0 <= a < old(self)@.0.len() && 0 <= b < old(self)@.0.len() && !((a == i || a == j)
                    && (b == i || b == j)) ==> #[trigger] final(self)@.1[a][b] == old(self)@.1[if a
                    == i {
                    j as int
                } else if a == j {
                    i as int
                } else {
                    a
                }][if b == i {
                    j as int
                } else if b == j {
                    i as int
                } else {
                    b
                }],
            forall|a: int, b: int|
                (a == i || a == j) && (b == i || b == j) ==> #[trigger] final(self)@.1[a][b]
                    == old(self)@.1[a][b],
            forall|dist: spec_fn(C, C) -> u32|
                is_distance(dist) && #[trigger] distances_follow(old(self)@.0, old(self)@.1, dist)
                    ==> distances_follow(final(self)@.0, final(self)@.1, dist),
    {
        let ghost d = self@.1;
        let ghost cs = self@.0;
        let n = self.centroids.len();
        if i == j {
            assert(cs.update(i as int, cs[j as int]).update(j as int, cs[i as int]) =~= cs);
            assert(swapped(d, i as int, j as int) =~= d) by {
                assert forall|a: int| 0 <= a < n implies #[trigger] swapped(d, i as int, j as int)[a]
                    =~= d[a] by {}
            }
            proof {
                lemma_swap_follows_centroids(cs, d, i as int, j as int);
            }
            return ;
        }
        swap_elements(&mut self.centroids, i, j);
        for k in 0..n
            invariant
                n == d.len(),
                i < n,
                j < n,
                i != j,
                is_square(d, n as int),
                is_square(self@.1, n as int),
                self@.0 == cs.update(i as int, cs[j as int]).update(j as int, cs[i as int]),
                forall|a: int, b: int|
                    0 <= a < n && 0 <= b < n ==> #[trigger] self@.1[a][b] == if moved_by_swap(
                        a,
                        b,
                        i as int,
                        j as int,
                        k as int,
                    ) {
                        d[swap_index(a, i as int, j as int)][swap_index(b, i as int, j as int)]
                    } else {
                        d[a][b]
                    },
        {
            if k != i && k != j {
                let x = self.entry(i, k);
                let y = self.entry(j, k);
                self.set_entry(i, k, y);
                self.set_entry(j, k, x);
                let x = self.entry(k, i);
                let y = self.entry(k, j);
                self.set_entry(k, i, y);
                self.set_entry(k, j, x);
            }
        }
        assert(self@.1 =~= swapped(d, i as int, j as int)) by {
            assert forall|a: int| 0 <= a < n implies #[trigger] self@.1[a] =~= swapped(
                d,
                i as int,
                j as int,
            )[a] by {}
        }
        proof {
            lemma_swap_follows_centroids(cs, d, i as int, j as int);
        }
    }

    /// The first pair `(i, j)` with `i < j`, in row-major order, whose distance key is the least
    /// and below the key of infinity; `(0, 0)` when no pair is below it.
    pub fn argmin_distinct(&self) -> (p: (usize, usize))
        requires
            self.wf(),
        ensures
            if has_finite_pair(self@.1, self@.0.len() as int) {
                is_closest_pair(self@.1, self@.0.len() as int, p.0 as int, p.1 as int)
            } else {
                p == (0usize, 0usize)
            },
    {
        let ghost d = self@.1;
        let n = self.centroids.len();
        let mut best_i: (usize, usize) = (0, 0);
        let mut best_x: u32 = INFINITE_DISTANCE_KEY;
        for i in 0..n
            invariant
                n == d.len(),
                d == self@.1,
                is_square(d, n as int),
                scan_state(d, n as int, i as int, i as int + 1, best_i.0 as int, best_i.1 as int, best_x),
        {
            for j in i + 1..n
                invariant
                    n == d.len(),
                    d == self@.1,
                    i < n,
                    is_square(d, n as int),
                    scan_state(d, n as int, i as int, j as int, best_i.0 as int, best_i.1 as int, best_x),
            {
                let dist = self.entry(i, j);
                if dist < best_x {
                    best_i = (i, j);
                    best_x = dist;
                }
                proof {
                    assert forall|a: int, b: int|
                        #![trigger d[a][b]]
                        pair_in(n as int, a, b) && precedes(a, b, i as int, j + 1) && !precedes(
                            a,
                            b,
                            i as int,
                            j as int,
                        ) implies a == i && b == j by {}
                }
            }
            proof {
                assert forall|a: int, b: int|
                    #![trigger d[a][b]]
                    pair_in(n as int, a, b) && precedes(a, b, i + 1, i + 2) implies precedes(
                        a,
                        b,
                        i as int,
                        n as int,
                    ) by {}
            }
        }
        proof {
            assert forall|a: int, b: int| #![trigger d[a][b]] pair_in(n as int, a, b) implies precedes(
                a,
                b,
                n as int,
                n as int + 1,
            ) by {}
        }
        best_i
    }

    /// Merges class `j` into class `i` and drops centroid `j`: the last centroid moves into
    /// slot `j`, and the cells of the last class are relabelled `j`.
    ///
    /// The centroid of class `i` still describes class `i` alone until it is replaced.
    pub fn merge_into(&mut self, classes: &mut Vec<usize>, i: usize, j: usize)
        requires
            old(self).wf(),
            i < j,
            j < old(self)@.0.len(),
        ensures
            ({
                let n = old(self)@.0.len() as int;
                let last = (n - 1) as usize;
                let cs = old(self)@.0;
                &&& final(self).wf()
                &&& final(self)@.0 == cs.update(j as int, cs[last as int]).update(
                    last as int,
                    cs[j as int],
                ).take(n - 1)
                &&& final(self)@.1 == truncated(swapped(old(self)@.1, j as int, last as int), n - 1)
                &&& final(classes)@ == old(classes)@.map_values(
                    |x: usize| merged_class(x, i, j, last),
                )
                &&& classes_cover(old(classes)@, n) ==> classes_cover(final(classes)@, n - 1)
            }),
    {
        let ghost start = classes@;
        let len = classes.len();
        // merge class j into class i
        for idx in 0..len
            invariant
                len == classes@.len(),
                forall|t: int|
                    0 <= t < len ==> #[trigger] classes@[t] == if t < idx {
                        if start[t] == j {
                            i
                        } else {
                            start[t]
                        }
                    } else {
                        start[t]
                    },
        {
            if classes[idx] == j {
                classes[idx] = i;
            }
        }
        // delete the centroid of class j
        let last = self.num_centroids() - 1;
        self.swap(j, last);
        self.truncate(last);
        let ghost mid = classes@;
        for idx in 0..len
            invariant
                len == classes@.len(),
                len == mid.len(),
                forall|t: int|
                    0 <= t < len ==> #[trigger] classes@[t] == if t < idx {
                        if mid[t] == last {
                            j
                        } else {
                            mid[t]
                        }
                    } else {
                        mid[t]
                    },
        {
            if classes[idx] == last {
                classes[idx] = j;
            }
        }
        assert(classes@ =~= start.map_values(|x: usize| merged_class(x, i, j, last)));
        proof {
            if classes_cover(start, old(self)@.0.len() as int) {
                lemma_merge_keeps_cover(start, old(self)@.0.len() as usize, i, j);
            }
        }
    }

    /// One step of the clustering: unless three or fewer centroids are left, merges the closest
    /// pair of classes `(i, j)` as `merge_into` does and reports `Merged { kept: i, removed: j }`.
    /// With more than three centroids and no pair closer than infinity, nothing changes and the
    /// step reports `NoCloserPair`.
    pub fn merge_closest(&mut self, classes: &mut Vec<usize>) -> (step: MergeStep)
        requires
            old(self).wf(),
        ensures
            final(self).wf(),
            ({
                let n = old(self)@.0.len() as int;
                let d = old(self)@.1;
                let cs = old(self)@.0;
                let last = (n - 1) as usize;
                match step {
                    MergeStep::Done => {
                        &&& n <= 3
                        &&& final(self)@.0 == cs
                        &&& final(self)@.1 == d
                        &&& final(classes)@ == old(classes)@
                    },
                    MergeStep::NoCloserPair => {
                        &&& n > 3
                        &&& !has_finite_pair(d, n)
                        &&& final(self)@.0 == cs
                        &&& final(self)@.1 == d
                        &&& final(classes)@ == old(classes)@
                    },
                    MergeStep::Merged { kept, removed } => {
                        &&& n > 3
                        &&& has_finite_pair(d, n)
                        &&& is_closest_pair(d, n, kept as int, removed as int)
                        &&& final(self)@.0 == cs.update(removed as int, cs[last as int]).update(
                            last as int,
                            cs[removed as int],
                        ).take(n - 1)
                        &&& final(self)@.1 == truncated(swapped(d, removed as int, last as int), n - 1)
                        &&& final(classes)@ == old(classes)@.map_values(
                            |x: usize| merged_class(x, kept, removed, last),
                        )
                        &&& classes_cover(old(classes)@, n) ==> classes_cover(final(classes)@, n - 1)
                    },
                }
            }),
    {
        if self.num_centroids() <= 3 {
            return MergeStep::Done;
        }
        let (i, j) = self.argmin_distinct();
        if !(i < j) {
            return MergeStep::NoCloserPair;
        }
        self.merge_into(classes, i, j);
        MergeStep::Merged { kept: i, removed: j }
    }
}

/// What one step of the clustering did.
#[derive(Debug, Clone, Copy, PartialEq, Eq, Structural)]
pub enum MergeStep {
    /// Class `removed` was merged into class `kept`; the centroid of `kept` is to be recomputed.
    Merged { kept: usize, removed: usize },
    /// Three or fewer centroids were left; nothing changed.
    Done,
    /// No two centroids were closer than infinity; nothing changed.
    NoCloserPair,
}

/// Exchanges two elements of a vector.
fn swap_elements<T>(v: &mut Vec<T>, i: usize, j: usize)
    requires
        i < old(v)@.len(),
        j < old(v)@.len(),
    ensures
        final(v)@ == old(v)@.update(i as int, old(v)@[j as int]).update(j as int, old(v)@[i as int]),
{
    let ghost s = v@;
    if i == j {
        assert(s.update(i as int, s[j as int]).update(j as int, s[i as int]) =~= s);
        return;
    }
    let (lo, hi) = if i < j {
        (i, j)
    } else {
        (j, i)
    };
    let y = v.remove(hi);
    let x = v.remove(lo);
    v.insert(lo, y);
    v.insert(hi, x);
    assert(v@ =~= s.update(lo as int, s[hi as int]).update(hi as int, s[lo as int]));
    assert(s.update(i as int, s[j as int]).update(j as int, s[i as int]) =~= s.update(
        lo as int,
        s[hi as int],
    ).update(hi as int, s[lo as int]));
}

/// Where index `a` goes when `i` and `j` change places.
pub open spec fn swap_index(a: int, i: int, j: int) -> int {
    if a == i {
        j
    } else if a == j {
        i
    } else {
        a
    }
}

/// The matrix `d` with rows `i` and `j` and columns `i` and `j` exchanged, except for the four
/// entries where those rows and columns cross.
pub open spec fn swapped(d: Seq<Seq<u32>>, i: int, j: int) -> Seq<Seq<u32>> {
    Seq::new(
        d.len(),
        |a: int|
            Seq::new(
                d[a].len(),
                |b: int|
                    if (a == i || a == j) && (b == i || b == j) {
                        d[a][b]
                    } else {
                        d[swap_index(a, i, j)][swap_index(b, i, j)]
                    },
            ),
    )
}

/// Entry `(a, b)` has already been moved when the exchange of `i` and `j` has handled the
/// indices below `k`.
spec fn moved_by_swap(a: int, b: int, i: int, j: int, k: int) -> bool {
    ||| (a == i || a == j) && !(b == i || b == j) && b < k
    ||| (b == i || b == j) && !(a == i || a == j) && a < k
}

/// `(a, b)` is a pair of distinct centroids among the first `n`, smaller index first.
pub open spec fn pair_in(n: int, a: int, b: int) -> bool {
    0 <= a < b < n
}

/// Pair `(a, b)` comes before pair `(c, e)` in row-major order.
pub open spec fn precedes(a: int, b: int, c: int, e: int) -> bool {
    a < c || (a == c && b < e)
}

/// Some pair of centroids has a distance key below the key of infinity.
pub open spec fn has_finite_pair(d: Seq<Seq<u32>>, n: int) -> bool {
    exists|a: int, b: int| pair_in(n, a, b) && #[trigger] d[a][b] < INFINITE_DISTANCE_KEY
}

/// `(i, j)` is the first pair, in row-major order, with the least distance key, and that key is
/// below the key of infinity.
pub open spec fn is_closest_pair(d: Seq<Seq<u32>>, n: int, i: int, j: int) -> bool {
    &&& pair_in(n, i, j)
    &&& d[i][j] < INFINITE_DISTANCE_KEY
    &&& forall|a: int, b: int| pair_in(n, a, b) ==> d[i][j] <= #[trigger] d[a][b]
    &&& forall|a: int, b: int| pair_in(n, a, b) && precedes(a, b, i, j) ==> d[i][j] < #[trigger] d[a][b]
}

/// What the search for the closest pair knows after looking at the pairs before `(i, j)`.
spec fn scan_state(d: Seq<Seq<u32>>, n: int, i: int, j: int, bi: int, bj: int, bx: u32) -> bool {
    ||| {
        &&& bi == 0 && bj == 0 && bx == INFINITE_DISTANCE_KEY
        &&& forall|a: int, b: int|
            pair_in(n, a, b) && precedes(a, b, i, j) ==> INFINITE_DISTANCE_KEY <= #[trigger] d[a][b]
    }
    ||| {
        &&& pair_in(n, bi, bj) && precedes(bi, bj, i, j)
        &&& d[bi][bj] == bx && bx < INFINITE_DISTANCE_KEY
        &&& forall|a: int, b: int| pair_in(n, a, b) && precedes(a, b, i, j) ==> bx <= #[trigger] d[a][b]
        &&& forall|a: int, b: int|
            pair_in(n, a, b) && precedes(a, b, bi, bj) ==> bx < #[trigger] d[a][b]
    }
}

/// The class a cell of class `x` has after class `j` is merged into class `i` and the last
/// class `last` takes the freed label `j`.
pub open spec fn merged_class(x: usize, i: usize, j: usize, last: usize) -> usize {
    if x == j {
        i
    } else if x == last {
        j
    } else {
        x
    }
}

/// Some cell has class `c`.
pub open spec fn class_has_member(classes: Seq<usize>, c: int) -> bool {
    exists|k: int| 0 <= k < classes.len() && #[trigger] classes[k] == c
}

/// Every cell has one of the classes `0..n`, and each of those classes has a cell.
pub open spec fn classes_cover(classes: Seq<usize>, n: int) -> bool {
    &&& forall|k: int| 0 <= k < classes.len() ==> #[trigger] classes[k] < n
    &&& forall|c: int| 0 <= c < n ==> #[trigger] class_has_member(classes, c)
}

/// Merging class `j` into class `i` and moving the last class to label `j` leaves `n - 1`
/// classes, none of them empty.
pub proof fn lemma_merge_keeps_cover(classes: Seq<usize>, n: usize, i: usize, j: usize)
    requires
        classes_cover(classes, n as int),
        i < j < n,
    ensures
        classes_cover(classes.map_values(|x: usize| merged_class(x, i, j, (n - 1) as usize)), n - 1),
{
    let last = (n - 1) as usize;
    let merged = classes.map_values(|x: usize| merged_class(x, i, j, last));
    assert forall|k: int| 0 <= k < merged.len() implies #[trigger] merged[k] < n - 1 by {
        assert(classes[k] < n);
    }
    assert forall|c: int| 0 <= c < n - 1 implies #[trigger] class_has_member(merged, c) by {
        let source = if c == j {
            last as int
        } else {
            c
        };
        assert(class_has_member(classes, source));
        let k = choose|k: int| 0 <= k < classes.len() && #[trigger] classes[k] == source;
        assert(merged[k] == c);
    }
}

/// The classes before any merge: cell `k` is alone in class `k`.
pub fn singleton_classes(n: usize) -> (classes: Vec<usize>)
    ensures
        classes@ == Seq::new(n as nat, |k: int| k as usize),
        classes_cover(classes@, n as int),
{
    let mut classes: Vec<usize> = Vec::new();
    for k in 0..n
        invariant
            classes@ == Seq::new(k as nat, |t: int| t as usize),
    {
        classes.push(k);
        assert(classes@ =~= Seq::new((k + 1) as nat, |t: int| t as usize));
    }
    assert forall|c: int| 0 <= c < n implies #[trigger] class_has_member(classes@, c) by {
        assert(classes@[c] == c);
    }
    classes
}

/// Merging never separates two cells: cells that shared a class share one afterwards, and the
/// cells of classes `i` and `j` all end up in class `i`.
pub proof fn lemma_merge_coarsens(classes: Seq<usize>, i: usize, j: usize, last: usize)
    requires
        i < j <= last,
    ensures
        ({
            let merged = classes.map_values(|x: usize| merged_class(x, i, j, last));
            &&& forall|a: int, b: int|
                0 <= a < classes.len() && 0 <= b < classes.len() && classes[a] == classes[b]
                    ==> #[trigger] merged[a] == #[trigger] merged[b]
            &&& forall|a: int|
                0 <= a < classes.len() && (classes[a] == i || classes[a] == j) ==> #[trigger] merged[a]
                    == i
        }),
{
}

/// Exchanging the same two centroids twice gives back the distance matrix.
pub proof fn lemma_swap_twice(d: Seq<Seq<u32>>, n: int, i: int, j: int)
    requires
        is_square(d, n),
        0 <= i < n,
        0 <= j < n,
    ensures
        swapped(swapped(d, i, j), i, j) == d,
{
    assert(swapped(swapped(d, i, j), i, j) =~= d) by {
        assert forall|a: int| 0 <= a < n implies #[trigger] swapped(swapped(d, i, j), i, j)[a] =~= d[a] by {}
    }
}

/// A symmetric distance matrix stays symmetric when two centroids are exchanged, when it is
/// truncated, and when one centroid's distances are rewritten.
pub proof fn lemma_symmetry_kept(d: Seq<Seq<u32>>, n: int, i: int, j: int, m: int, row: Seq<u32>)
    requires
        is_symmetric(d, n),
        0 <= i < n,
        0 <= j < n,
        0 <= m <= n,
        row.len() == n,
    ensures
        is_symmetric(swapped(d, i, j), n),
        is_symmetric(truncated(d, m), m),
        is_symmetric(with_distances(d, i, row), n),
{
    let s = swapped(d, i, j);
    assert forall|a: int, b: int| 0 <= a < n && 0 <= b < n implies #[trigger] s[a][b] == s[b][a] by {
        assert(d[swap_index(a, i, j)][swap_index(b, i, j)] == d[swap_index(b, i, j)][swap_index(a, i, j)]);
    }
    let t = truncated(d, m);
    assert forall|a: int, b: int| 0 <= a < m && 0 <= b < m implies #[trigger] t[a][b] == t[b][a] by {
        assert(d[a][b] == d[b][a]);
    }
    let w = with_distances(d, i, row);
    assert forall|a: int, b: int| 0 <= a < n && 0 <= b < n implies #[trigger] w[a][b] == w[b][a] by {
        assert(d[a][b] == d[b][a]);
    }
}


/// The distance matrix `d` holds, between every two slots, the distance `dist` between the
/// centroids in those slots.
pub open spec fn distances_follow<C>(cs: Seq<C>, d: Seq<Seq<u32>>, dist: spec_fn(C, C) -> u32) -> bool {
    &&& is_square(d, cs.len() as int)
    &&& forall|a: int, b: int|
        0 <= a < cs.len() && 0 <= b < cs.len() ==> #[trigger] d[a][b] == dist(cs[a], cs[b])
}

/// `dist` is symmetric and gives every centroid the same distance to itself, as a distance does.
pub open spec fn is_distance<C>(dist: spec_fn(C, C) -> u32) -> bool {
    &&& forall|x: C, y: C| #[trigger] dist(x, y) == dist(y, x)
    &&& forall|x: C, y: C| #[trigger] dist(x, x) == #[trigger] dist(y, y)
}

/// Exchanging two centroids carries their distances along: every entry moves to where its two
/// centroids now are, the entries between the two exchanged slots stay, and a matrix that held
/// the distances between the centroids in its slots still does afterwards.
pub proof fn lemma_swap_follows_centroids<C>(cs: Seq<C>, d: Seq<Seq<u32>>, i: int, j: int)
    requires
        is_square(d, cs.len() as int),
        0 <= i < cs.len(),
        0 <= j < cs.len(),
    ensures
        forall|a: int, b: int|
            0 <= a < cs.len() && 0 <= b < cs.len() && !((a == i || a == j) && (b == i || b == j))
                ==> #[trigger] swapped(d, i, j)[a][b] == d[if a == i {
                j
            } else if a == j {
                i
            } else {
                a
            }][if b == i {
                j
            } else if b == j {
                i
            } else {
                b
            }],
        forall|a: int, b: int|
            (a == i || a == j) && (b == i || b == j) ==> #[trigger] swapped(d, i, j)[a][b] == d[a][b],
        is_square(swapped(d, i, j), cs.len() as int),
        forall|dist: spec_fn(C, C) -> u32|
            is_distance(dist) && #[trigger] distances_follow(cs, d, dist) ==> distances_follow(
                cs.update(i, cs[j]).update(j, cs[i]),
                swapped(d, i, j),
                dist,
            ),
{
    let n = cs.len() as int;
    let moved = cs.update(i, cs[j]).update(j, cs[i]);
    let s = swapped(d, i, j);
    assert forall|dist: spec_fn(C, C) -> u32|
        is_distance(dist) && #[trigger] distances_follow(cs, d, dist) implies distances_follow(
        moved,
        s,
        dist,
    ) by {
        assert forall|a: int, b: int| 0 <= a < n && 0 <= b < n implies #[trigger] s[a][b] == dist(
            moved[a],
            moved[b],
        ) by {
            assert(moved[a] == cs[swap_index(a, i, j)]);
            assert(moved[b] == cs[swap_index(b, i, j)]);
            if (a == i || a == j) && (b == i || b == j) {
                assert(d[a][b] == dist(cs[a], cs[b]));
                if a == b {
                    assert(dist(cs[a], cs[a]) == dist(moved[a], moved[a]));
                } else {
                    assert(dist(cs[a], cs[b]) == dist(cs[b], cs[a]));
                }
            } else {
                assert(d[swap_index(a, i, j)][swap_index(b, i, j)] == dist(
                    cs[swap_index(a, i, j)],
                    cs[swap_index(b, i, j)],
                ));
            }
        }
    }
}

/// Replacing centroid `i` writes the new distances into row `i` and column `i`, for every other
/// centroid before or after `i`, and leaves the rest; when the new distances are those of the
/// new centroid, the matrix holds the distances between the centroids in its slots again.
pub proof fn lemma_set_follows_centroids<C>(cs: Seq<C>, d: Seq<Seq<u32>>, i: int, data: C, row: Seq<u32>)
    requires
        is_square(d, cs.len() as int),
        0 <= i < cs.len(),
        row.len() == cs.len(),
    ensures
        forall|k: int|
            0 <= k < cs.len() && k != i ==> #[trigger] with_distances(d, i, row)[i][k] == row[k]
                && with_distances(d, i, row)[k][i] == row[k],
        forall|a: int, b: int|
            0 <= a < cs.len() && 0 <= b < cs.len() && a != i && b != i ==> #[trigger] with_distances(
                d,
                i,
                row,
            )[a][b] == d[a][b],
        with_distances(d, i, row)[i][i] == d[i][i],
        is_square(with_distances(d, i, row), cs.len() as int),
        forall|dist: spec_fn(C, C) -> u32|
            is_distance(dist) && #[trigger] distances_follow(cs, d, dist) && (forall|k: int|
                0 <= k < cs.len() && k != i ==> row[k] == dist(data, #[trigger] cs[k]))
                ==> distances_follow(cs.update(i, data), with_distances(d, i, row), dist),
{
    let n = cs.len() as int;
    let new_cs = cs.update(i, data);
    let w = with_distances(d, i, row);
    assert forall|dist: spec_fn(C, C) -> u32|
        is_distance(dist) && #[trigger] distances_follow(cs, d, dist) && (forall|k: int|
            0 <= k < cs.len() && k != i ==> row[k] == dist(data, #[trigger] cs[k])) implies distances_follow(
        new_cs,
        w,
        dist,
    ) by {
        assert forall|a: int, b: int| 0 <= a < n && 0 <= b < n implies #[trigger] w[a][b] == dist(
            new_cs[a],
            new_cs[b],
        ) by {
            if a == i && b == i {
                assert(d[i][i] == dist(cs[i], cs[i]));
                assert(dist(cs[i], cs[i]) == dist(data, data));
            } else if a == i {
                assert(row[b] == dist(data, cs[b]));
            } else if b == i {
                assert(row[a] == dist(data, cs[a]));
                assert(dist(data, cs[a]) == dist(cs[a], data));
            } else {
                assert(d[a][b] == dist(cs[a], cs[b]));
            }
        }
    }
}

} // verus!
