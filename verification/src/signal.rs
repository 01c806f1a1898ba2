use vstd::prelude::*;

verus! {

/// Where a read at `idx` lands in a signal of `len` samples when reads past either end
/// hold the first or the last sample.
pub open spec fn held_index(idx: int, len: int) -> int {
    if idx < 0 {
        0
    } else if idx > len - 1 {
        len - 1
    } else {
        idx
    }
}

/// Reads past the start hold the first sample, reads past the end hold the last one, and reads
/// inside the signal are not moved; so the position read never decreases as `idx` grows.
pub proof fn lemma_held_index_clamps(idx: int, len: int)
    requires
        len > 0,
    ensures
        idx < 0 ==> held_index(idx, len) == 0,
        idx >= len ==> held_index(idx, len) == len - 1,
        0 <= idx < len ==> held_index(idx, len) == idx,
        forall|other: int| idx <= other ==> held_index(idx, len) <= #[trigger] held_index(other, len),
{
}

/// Reads a signal at any integer position; positions before the start read the first sample
/// and positions after the end read the last one.
pub struct HoldSampler<'a, T> {
    inner: &'a [T],
}

impl<'a, T> View for HoldSampler<'a, T> {
    type V = Seq<T>;

    closed spec fn view(&self) -> Seq<T> {
        self.inner@
    }
}

impl<'a, T> HoldSampler<'a, T> {
    #[verifier::type_invariant]
    spec fn len_inv(&self) -> bool {
        self.inner@.len() <= isize::MAX
    }

    pub fn new(inner: &'a [T]) -> (s: HoldSampler<'a, T>)
        requires
            inner@.len() <= isize::MAX,
        ensures
            s@ == inner@,
    {
        HoldSampler { inner }
    }

    pub fn get(&self, idx: isize) -> (x: &'a T)
        requires
            self@.len() > 0,
        ensures
            *x == self@[held_index(idx as int, self@.len() as int)],
            idx < 0 ==> *x == self@[0],
            idx >= self@.len() ==> *x == self@[self@.len() - 1],
            0 <= idx < self@.len() ==> *x == self@[idx as int],
    {
        proof {
            use_type_invariant(self);
            lemma_held_index_clamps(idx as int, self@.len() as int);
        }
        let last = self.inner.len() as isize - 1;
        let actual_index = if idx < 0 {
            0
        } else if idx > last {
            last
        } else {
            idx
        };
        &self.inner[actual_index as usize]
    }
}

/// Reads a signal at any integer position; positions outside the signal read a fixed zero.
pub struct ZeroSampler<'a, T> {
    zero: T,
    inner: &'a [T],
}

impl<'a, T> View for ZeroSampler<'a, T> {
    type V = Seq<T>;

    closed spec fn view(&self) -> Seq<T> {
        self.inner@
    }
}

impl<'a, T> ZeroSampler<'a, T> {
    #[verifier::type_invariant]
    spec fn len_inv(&self) -> bool {
        self.inner@.len() <= isize::MAX
    }

    /// The value read outside the signal.
    pub closed spec fn zero(&self) -> T {
        self.zero
    }

    pub fn new(zero: T, inner: &'a [T]) -> (s: ZeroSampler<'a, T>)
        requires
            inner@.len() <= isize::MAX,
        ensures
            s@ == inner@,
            s.zero() == zero,
    {
        ZeroSampler { zero, inner }
    }

    pub fn len(&self) -> (n: usize)
        ensures
            n == self@.len(),
    {
        self.inner.len()
    }

    pub fn get<'s>(&'s self, idx: isize) -> (x: &'a T) where 's: 'a
        ensures
            *x == if 0 <= idx < self@.len() {
                self@[idx as int]
            } else {
                self.zero()
            },
    {
        proof {
            use_type_invariant(self);
        }
        if idx < 0 || self.inner.len() as isize <= idx {
            &self.zero
        } else {
            &self.inner[idx as usize]
        }
    }
}

} // verus!
