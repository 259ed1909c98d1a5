use crate::tripper::Cursor;
use vstd::prelude::*;

verus! {

/// The number of one bits in the binary representation of `x`.
pub open spec fn popcount(x: u64) -> nat
    decreases x,
{
    if x == 0 {
        0
    } else {
        (x % 2) as nat + popcount(x / 2)
    }
}

/// `u64::count_ones` of std, which returns the number of ones in the binary
/// representation of its argument.
#[verifier::external_body]
fn count_ones(x: u64) -> (n: usize)
    ensures
        n == popcount(x),
{
    x.count_ones() as usize
}

/// Whether bit `i` of `mask` is set.
spec fn bit_at(mask: u64, i: int) -> bool {
    (mask >> (i as u64)) & 1 == 1
}

/// Whether slot `pos` of a vector of capacity `cap` is occupied: slot 0 is the
/// highest of the `cap` low bits of the mask.
spec fn occ(mask: u64, cap: int, pos: int) -> bool {
    0 <= pos < cap && bit_at(mask, cap - 1 - pos)
}

/// The number of occupied slots below `pos`.
spec fn rank(mask: u64, cap: int, pos: int) -> nat {
    popcount(mask >> ((cap - pos) as u64))
}

/// The slots that a mask and the values of its occupied slots stand for.
spec fn slots<T>(mask: u64, cap: int, values: Seq<T>) -> Seq<Option<T>> {
    Seq::new(
        cap as nat,
        |pos: int|
            if occ(mask, cap, pos) {
                Some(values[rank(mask, cap, pos) as int])
            } else {
                None
            },
    )
}

/// A vector of `cap` empty slots.
pub open spec fn empty_slots<T>(cap: int) -> Seq<Option<T>> {
    Seq::new(cap as nat, |pos: int| None::<T>)
}

/// The occupied positions of `s` below `n`, in ascending order.
pub open spec fn positions_below<T>(s: Seq<Option<T>>, n: int) -> Seq<usize>
    decreases n,
{
    if n <= 0 {
        Seq::empty()
    } else if s[n - 1] is Some {
        positions_below(s, n - 1).push((n - 1) as usize)
    } else {
        positions_below(s, n - 1)
    }
}

/// The values of the occupied positions of `s` below `n`, in ascending order
/// of position.
pub open spec fn values_below<T>(s: Seq<Option<T>>, n: int) -> Seq<T>
    decreases n,
{
    if n <= 0 {
        Seq::empty()
    } else if s[n - 1] is Some {
        values_below(s, n - 1).push(s[n - 1]->0)
    } else {
        values_below(s, n - 1)
    }
}

/// The occupied positions of `s`, in ascending order.
pub open spec fn occupied_positions<T>(s: Seq<Option<T>>) -> Seq<usize> {
    positions_below(s, s.len() as int)
}

/// The values that `s` holds, in ascending order of position.
pub open spec fn occupied_values<T>(s: Seq<Option<T>>) -> Seq<T> {
    values_below(s, s.len() as int)
}

/// The occupied positions below `n` are the positions below `n` that hold a
/// value.
pub proof fn lemma_positions<T>(s: Seq<Option<T>>, n: int, i: usize)
    requires
        0 <= n <= usize::MAX,
    ensures
        positions_below(s, n).contains(i) <==> (i < n && s[i as int] is Some),
    decreases n,
{
    if n > 0 {
        lemma_positions(s, n - 1, i);
        let before = positions_below(s, n - 1);
        if s[n - 1] is Some {
            let all = before.push((n - 1) as usize);
            assert(all[before.len() as int] == (n - 1) as usize);
            if before.contains(i) {
                let j = choose|j: int| 0 <= j < before.len() && before[j] == i;
                assert(all[j] == i);
            }
        }
    }
}

/// The slot that the value at place `j` of the occupied values below `n`
/// comes from.
pub proof fn lemma_value_slot<T>(s: Seq<Option<T>>, n: int, j: int) -> (p: int)
    requires
        0 <= n <= s.len(),
        0 <= j < values_below(s, n).len(),
    ensures
        0 <= p < n,
        s[p] == Some(values_below(s, n)[j]),
    decreases n,
{
    if s[n - 1] is Some {
        if j == values_below(s, n - 1).len() {
            n - 1
        } else {
            lemma_value_slot(s, n - 1, j)
        }
    } else {
        lemma_value_slot(s, n - 1, j)
    }
}

/// The place among the occupied values below `n` of the value in slot `p`.
pub proof fn lemma_value_place<T>(s: Seq<Option<T>>, n: int, p: int) -> (j: int)
    requires
        0 <= p < n <= s.len(),
        s[p] is Some,
    ensures
        0 <= j < values_below(s, n).len(),
        s[p] == Some(values_below(s, n)[j]),
    decreases n,
{
    if p == n - 1 {
        values_below(s, n - 1).len() as int
    } else {
        lemma_value_place(s, n - 1, p)
    }
}

proof fn lemma_shift_halves(m: u64, b: u64)
    by (bit_vector)
    requires
        b < 63,
    ensures
        (m >> b) / 2 == m >> ((b + 1) as u64),
        (m >> b) % 2 == (m >> b) & 1,
{
}

proof fn lemma_shift_none(m: u64)
    by (bit_vector)
    ensures
        m >> 0u64 == m,
{
}

proof fn lemma_test_bit(m: u64, b: u64)
    by (bit_vector)
    requires
        b < 64,
    ensures
        (m & (1u64 << b) != 0) == ((m >> b) & 1 == 1),
{
}

proof fn lemma_set_bit(m: u64, b: u64, j: u64, c: u64)
    by (bit_vector)
    requires
        b < c,
        c < 64,
        j < 64,
        m >> c == 0,
    ensures
        (m | (1u64 << b)) >> c == 0,
        (((m | (1u64 << b)) >> j) & 1 == 1) == (j == b || (m >> j) & 1 == 1),
{
}

proof fn lemma_clear_bit(m: u64, b: u64, j: u64, c: u64)
    by (bit_vector)
    requires
        b < c,
        c < 64,
        j < 64,
        m >> c == 0,
    ensures
        (m & !(1u64 << b)) >> c == 0,
        (((m & !(1u64 << b)) >> j) & 1 == 1) == (j != b && (m >> j) & 1 == 1),
{
}

proof fn lemma_rank_step(mask: u64, cap: int, pos: int)
    requires
        cap < 64,
        0 <= pos < cap,
    ensures
        rank(mask, cap, pos + 1) == rank(mask, cap, pos) + if occ(mask, cap, pos) {
            1nat
        } else {
            0nat
        },
{
    let b = (cap - 1 - pos) as u64;
    lemma_shift_halves(mask, b);
    let y = mask >> b;
    assert(mask >> ((cap - (pos + 1)) as u64) == y);
    assert(mask >> ((cap - pos) as u64) == y / 2);
    assert(y % 2 == 0 || y % 2 == 1);
    if y == 0 {
        assert(y / 2 == 0);
        assert(popcount(0) == 0);
    }
}

proof fn lemma_rank_bounds(mask: u64, cap: int, p: int, q: int)
    requires
        cap < 64,
        0 <= p <= q <= cap,
    ensures
        rank(mask, cap, p) <= rank(mask, cap, q),
        p < q && occ(mask, cap, p) ==> rank(mask, cap, p) < rank(mask, cap, q),
    decreases q - p,
{
    if p < q {
        lemma_rank_step(mask, cap, p);
        lemma_rank_bounds(mask, cap, p + 1, q);
    }
}

proof fn lemma_rank_ends(mask: u64, cap: int)
    requires
        0 <= cap < 64,
        mask >> (cap as u64) == 0,
    ensures
        rank(mask, cap, 0) == 0,
        rank(mask, cap, cap) == popcount(mask),
{
    lemma_shift_none(mask);
}

/// Two masks that agree on every slot but `pos` have the same ranks up to
/// `pos`, and ranks that differ by the change at `pos` above it.
proof fn lemma_rank_change(m1: u64, m2: u64, cap: int, pos: int, p: int)
    requires
        0 <= cap < 64,
        m1 >> (cap as u64) == 0,
        m2 >> (cap as u64) == 0,
        0 <= pos < cap,
        0 <= p <= cap,
        forall|q: int| 0 <= q < cap && q != pos ==> occ(m1, cap, q) == occ(m2, cap, q),
    ensures
        p <= pos ==> rank(m2, cap, p) == rank(m1, cap, p),
        p > pos ==> rank(m2, cap, p) + (if occ(m1, cap, pos) {
            1nat
        } else {
            0nat
        }) == rank(m1, cap, p) + (if occ(m2, cap, pos) {
            1nat
        } else {
            0nat
        }),
    decreases p,
{
    if p == 0 {
        lemma_rank_ends(m1, cap);
        lemma_rank_ends(m2, cap);
    } else {
        lemma_rank_change(m1, m2, cap, pos, p - 1);
        lemma_rank_step(m1, cap, p - 1);
        lemma_rank_step(m2, cap, p - 1);
    }
}

/// The occupied positions and values below `p`, read off the mask.
proof fn lemma_below<T>(mask: u64, cap: int, values: Seq<T>, p: int)
    requires
        0 <= cap < 64,
        mask >> (cap as u64) == 0,
        values.len() == popcount(mask),
        0 <= p <= cap,
    ensures
        positions_below(slots(mask, cap, values), p).len() == rank(mask, cap, p),
        values_below(slots(mask, cap, values), p) == values.subrange(
            0,
            rank(mask, cap, p) as int,
        ),
        rank(mask, cap, p) <= values.len(),
    decreases p,
{
    let s = slots(mask, cap, values);
    lemma_rank_ends(mask, cap);
    lemma_rank_bounds(mask, cap, p, cap);
    if p == 0 {
        assert(values_below(s, p) =~= values.subrange(0, 0));
    } else {
        lemma_below(mask, cap, values, p - 1);
        lemma_rank_step(mask, cap, p - 1);
        let r = rank(mask, cap, p - 1) as int;
        if occ(mask, cap, p - 1) {
            assert(s[p - 1] == Some(values[r]));
            assert(values.subrange(0, r).push(values[r]) =~= values.subrange(0, r + 1));
        }
    }
}

/// A bitmap-indexed vector of `CAP` slots: a mask of the occupied slots and
/// the values of those slots, densely packed in ascending order of position.
pub struct SparseVec<const CAP: usize, T> {
    mask: u64,
    data: Vec<T>,
}

impl<const CAP: usize, T> View for SparseVec<CAP, T> {
    type V = Seq<Option<T>>;

    /// One entry for each of the `CAP` slots.
    closed spec fn view(&self) -> Seq<Option<T>> {
        slots(self.mask, CAP as int, self.data@)
    }
}

/// Marks slot `pos`, which is free, as occupied and stores `elem` for it.
fn occupy<T>(mask: &mut u64, data: &mut Vec<T>, cap: usize, pos: usize, elem: T)
    requires
        cap < 64,
        pos < cap,
        *old(mask) >> (cap as u64) == 0,
        old(data)@.len() == popcount(*old(mask)),
        !occ(*old(mask), cap as int, pos as int),
    ensures
        *final(mask) >> (cap as u64) == 0,
        final(data)@.len() == popcount(*final(mask)),
        slots(*final(mask), cap as int, final(data)@) == slots(
            *old(mask),
            cap as int,
            old(data)@,
        ).update(pos as int, Some(elem)),
{
    let ghost m1 = *mask;
    let ghost d1 = data@;
    let ghost c = cap as int;
    let b: u64 = (cap - pos - 1) as u64;
    let real_pos = count_ones(*mask >> ((cap - pos) as u64));
    proof {
        lemma_rank_ends(m1, c);
        lemma_rank_bounds(m1, c, pos as int, c);
    }
    *mask = *mask | (1u64 << b);
    data.insert(real_pos, elem);
    proof {
        let m2 = *mask;
        let d2 = data@;
        assert forall|q: int| 0 <= q < c implies occ(m2, c, q) == (q == pos || occ(m1, c, q)) by {
            lemma_set_bit(m1, b, (c - 1 - q) as u64, cap as u64);
        }
        lemma_set_bit(m1, b, 0, cap as u64);
        lemma_rank_change(m1, m2, c, pos as int, c);
        lemma_rank_ends(m2, c);
        assert forall|q: int| 0 <= q < c implies #[trigger] slots(m2, c, d2)[q] == slots(
            m1,
            c,
            d1,
        ).update(pos as int, Some(elem))[q] by {
            lemma_rank_change(m1, m2, c, pos as int, q);
            lemma_rank_bounds(m1, c, q, c);
            if q < pos {
                lemma_rank_bounds(m1, c, q, pos as int);
            } else if q > pos {
                lemma_rank_bounds(m1, c, pos as int, q);
            }
        }
        assert(slots(m2, c, d2) =~= slots(m1, c, d1).update(pos as int, Some(elem)));
    }
}

/// Marks slot `pos`, which is occupied, as free and hands back its value.
fn vacate<T>(mask: &mut u64, data: &mut Vec<T>, cap: usize, pos: usize) -> (res: T)
    requires
        cap < 64,
        pos < cap,
        *old(mask) >> (cap as u64) == 0,
        old(data)@.len() == popcount(*old(mask)),
        occ(*old(mask), cap as int, pos as int),
    ensures
        *final(mask) >> (cap as u64) == 0,
        final(data)@.len() == popcount(*final(mask)),
        Some(res) == slots(*old(mask), cap as int, old(data)@)[pos as int],
        slots(*final(mask), cap as int, final(data)@) == slots(
            *old(mask),
            cap as int,
            old(data)@,
        ).update(pos as int, None),
{
    let ghost m1 = *mask;
    let ghost d1 = data@;
    let ghost c = cap as int;
    let b: u64 = (cap - pos - 1) as u64;
    let real_pos = count_ones(*mask >> ((cap - pos) as u64));
    proof {
        lemma_rank_ends(m1, c);
        lemma_rank_bounds(m1, c, pos as int, c);
    }
    let res = data.remove(real_pos);
    *mask = *mask & !(1u64 << b);
    proof {
        let m2 = *mask;
        let d2 = data@;
        assert forall|q: int| 0 <= q < c implies occ(m2, c, q) == (q != pos && occ(m1, c, q)) by {
            lemma_clear_bit(m1, b, (c - 1 - q) as u64, cap as u64);
        }
        lemma_clear_bit(m1, b, 0, cap as u64);
        lemma_rank_change(m1, m2, c, pos as int, c);
        lemma_rank_ends(m2, c);
        assert forall|q: int| 0 <= q < c implies #[trigger] slots(m2, c, d2)[q] == slots(
            m1,
            c,
            d1,
        ).update(pos as int, None)[q] by {
            lemma_rank_change(m1, m2, c, pos as int, q);
            lemma_rank_bounds(m1, c, q, c);
            if q < pos {
                lemma_rank_bounds(m1, c, q, pos as int);
            } else if q > pos {
                lemma_rank_bounds(m1, c, pos as int, q);
            }
        }
        assert(slots(m2, c, d2) =~= slots(m1, c, d1).update(pos as int, None));
    }
    res
}

impl<const CAP: usize, T> SparseVec<CAP, T> {
    /// The mask has no bit beyond the `CAP` slots, and there is one value for
    /// each bit that is set.
    pub closed spec fn wf(&self) -> bool {
        &&& CAP < 64
        &&& self.mask >> (CAP as u64) == 0
        &&& self.data@.len() == popcount(self.mask)
    }

    /// A well-formed vector has `CAP` slots.
    pub broadcast proof fn lemma_slots(&self)
        requires
            #[trigger] self.wf(),
        ensures
            self@.len() == CAP,
            CAP < 64,
    {
    }

    /// The empty vector. The mask has 64 bits, one of which stays free.
    pub fn new() -> (res: Self)
        requires
            CAP < 64,
        ensures
            res.wf(),
            res@ == empty_slots::<T>(CAP as int),
    {
        proof {
            let cap = CAP as int;
            let c = CAP as u64;
            assert(0u64 >> c == 0) by (bit_vector);
            assert forall|pos: int| 0 <= pos < cap implies !#[trigger] occ(0u64, cap, pos) by {
                let b = (cap - 1 - pos) as u64;
                assert((0u64 >> b) & 1 == 0) by (bit_vector);
            }
            assert(slots(0u64, cap, Seq::<T>::empty()) =~= empty_slots::<T>(cap));
        }
        SparseVec { mask: 0, data: Vec::new() }
    }

    /// The number of occupied slots.
    pub fn len(&self) -> (n: usize)
        requires
            self.wf(),
        ensures
            n == occupied_positions(self@).len(),
            self@.len() == CAP,
    {
        proof {
            lemma_below(self.mask, CAP as int, self.data@, CAP as int);
            lemma_rank_ends(self.mask, CAP as int);
        }
        count_ones(self.mask)
    }

    pub fn is_empty(&self) -> (b: bool)
        requires
            self.wf(),
        ensures
            b == (occupied_positions(self@).len() == 0),
    {
        proof {
            lemma_below(self.mask, CAP as int, self.data@, CAP as int);
            lemma_rank_ends(self.mask, CAP as int);
            assert(popcount(0) == 0);
            if self.mask != 0 {
                lemma_nonzero_popcount(self.mask);
            }
        }
        self.mask == 0
    }

    /// Stores `elem` at `pos`, in place of what was there.
    pub fn insert(&mut self, pos: usize, elem: T)
        requires
            old(self).wf(),
            pos < CAP,
        ensures
            final(self).wf(),
            final(self)@ == old(self)@.update(pos as int, Some(elem)),
    {
        let bit: u64 = 1u64 << ((CAP - pos - 1) as u64);
        proof {
            lemma_test_bit(self.mask, (CAP - pos - 1) as u64);
        }
        if self.mask & bit != 0 {
            let real_pos = self.elems_before(pos);
            proof {
                lemma_rank_ends(self.mask, CAP as int);
                lemma_rank_bounds(self.mask, CAP as int, pos as int, CAP as int);
            }
            let ghost d1 = self.data@;
            self.data[real_pos] = elem;
            proof {
                let c = CAP as int;
                let m = self.mask;
                let d2 = self.data@;
                assert forall|q: int| 0 <= q < c implies #[trigger] slots(m, c, d2)[q] == slots(
                    m,
                    c,
                    d1,
                ).update(pos as int, Some(elem))[q] by {
                    lemma_rank_bounds(m, c, q, c);
                    if q < pos {
                        lemma_rank_bounds(m, c, q, pos as int);
                    } else if q > pos {
                        lemma_rank_bounds(m, c, pos as int, q);
                    }
                }
                assert(slots(m, c, d2) =~= slots(m, c, d1).update(pos as int, Some(elem)));
            }
        } else {
            occupy(&mut self.mask, &mut self.data, CAP, pos, elem);
        }
    }

    /// The value at `pos`, if the slot is occupied.
    pub fn get(&self, pos: usize) -> (res: Option<&T>)
        requires
            self.wf(),
            pos < CAP,
        ensures
            match res {
                Some(v) => self@[pos as int] == Some(*v),
                None => self@[pos as int] is None,
            },
    {
        proof {
            lemma_test_bit(self.mask, (CAP - pos - 1) as u64);
        }
        if self.mask & (1u64 << ((CAP - pos - 1) as u64)) != 0 {
            let real_pos = self.elems_before(pos);
            proof {
                lemma_rank_ends(self.mask, CAP as int);
                lemma_rank_bounds(self.mask, CAP as int, pos as int, CAP as int);
            }
            Some(&self.data[real_pos])
        } else {
            None
        }
    }

    /// Empties the slot at `pos` and hands back what it held.
    pub fn remove(&mut self, pos: usize) -> (res: Option<T>)
        requires
            old(self).wf(),
            pos < CAP,
        ensures
            final(self).wf(),
            res == old(self)@[pos as int],
            final(self)@ == old(self)@.update(pos as int, None),
    {
        proof {
            lemma_test_bit(self.mask, (CAP - pos - 1) as u64);
        }
        if self.mask & (1u64 << ((CAP - pos - 1) as u64)) != 0 {
            Some(vacate(&mut self.mask, &mut self.data, CAP, pos))
        } else {
            proof {
                assert(self@ =~= self@.update(pos as int, None));
            }
            None
        }
    }

    /// Stores `elem` at `pos` and hands back what it displaces.
    pub fn swap(&mut self, pos: usize, elem: T) -> (res: Option<T>)
        requires
            old(self).wf(),
            pos < CAP,
        ensures
            final(self).wf(),
            res == old(self)@[pos as int],
            final(self)@ == old(self)@.update(pos as int, Some(elem)),
    {
        proof {
            lemma_test_bit(self.mask, (CAP - pos - 1) as u64);
        }
        if self.mask & (1u64 << ((CAP - pos - 1) as u64)) != 0 {
            let res = vacate(&mut self.mask, &mut self.data, CAP, pos);
            self.insert(pos, elem);
            proof {
                assert(old(self)@.update(pos as int, None).update(pos as int, Some(elem))
                    =~= old(self)@.update(pos as int, Some(elem)));
            }
            Some(res)
        } else {
            self.insert(pos, elem);
            None
        }
    }

    /// The occupied positions, in ascending order.
    pub fn keys(&self) -> (res: Vec<usize>)
        requires
            self.wf(),
        ensures
            res@ == occupied_positions(self@),
    {
        let mut res: Vec<usize> = Vec::new();
        let mut i: usize = 0;
        while i < CAP
            invariant
                i <= CAP,
                CAP < 64,
                self.wf(),
                res@ == positions_below(self@, i as int),
                self@.len() == CAP,
            decreases CAP - i,
        {
            proof {
                lemma_test_bit(self.mask, (CAP - i - 1) as u64);
            }
            if self.mask & (1u64 << ((CAP - i - 1) as u64)) != 0 {
                res.push(i);
            }
            i += 1;
        }
        res
    }

    /// An iterator over the values, in ascending order of position.
    pub fn iter(&self) -> (it: Iter<'_, CAP, T>)
        requires
            self.wf(),
        ensures
            it.remaining() == occupied_values(self@),
    {
        proof {
            lemma_below(self.mask, CAP as int, self.data@, CAP as int);
            lemma_rank_ends(self.mask, CAP as int);
            assert(self.data@.subrange(0, self.data@.len() as int) =~= self.data@);
            assert(self.data@.skip(0) =~= self.data@);
        }
        Iter { index: 0, vector: self }
    }

    fn elems_before(&self, pos: usize) -> (n: usize)
        requires
            self.wf(),
            pos <= CAP,
        ensures
            n == rank(self.mask, CAP as int, pos as int),
    {
        count_ones(self.mask >> ((CAP - pos) as u64))
    }
}

proof fn lemma_nonzero_popcount(x: u64)
    requires
        x != 0,
    ensures
        popcount(x) > 0,
    decreases x,
{
    if x % 2 == 0 {
        lemma_nonzero_popcount(x / 2);
    }
}

impl<const CAP: usize, T: Clone> Clone for SparseVec<CAP, T> {
    /// A vector with the same occupied slots, each value cloned.
    fn clone(&self) -> (res: Self)
        ensures
            self.wf() ==> res.wf(),
            res@.len() == self@.len(),
            self.wf() ==> forall|pos: int|
                0 <= pos < self@.len() ==> match (#[trigger] self@[pos], res@[pos]) {
                    (Some(a), Some(b)) => cloned::<T>(a, b),
                    (None, None) => true,
                    _ => false,
                },
    {
        let data = self.data.clone();
        proof {
            let c = CAP as int;
            assert forall|pos: int| 0 <= pos < c && self.wf() implies match (
                #[trigger] slots(self.mask, c, self.data@)[pos],
                slots(self.mask, c, data@)[pos],
            ) {
                (Some(a), Some(b)) => cloned::<T>(a, b),
                (None, None) => true,
                _ => false,
            } by {
                lemma_rank_ends(self.mask, c);
                lemma_rank_bounds(self.mask, c, pos, c);
            }
        }
        SparseVec { mask: self.mask, data }
    }
}

/// An iterator over the values of a `SparseVec`, in ascending order of
/// position.
pub struct Iter<'a, const CAP: usize, T> {
    index: usize,
    vector: &'a SparseVec<CAP, T>,
}

impl<'a, const CAP: usize, T> Iter<'a, CAP, T> {
    #[verifier::type_invariant]
    spec fn inv(self) -> bool {
        self.index <= self.vector.data@.len()
    }

    /// The values that are still to come.
    pub closed spec fn remaining(&self) -> Seq<T> {
        self.vector.data@.skip(self.index as int)
    }

    /// The next value, if one is left.
    pub fn next(&mut self) -> (res: Option<&'a T>)
        ensures
            match res {
                Some(v) => old(self).remaining().len() > 0 && *v == old(self).remaining()[0]
                    && final(self).remaining() == old(self).remaining().skip(1),
                None => old(self).remaining().len() == 0 && final(self).remaining() == old(
                    self,
                ).remaining(),
            },
    {
        proof {
            use_type_invariant(&*self);
        }
        if self.index == self.vector.data.len() {
            None
        } else {
            let res = Some(&self.vector.data[self.index]);
            self.index += 1;
            proof {
                assert(old(self).remaining().skip(1) =~= self.remaining());
            }
            res
        }
    }
}

impl<'a, const CAP: usize, T> Cursor for Iter<'a, CAP, T> {
    type Item = &'a T;

    open spec fn ready(&self) -> bool {
        true
    }

    open spec fn remaining(&self) -> Seq<&'a T> {
        Seq::new(Iter::remaining(self).len(), |i: int| &Iter::remaining(self)[i])
    }

    fn next(&mut self) -> (res: Option<&'a T>) {
        let res = Iter::next(self);
        proof {
            if res is Some {
                assert(Cursor::remaining(self) =~= Cursor::remaining(old(self)).skip(1));
            }
        }
        res
    }
}

} // verus!
