use crate::array::{layout_ok, Array};
use crate::error::Error;
use crate::pow2::{
    checked_next_power_of_two, climb, is_pow2, is_power_of_two, lemma_climb_ge, lemma_climb_pow2,
    lower_power_of_two, next_pow2,
};
use vstd::prelude::*;

verus! {

/// The capacity that a list of capacity `c` grows to: double `c` if it is a
/// power of two, else the next power of two above it.
pub open spec fn grown_cap(c: nat) -> nat {
    if is_pow2(c) {
        2 * c
    } else {
        next_pow2(c)
    }
}

/// The capacity that a list of capacity `c` shrinks to: half the smallest
/// power of two at or above `c` (half of `c` where `c` is a power of two).
pub open spec fn lower_cap(c: nat) -> nat {
    next_pow2(c) / 2
}

/// Whether an insertion into a list of length `l` and capacity `c` grows it.
pub open spec fn needs_grow(c: nat, l: nat) -> bool {
    l + 1 >= c
}

/// The capacity after an insertion into a list of length `l` and capacity `c`.
pub open spec fn cap_after_insert(c: nat, l: nat) -> nat {
    if needs_grow(c, l) {
        grown_cap(c)
    } else {
        c
    }
}

/// Whether an insertion into a list of length `l` and capacity `c` can get
/// the buffer it needs.
pub open spec fn insert_fits<T>(c: nat, l: nat) -> bool {
    needs_grow(c, l) ==> layout_ok::<T>(grown_cap(c))
}

/// The capacity after a removal from a list of length `l` (before the
/// removal) and capacity `c`.
pub open spec fn cap_after_remove(c: nat, l: nat) -> nat {
    if l < lower_cap(c) {
        lower_cap(c)
    } else {
        c
    }
}

/// The capacity after `n` insertions at the back of a list of length `l` and
/// capacity `c`.
pub open spec fn cap_after_pushes(c: nat, l: nat, n: nat) -> nat
    decreases n,
{
    if n == 0 {
        c
    } else {
        cap_after_pushes(cap_after_insert(c, l), l + 1, (n - 1) as nat)
    }
}

/// Growing always makes room for one more element.
pub proof fn lemma_grown_cap_gt(c: nat)
    ensures
        grown_cap(c) > c,
{
    if !is_pow2(c) {
        lemma_climb_ge(1, c);
        if next_pow2(c) == c {
            lemma_climb_pow2(1, c);
        }
    }
}

/// Shrinking never raises the capacity above what it was.
pub proof fn lemma_lower_cap_le(c: nat)
    requires
        c >= 1,
    ensures
        lower_cap(c) <= c,
{
    crate::pow2::lemma_pow2_ge1(1);
    lemma_climb_pow2(1, c);
    if next_pow2(c) > 1 {
        lemma_lower_cap_half(c);
    }
}

/// Half the smallest power of two at or above `c` lies below `c`.
proof fn lemma_lower_cap_half(c: nat)
    requires
        c >= 1,
    ensures
        next_pow2(c) / 2 < c,
{
    lemma_climb_below(1, c);
}

/// Doubling from below `n` ends less than twice `n`.
proof fn lemma_climb_below(p: nat, n: nat)
    requires
        1 <= p < 2 * n,
    ensures
        climb(p, n) < 2 * n,
    decreases (if p < n { n - p } else { 0 }),
{
    if p < n {
        lemma_climb_below(2 * p, n);
    }
}

/// Pushes never lower the capacity.
pub proof fn lemma_cap_after_pushes_ge(c: nat, l: nat, n: nat)
    ensures
        cap_after_pushes(c, l, n) >= c,
        n > 0 ==> cap_after_pushes(c, l, n) >= cap_after_insert(c, l),
    decreases n,
{
    if n > 0 {
        lemma_grown_cap_gt(c);
        lemma_cap_after_pushes_ge(cap_after_insert(c, l), l + 1, (n - 1) as nat);
    }
}

/// `n` pushes are `i` pushes followed by `n - i` more.
pub proof fn lemma_cap_after_pushes_append(c: nat, l: nat, i: nat, n: nat)
    requires
        i <= n,
    ensures
        cap_after_pushes(c, l, n) == cap_after_pushes(
            cap_after_pushes(c, l, i),
            l + i,
            (n - i) as nat,
        ),
    decreases i,
{
    if i > 0 {
        lemma_cap_after_pushes_append(cap_after_insert(c, l), l + 1, (i - 1) as nat, (n - 1) as nat);
    }
}

proof fn lemma_four_is_pow2()
    ensures
        is_pow2(4),
{
    reveal_with_fuel(is_pow2, 3);
}

/// One push moves the capacity as one insertion does.
proof fn lemma_one_push(c: nat, l: nat)
    ensures
        cap_after_pushes(c, l, 1) == cap_after_insert(c, l),
{
    reveal_with_fuel(cap_after_pushes, 2);
}

/// Twice a power of two is a power of two.
proof fn lemma_pow2_double(p: nat)
    requires
        is_pow2(p),
    ensures
        is_pow2(2 * p),
{
    assert((2 * p) / 2 == p);
}

/// Doubling from a power of two never passes a power of two at or above `n`.
proof fn lemma_climb_min(p: nat, n: nat, q: nat)
    requires
        is_pow2(p),
        is_pow2(q),
        p <= q,
        n <= q,
    ensures
        climb(p, n) <= q,
    decreases (if p < n { n - p } else { 0 }),
{
    crate::pow2::lemma_pow2_ge1(p);
    if p < n {
        crate::pow2::lemma_pow2_double_le(p, q);
        lemma_pow2_double(p);
        lemma_climb_min(2 * p, n, q);
    }
}

/// `next_pow2(m)` is a power of two at least `m`, and no power of two at
/// least `m` lies below it.
proof fn lemma_next_pow2_facts(m: nat, q: nat)
    ensures
        is_pow2(next_pow2(m)),
        next_pow2(m) >= m,
        next_pow2(m) >= 1,
        is_pow2(q) && q >= m ==> next_pow2(m) <= q,
{
    crate::pow2::lemma_pow2_ge1(1);
    lemma_climb_pow2(1, m);
    lemma_climb_ge(1, m);
    if is_pow2(q) && q >= m {
        crate::pow2::lemma_pow2_ge1(q);
        lemma_climb_min(1, m, q);
    }
}

/// The capacity of a list that started at 4 and has been pushed to length `l`.
pub open spec fn default_seed_cap(l: nat) -> nat {
    if next_pow2(l + 1) < 4 {
        4
    } else {
        next_pow2(l + 1)
    }
}

/// One push keeps a list on the path of a list that started at capacity 4.
proof fn lemma_push_keeps_seed(l: nat)
    ensures
        cap_after_insert(default_seed_cap(l), l) == default_seed_cap(l + 1),
{
    let c = default_seed_cap(l);
    lemma_next_pow2_facts((l + 1) as nat, 4);
    lemma_next_pow2_facts((l + 2) as nat, 4);
    lemma_four_is_pow2();
    if needs_grow(c, l) {
        assert(c == l + 1);
        lemma_pow2_double((l + 1) as nat);
        lemma_next_pow2_facts((l + 2) as nat, 2 * (l + 1));
        let m = next_pow2((l + 2) as nat);
        crate::pow2::lemma_pow2_double_le((l + 1) as nat, m);
    } else {
        let a = next_pow2((l + 1) as nat);
        let b = next_pow2((l + 2) as nat);
        lemma_next_pow2_facts((l + 2) as nat, a);
        lemma_next_pow2_facts((l + 1) as nat, b);
    }
}

/// Pushing `n` more from length `l` on that path ends on it.
proof fn lemma_pushes_keep_seed(l: nat, n: nat)
    ensures
        cap_after_pushes(default_seed_cap(l), l, n) == default_seed_cap(l + n),
    decreases n,
{
    if n > 0 {
        lemma_push_keeps_seed(l);
        lemma_pushes_keep_seed(l + 1, (n - 1) as nat);
    }
}

/// After `n` pushes onto a new list (capacity 4, empty), the capacity is 4
/// while `n` is below 4, and the smallest power of two above `n` from then
/// on. Where `n` is not a power of two, that is the smallest power of two at
/// least `n`.
pub proof fn lemma_capacity_after_pushes(n: nat)
    ensures
        cap_after_pushes(4, 0, n) == if n < 4 {
            4
        } else {
            next_pow2(n + 1)
        },
        !(is_pow2(n) && n >= 4) ==> cap_after_pushes(4, 0, n) == if n < 4 {
            4
        } else {
            next_pow2(n)
        },
{
    assert(next_pow2(1) == 1);
    lemma_pushes_keep_seed(0, n);
    lemma_next_pow2_facts(n + 1, 4);
    lemma_four_is_pow2();
    if n >= 4 && !is_pow2(n) {
        let a = next_pow2(n);
        let b = next_pow2(n + 1);
        lemma_next_pow2_facts(n, b);
        lemma_next_pow2_facts(n + 1, a);
    }
}

/// Inserting `v` at `index` and then removing at `index` gives `v` back and
/// leaves the sequence as it was.
pub proof fn lemma_insert_remove_inverse<T>(s: Seq<T>, index: int, v: T)
    requires
        0 <= index <= s.len(),
    ensures
        s.insert(index, v)[index] == v,
        s.insert(index, v).remove(index) == s,
{
    assert(s.insert(index, v).remove(index) =~= s);
}

/// The elements of a list holding `s` after `values` were pushed at its
/// back one `push_back` at a time, first to last.
pub open spec fn pushed_back<T>(s: Seq<T>, values: Seq<T>) -> Seq<T>
    decreases values.len(),
{
    if values.len() == 0 {
        s
    } else {
        pushed_back(s.push(values[0]), values.drop_first())
    }
}

/// After pushing `values` at the back of a list holding `s`, one by one,
/// `get` returns each of them unchanged at its position, and the elements of
/// `s` stay where they were.
pub proof fn lemma_push_back_round_trip<T>(s: Seq<T>, values: Seq<T>)
    ensures
        pushed_back(s, values) == s + values,
        pushed_back(s, values).len() == s.len() + values.len(),
        forall|i: int| 0 <= i < values.len() ==> pushed_back(s, values)[s.len() + i] == values[i],
        forall|i: int| 0 <= i < s.len() ==> pushed_back(s, values)[i] == s[i],
    decreases values.len(),
{
    if values.len() > 0 {
        lemma_push_back_round_trip(s.push(values[0]), values.drop_first());
        assert(s.push(values[0]) + values.drop_first() =~= s + values);
    } else {
        assert(s + values =~= s);
    }
}

/// Removing at `index` and inserting the removed element there again
/// restores the sequence.
pub proof fn lemma_remove_insert_inverse<T>(s: Seq<T>, index: int)
    requires
        0 <= index < s.len(),
    ensures
        s.remove(index).insert(index, s[index]) == s,
{
    assert(s.remove(index).insert(index, s[index]) =~= s);
}


/// A growable sequence: a buffer whose first `len` slots hold the elements.
/// The capacity `cap` is the buffer's size.
pub struct List<T> {
    arr: Array<T>,
    len: usize,
    cap: usize,
}

impl<T> View for List<T> {
    type V = Seq<T>;

    /// The elements, first to last.
    closed spec fn view(&self) -> Seq<T> {
        self.arr@.take(self.len as int)
    }
}

impl<T> List<T> {
    /// The number of slots the buffer holds.
    pub closed spec fn cap(&self) -> nat {
        self.cap as nat
    }

    /// All slots of the buffer, elements and spare capacity alike.
    pub closed spec fn slots(&self) -> Seq<T> {
        self.arr@
    }

    /// The value held by the slots past the length.
    pub closed spec fn blank(&self) -> T {
        self.arr.blank()
    }

    /// The length stays within the capacity, which is the buffer's size,
    /// and every slot past the length is blank.
    pub closed spec fn wf(&self) -> bool {
        &&& self.arr.wf()
        &&& self.cap == self.arr@.len()
        &&& self.len <= self.cap
        &&& forall|i: int| self.len <= i < self.cap ==> self.arr@[i] == self.arr.blank()
    }

    /// What a well-formed list guarantees: the elements are the first slots,
    /// there are no more of them than the capacity, the buffer holds exactly
    /// the capacity, and the slots past the elements are blank.
    pub proof fn lemma_wf(&self)
        requires
            self.wf(),
        ensures
            self@.len() <= self.cap(),
            self.slots().len() == self.cap(),
            self@ == self.slots().take(self@.len() as int),
            forall|i: int| self@.len() <= i < self.cap() ==> self.slots()[i] == self.blank(),
    {
    }

    /// The number of elements.
    pub fn len(&self) -> (r: usize)
        requires
            self.wf(),
        ensures
            r == self@.len(),
    {
        self.len
    }

    /// The number of slots the buffer holds.
    pub fn capacity(&self) -> (r: usize)
        ensures
            r == self.cap(),
            self.wf() ==> self@.len() <= r,
    {
        self.cap
    }
}

impl<T: Copy + Default> List<T> {
    /// An empty list of capacity 4, or `AllocationError` where no valid
    /// layout holds 4 elements.
    pub fn new() -> (r: Result<Self, Error>)
        ensures
            r is Ok <==> layout_ok::<T>(4),
            r is Err ==> r->Err_0 == Error::AllocationError,
            r is Ok ==> r->Ok_0.wf() && r->Ok_0@ == Seq::<T>::empty() && r->Ok_0.cap() == 4,
    {
        let arr = Array::<T>::new(4)?;
        let r = List { arr, len: 0, cap: 4 };
        assert(r@ =~= Seq::<T>::empty());
        Ok(r)
    }

    /// An empty list of capacity `cap`, or `AllocationError` where no valid
    /// layout holds `cap` elements.
    pub fn with_capacity(cap: usize) -> (r: Result<Self, Error>)
        ensures
            r is Ok <==> layout_ok::<T>(cap as nat),
            r is Err ==> r->Err_0 == Error::AllocationError,
            r is Ok ==> r->Ok_0.wf() && r->Ok_0@ == Seq::<T>::empty() && r->Ok_0.cap() == cap,
    {
        let arr = Array::<T>::new(cap)?;
        let r = List { arr, len: 0, cap };
        assert(r@ =~= Seq::<T>::empty());
        Ok(r)
    }

    /// A list that holds `values`, with a capacity of exactly their number,
    /// or `AllocationError` where no valid layout holds that many.
    pub fn from_iter(values: Vec<T>) -> (r: Result<Self, Error>)
        ensures
            r is Ok <==> layout_ok::<T>(values@.len()),
            r is Err ==> r->Err_0 == Error::AllocationError,
            r is Ok ==> r->Ok_0.wf() && r->Ok_0@ == values@ && r->Ok_0.cap() == values@.len(),
    {
        let len = values.len();
        let arr = Array::<T>::from_iter(values)?;
        let r = List { arr, len, cap: len };
        assert(r@ =~= values@);
        Ok(r)
    }

    /// A list that holds the elements of `arr`, with its size as both length
    /// and capacity.
    pub fn from_array(arr: Array<T>) -> (r: List<T>)
        requires
            arr.wf(),
        ensures
            r.wf(),
            r@ == arr@,
            r.cap() == arr@.len(),
    {
        let l = arr.size();
        let r = List { arr, len: l, cap: l };
        assert(r@ =~= arr@);
        r
    }

    /// The element at `index`, or `IndexOutOfRange` where `index` is not
    /// below the length.
    pub fn get(&self, index: usize) -> (r: Result<T, Error>)
        requires
            self.wf(),
        ensures
            index < self@.len() ==> r == Ok::<T, Error>(self@[index as int]),
            index >= self@.len() ==> r == Err::<T, Error>(Error::IndexOutOfRange),
    {
        if index >= self.len {
            Err(Error::IndexOutOfRange)
        } else {
            self.arr.get(index)
        }
    }

    /// Inserts `value` at the front.
    pub fn push_front(&mut self, value: T) -> (r: Result<(), Error>)
        requires
            old(self).wf(),
        ensures
            final(self).wf(),
            r is Ok <==> insert_fits::<T>(old(self).cap(), old(self)@.len()),
            r is Err ==> r->Err_0 == Error::AllocationError && final(self)@ == old(self)@
                && final(self).cap() == old(self).cap(),
            r is Ok ==> final(self)@ == old(self)@.insert(0, value) && final(self).cap()
                == cap_after_insert(old(self).cap(), old(self)@.len()),
            final(self).cap() >= old(self).cap(),
    {
        self.insert(0, value)
    }

    /// Inserts `value` at the back.
    pub fn push_back(&mut self, value: T) -> (r: Result<(), Error>)
        requires
            old(self).wf(),
        ensures
            final(self).wf(),
            r is Ok <==> insert_fits::<T>(old(self).cap(), old(self)@.len()),
            r is Err ==> r->Err_0 == Error::AllocationError && final(self)@ == old(self)@
                && final(self).cap() == old(self).cap(),
            r is Ok ==> final(self)@ == old(self)@.push(value) && final(self).cap()
                == cap_after_insert(old(self).cap(), old(self)@.len()),
            final(self).cap() >= old(self).cap(),
    {
        let r = self.insert(self.len, value);
        proof {
            if r is Ok {
                assert(old(self)@.insert(old(self)@.len() as int, value) =~= old(self)@.push(value));
            }
        }
        r
    }

    /// Inserts `value` at `index`, moving the elements from `index` on one
    /// place back.
    pub fn push(&mut self, index: usize, value: T) -> (r: Result<(), Error>)
        requires
            old(self).wf(),
        ensures
            final(self).wf(),
            r is Ok <==> index <= old(self)@.len() && insert_fits::<T>(
                old(self).cap(),
                old(self)@.len(),
            ),
            index > old(self)@.len() ==> r == Err::<(), Error>(Error::IndexOutOfRange),
            index <= old(self)@.len() && r is Err ==> r->Err_0 == Error::AllocationError,
            r is Err ==> final(self)@ == old(self)@ && final(self).cap() == old(self).cap(),
            r is Ok ==> final(self)@ == old(self)@.insert(index as int, value) && final(self).cap()
                == cap_after_insert(old(self).cap(), old(self)@.len()),
            final(self).cap() >= old(self).cap(),
    {
        self.insert(index, value)
    }

    /// Removes and returns the element at `index`.
    pub fn pop(&mut self, index: usize) -> (r: Result<T, Error>)
        requires
            old(self).wf(),
        ensures
            final(self).wf(),
            old(self)@.len() == 0 ==> r == Err::<T, Error>(Error::EmptyContainer),
            old(self)@.len() > 0 && index >= old(self)@.len() ==> r == Err::<T, Error>(
                Error::IndexOutOfRange,
            ),
            r is Err ==> final(self)@ == old(self)@ && final(self).cap() == old(self).cap(),
            index < old(self)@.len() ==> r == Ok::<T, Error>(old(self)@[index as int])
                && final(self)@ == old(self)@.remove(index as int) && final(self).cap()
                == cap_after_remove(old(self).cap(), old(self)@.len()),
            final(self).cap() <= old(self).cap(),
    {
        self.del(index)
    }

    /// Removes and returns the last element.
    pub fn pop_back(&mut self) -> (r: Result<T, Error>)
        requires
            old(self).wf(),
        ensures
            final(self).wf(),
            old(self)@.len() == 0 ==> r == Err::<T, Error>(Error::EmptyContainer) && final(self)@
                == old(self)@ && final(self).cap() == old(self).cap(),
            old(self)@.len() > 0 ==> r == Ok::<T, Error>(old(self)@.last()) && final(self)@
                == old(self)@.drop_last() && final(self).cap() == cap_after_remove(
                old(self).cap(),
                old(self)@.len(),
            ),
            final(self).cap() <= old(self).cap(),
    {
        if self.len == 0 {
            return Err(Error::EmptyContainer);
        }
        let r = self.del(self.len - 1);
        assert(old(self)@.remove(old(self)@.len() - 1) =~= old(self)@.drop_last());
        r
    }

    /// Removes and returns the first element.
    pub fn pop_front(&mut self) -> (r: Result<T, Error>)
        requires
            old(self).wf(),
        ensures
            final(self).wf(),
            old(self)@.len() == 0 ==> r == Err::<T, Error>(Error::EmptyContainer) && final(self)@
                == old(self)@ && final(self).cap() == old(self).cap(),
            old(self)@.len() > 0 ==> r == Ok::<T, Error>(old(self)@[0]) && final(self)@ == old(
                self,
            )@.drop_first() && final(self).cap() == cap_after_remove(
                old(self).cap(),
                old(self)@.len(),
            ),
            final(self).cap() <= old(self).cap(),
    {
        let r = self.del(0);
        assert(old(self)@.len() > 0 ==> old(self)@.remove(0) =~= old(self)@.drop_first());
        r
    }

    /// Inserts each of `values` at the back, in order. Fails with
    /// `AllocationError` exactly where one of the growths that this needs
    /// has no valid layout.
    pub fn extend(&mut self, values: Vec<T>) -> (r: Result<(), Error>)
        requires
            old(self).wf(),
        ensures
            final(self).wf(),
            r is Ok <==> layout_ok::<T>(
                cap_after_pushes(old(self).cap(), old(self)@.len(), values@.len()),
            ),
            r is Err ==> r->Err_0 == Error::AllocationError,
            r is Ok ==> final(self)@ == old(self)@ + values@ && final(self).cap()
                == cap_after_pushes(old(self).cap(), old(self)@.len(), values@.len()),
    {
        let ghost c0 = self.cap();
        let ghost l0 = self@.len();
        let mut i: usize = 0;
        while i < values.len()
            invariant
                self.wf(),
                i <= values@.len(),
                self@ == old(self)@ + values@.take(i as int),
                self.cap() == cap_after_pushes(c0, l0, i as nat),
                c0 == old(self).cap(),
                l0 == old(self)@.len(),
            decreases values@.len() - i,
        {
            proof {
                lemma_cap_after_pushes_append(c0, l0, i as nat, (i + 1) as nat);
                lemma_cap_after_pushes_append(c0, l0, i as nat, values@.len());
                lemma_cap_after_pushes_ge(self.cap(), (l0 + i) as nat, (values@.len() - i) as nat);
                lemma_one_push(self.cap(), (l0 + i) as nat);
            }
            let ghost before = self.cap();
            let r = self.push_back(values[i]);
            if r.is_err() {
                proof {
                    if layout_ok::<T>(cap_after_pushes(c0, l0, values@.len())) {
                        crate::array::lemma_layout_ok_smaller::<T>(
                            cap_after_pushes(c0, l0, values@.len()),
                            grown_cap(before),
                        );
                    }
                }
                return r;
            }
            i = i + 1;
            assert(self@ =~= old(self)@ + values@.take(i as int));
        }
        assert(values@.take(i as int) =~= values@);
        Ok(())
    }

    /// An iterator over the elements, first to last.
    pub fn into_iter(self) -> (r: ListIter<T>)
        requires
            self.wf(),
        ensures
            r.wf(),
            r@ == self@,
    {
        ListIter { list: self, cur: 0 }
    }
}

impl<T: Copy + Default> Clone for List<T> {
    /// An independent list with the same elements and capacity.
    fn clone(&self) -> (r: Self)
        ensures
            self.wf() ==> r.wf(),
            r@ == self@,
            r.cap() == self.cap(),
    {
        List { arr: self.arr.clone(), len: self.len, cap: self.cap }
    }
}

/// Hands out the elements of a list one by one, first to last.
pub struct ListIter<T> {
    list: List<T>,
    cur: usize,
}

impl<T> View for ListIter<T> {
    type V = Seq<T>;

    /// The elements not yet handed out.
    closed spec fn view(&self) -> Seq<T> {
        if self.cur <= self.list@.len() {
            self.list@.skip(self.cur as int)
        } else {
            Seq::empty()
        }
    }
}

impl<T> ListIter<T> {
    /// The list underneath is well formed.
    pub closed spec fn wf(&self) -> bool {
        self.list.wf()
    }
}

impl<T: Copy + Default> ListIter<T> {
    /// The next element, or `None` once all have been handed out.
    pub fn next(&mut self) -> (r: Option<T>)
        requires
            old(self).wf(),
        ensures
            final(self).wf(),
            old(self)@.len() == 0 ==> r is None && final(self)@ == old(self)@,
            old(self)@.len() > 0 ==> r == Some(old(self)@[0]) && final(self)@ == old(self)@.drop_first(),
    {
        match self.list.get(self.cur) {
            Ok(n) => {
                self.cur = self.cur + 1;
                assert(self@ =~= old(self)@.drop_first());
                Some(n)
            },
            Err(_) => {
                assert(self@ =~= Seq::<T>::empty());
                None
            },
        }
    }
}

impl<T: Copy + Default> List<T> {
    /// Inserts `value` at `index`, growing the buffer first where the list
    /// is full or one short of full.
    fn insert(&mut self, index: usize, value: T) -> (r: Result<(), Error>)
        requires
            old(self).wf(),
        ensures
            final(self).wf(),
            r is Ok <==> index <= old(self)@.len() && insert_fits::<T>(
                old(self).cap(),
                old(self)@.len(),
            ),
            index > old(self)@.len() ==> r == Err::<(), Error>(Error::IndexOutOfRange),
            index <= old(self)@.len() && r is Err ==> r->Err_0 == Error::AllocationError,
            r is Err ==> final(self)@ == old(self)@ && final(self).cap() == old(self).cap(),
            r is Ok ==> final(self)@ == old(self)@.insert(index as int, value) && final(self).cap()
                == cap_after_insert(old(self).cap(), old(self)@.len()),
            final(self).cap() >= old(self).cap(),
    {
        if index > self.len {
            return Err(Error::IndexOutOfRange);
        }
        if self.cap - self.len <= 1 {
            self.grow()?;
            proof {
                lemma_grown_cap_gt(old(self).cap());
            }
        }
        assert(self.len < self.cap);
        let ghost mid = self.arr@;
        let _ = self.arr.shift_from(index, 1);
        let _ = self.arr.set(index, value);
        self.len = self.len + 1;
        assert(mid.take(old(self).len as int) == old(self)@);
        assert(self@ =~= old(self)@.insert(index as int, value));
        Ok(())
    }

    /// Removes and returns the element at `index`, shrinking the buffer
    /// first where the length is below the next lower power of two.
    fn del(&mut self, index: usize) -> (r: Result<T, Error>)
        requires
            old(self).wf(),
        ensures
            final(self).wf(),
            old(self)@.len() == 0 ==> r == Err::<T, Error>(Error::EmptyContainer),
            old(self)@.len() > 0 && index >= old(self)@.len() ==> r == Err::<T, Error>(
                Error::IndexOutOfRange,
            ),
            r is Err ==> final(self)@ == old(self)@ && final(self).cap() == old(self).cap(),
            index < old(self)@.len() ==> r == Ok::<T, Error>(old(self)@[index as int])
                && final(self)@ == old(self)@.remove(index as int) && final(self).cap()
                == cap_after_remove(old(self).cap(), old(self)@.len()),
            final(self).cap() <= old(self).cap(),
    {
        if self.len == 0 {
            return Err(Error::EmptyContainer);
        }
        if index >= self.len {
            return Err(Error::IndexOutOfRange);
        }
        let lower_pow2 = lower_power_of_two(self.cap);
        proof {
            lemma_lower_cap_le(self.cap as nat);
        }
        if self.len < lower_pow2 {
            let _ = self.shrink();
        }
        let old_value = self.arr.get(index)?;
        let _ = self.arr.shift_from(index + 1, -1);
        self.len = self.len - 1;
        let blank = self.arr.blank_value();
        let _ = self.arr.set(self.len, blank);
        assert(self@ =~= old(self)@.remove(index as int));
        Ok(old_value)
    }

    /// Grows the buffer to `grown_cap` of the capacity; the elements stay.
    fn grow(&mut self) -> (r: Result<(), Error>)
        requires
            old(self).wf(),
        ensures
            final(self).wf(),
            final(self)@ == old(self)@,
            final(self).len == old(self).len,
            r is Ok <==> layout_ok::<T>(grown_cap(old(self).cap())),
            final(self).blank() == old(self).blank(),
            r is Ok ==> final(self).cap() == grown_cap(old(self).cap()) && final(self).slots()
                == Seq::new(
                grown_cap(old(self).cap()),
                |i: int|
                    if i < old(self).cap() {
                        old(self).slots()[i]
                    } else {
                        old(self).blank()
                    },
            ),
            r is Err ==> r->Err_0 == Error::AllocationError && final(self).cap() == old(self).cap()
                && final(self).slots() == old(self).slots(),
    {
        let new_cap = if is_power_of_two(self.cap) {
            match self.cap.checked_mul(2) {
                Some(c) => c,
                None => {
                    return Err(Error::AllocationError);
                },
            }
        } else {
            match checked_next_power_of_two(self.cap) {
                Some(c) => c,
                None => {
                    return Err(Error::AllocationError);
                },
            }
        };
        self.arr.resize(new_cap)?;
        self.cap = new_cap;
        proof {
            lemma_grown_cap_gt(old(self).cap());
        }
        assert(self@ =~= old(self)@);
        Ok(())
    }

    /// Shrinks the buffer to `lower_cap` of the capacity, and returns the
    /// part that was cut off.
    fn shrink(&mut self) -> (r: Result<Array<T>, Error>)
        requires
            old(self).wf(),
            old(self)@.len() <= lower_cap(old(self).cap()),
        ensures
            final(self).wf(),
            final(self)@ == old(self)@,
            final(self).len == old(self).len,
            final(self).cap() == lower_cap(old(self).cap()),
            final(self).slots() == old(self).slots().take(lower_cap(old(self).cap()) as int),
            r is Ok,
            r->Ok_0.wf(),
            r->Ok_0@ == old(self).slots().skip(lower_cap(old(self).cap()) as int),
    {
        let new_size = lower_power_of_two(self.cap);
        proof {
            if self.cap >= 1 {
                lemma_lower_cap_le(self.cap as nat);
            } else {
                assert(next_pow2(0) == 1);
            }
        }
        let (a, dropped) = self.arr.clone().split(new_size)?;
        self.arr = a;
        self.cap = new_size;
        assert(self@ =~= old(self)@);
        Ok(dropped)
    }
}

} // verus!
