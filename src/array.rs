use crate::error::Error;
use crate::pow2::{checked_next_power_of_two, is_power_of_two, next_pow2};
use vstd::layout::size_of;
use vstd::prelude::*;

verus! {

/// The alignment of an element of `T`: its size if that is a power of two,
/// else the next power of two above it (1 for a zero-sized `T`).
pub open spec fn elem_align<T>() -> nat {
    next_pow2(size_of::<T>())
}

/// Whether a buffer of `n` elements of `T` has a valid memory layout: its
/// byte length, rounded up to the alignment, stays within `isize::MAX`.
pub open spec fn layout_ok<T>(n: nat) -> bool {
    &&& n <= usize::MAX
    &&& n * size_of::<T>() + elem_align::<T>() - 1 <= isize::MAX
}

/// The elements of `s` at the absolute indices `i` in `[start, stop)` with
/// `i % step == 0`, in order.
pub open spec fn picked<T>(s: Seq<T>, start: int, stop: int, step: int) -> Seq<T>
    decreases stop - start,
{
    if stop <= start {
        Seq::empty()
    } else {
        let rest = picked(s, start, stop - 1, step);
        if (stop - 1) % step == 0 {
            rest.push(s[stop - 1])
        } else {
            rest
        }
    }
}

/// `s` with the run from `index` to its end moved by `amt` places. Places
/// that the moved run does not reach keep their old element if they lie
/// before `index`, and hold `blank` otherwise; what moves past the end is
/// dropped.
pub open spec fn shifted<T>(s: Seq<T>, index: int, amt: int, blank: T) -> Seq<T> {
    Seq::new(
        s.len(),
        |j: int|
            if index + amt <= j && j - amt < s.len() {
                s[j - amt]
            } else if j < index {
                s[j]
            } else {
                blank
            },
    )
}

/// With a step of one, picking is taking a subrange.
pub proof fn lemma_picked_step_one<T>(s: Seq<T>, start: int, stop: int)
    requires
        0 <= start <= stop <= s.len(),
    ensures
        picked(s, start, stop, 1) == s.subrange(start, stop),
    decreases stop - start,
{
    if start < stop {
        lemma_picked_step_one(s, start, stop - 1);
        assert(s.subrange(start, stop) =~= s.subrange(start, stop - 1).push(s[stop - 1]));
    } else {
        assert(s.subrange(start, stop) =~= Seq::<T>::empty());
    }
}

/// Splitting at `k` gives two parts whose concatenation is the whole: at 0
/// the left part is empty and the right part whole, at the size the left
/// part is whole and the right part empty.
pub proof fn lemma_split_concat<T>(s: Seq<T>, k: int)
    requires
        0 <= k <= s.len(),
    ensures
        s.take(k) + s.skip(k) == s,
        s.take(0) == Seq::<T>::empty() && s.skip(0) == s,
        s.take(s.len() as int) == s && s.skip(s.len() as int) == Seq::<T>::empty(),
{
    assert(s.take(k) + s.skip(k) =~= s);
    assert(s.take(0) =~= Seq::<T>::empty());
    assert(s.skip(0) =~= s);
    assert(s.take(s.len() as int) =~= s);
    assert(s.skip(s.len() as int) =~= Seq::<T>::empty());
}

/// Picking never yields more elements than the range holds.
pub proof fn lemma_picked_len<T>(s: Seq<T>, start: int, stop: int, step: int)
    ensures
        picked(s, start, stop, step).len() <= if stop <= start { 0 } else { stop - start },
    decreases stop - start,
{
    if start < stop {
        lemma_picked_len(s, start, stop - 1, step);
    }
}

/// A valid layout stays valid for fewer elements.
pub proof fn lemma_layout_ok_smaller<T>(n: nat, m: nat)
    requires
        layout_ok::<T>(n),
        m <= n,
    ensures
        layout_ok::<T>(m),
{
    assert(m * size_of::<T>() <= n * size_of::<T>()) by (nonlinear_arith)
        requires
            m <= n,
    ;
}

/// A memory layout: a byte length and an alignment.
pub struct Layout {
    pub size: usize,
    pub align: usize,
}

/// A fixed-size buffer of elements. Every slot holds a value: slots that
/// were never written hold the buffer's blank value, which stands for
/// zero-filled memory.
pub struct Array<T> {
    data: Vec<T>,
    blank: T,
}

impl<T> View for Array<T> {
    type V = Seq<T>;

    closed spec fn view(&self) -> Seq<T> {
        self.data@
    }
}

impl<T> Array<T> {
    /// The value held by slots that were never written.
    pub closed spec fn blank(&self) -> T {
        self.blank
    }

    /// The buffer's size has a valid layout.
    pub open spec fn wf(&self) -> bool {
        layout_ok::<T>(self@.len())
    }

    /// The layout of a buffer of `size` elements of `T`, or
    /// `AllocationError` where the byte length overflows or exceeds
    /// `isize::MAX` once rounded up to the alignment.
    pub fn layout_for_size(size: usize) -> (r: Result<Layout, Error>)
        ensures
            r is Ok <==> layout_ok::<T>(size as nat),
            r is Ok ==> r->Ok_0.size == size * size_of::<T>() && r->Ok_0.align
                == elem_align::<T>(),
            r is Err ==> r->Err_0 == Error::AllocationError,
    {
        let size_of_t = core::mem::size_of::<T>();
        let align = if is_power_of_two(size_of_t) {
            proof {
                crate::pow2::lemma_next_pow2_of_pow2(size_of_t as nat);
            }
            size_of_t
        } else {
            match checked_next_power_of_two(size_of_t) {
                Some(a) => a,
                None => {
                    return Err(Error::AllocationError);
                },
            }
        };
        proof {
            crate::pow2::lemma_climb_ge(1, size_of_t as nat);
        }
        if align - 1 > isize::MAX as usize {
            return Err(Error::AllocationError);
        }
        match size.checked_mul(size_of_t) {
            Some(bytes) => {
                if bytes > isize::MAX as usize - (align - 1) {
                    Err(Error::AllocationError)
                } else {
                    Ok(Layout { size: bytes, align })
                }
            },
            None => Err(Error::AllocationError),
        }
    }

    /// The number of elements the buffer holds.
    pub fn size(&self) -> (r: usize)
        ensures
            r == self@.len(),
    {
        self.data.len()
    }
}

impl<T: Copy + Default> Array<T> {
    /// A buffer of `size` blank elements, or `AllocationError` where no
    /// valid layout holds `size` elements.
    pub fn new(size: usize) -> (r: Result<Self, Error>)
        ensures
            r is Ok <==> layout_ok::<T>(size as nat),
            r is Err ==> r->Err_0 == Error::AllocationError,
            r is Ok ==> r->Ok_0.wf() && r->Ok_0@ == Seq::new(size as nat, |_i: int| r->Ok_0.blank()),
    {
        match Self::layout_for_size(size) {
            Ok(_) => {},
            Err(e) => {
                return Err(e);
            },
        }
        let blank = T::default();
        Ok(Array { data: filled(blank, size), blank })
    }

    /// The value that slots hold before they are written.
    pub fn blank_value(&self) -> (r: T)
        ensures
            r == self.blank(),
    {
        self.blank
    }

    /// The element at `index`, or `IndexOutOfRange` where `index` is not
    /// below the size.
    pub fn get(&self, index: usize) -> (r: Result<T, Error>)
        ensures
            index < self@.len() ==> r == Ok::<T, Error>(self@[index as int]),
            index >= self@.len() ==> r == Err::<T, Error>(Error::IndexOutOfRange),
    {
        if index >= self.data.len() {
            Err(Error::IndexOutOfRange)
        } else {
            Ok(self.data[index])
        }
    }

    /// Writes `value` at `index` and returns what was there, or
    /// `IndexOutOfRange` (and no change) where `index` is not below the size.
    pub fn set(&mut self, index: usize, value: T) -> (r: Result<T, Error>)
        ensures
            final(self).blank() == old(self).blank(),
            index < old(self)@.len() ==> r == Ok::<T, Error>(old(self)@[index as int])
                && final(self)@ == old(self)@.update(index as int, value),
            index >= old(self)@.len() ==> r == Err::<T, Error>(Error::IndexOutOfRange)
                && final(self)@ == old(self)@,
    {
        if index >= self.data.len() {
            return Err(Error::IndexOutOfRange);
        }
        let prev = self.data[index];
        self.data[index] = value;
        Ok(prev)
    }

    /// The elements at the absolute indices `i` in `[start, stop)` with
    /// `i % step == 0`, in a buffer of their own; `stop` is clamped to the
    /// size.
    pub fn get_slice(&self, start: usize, stop: usize, step: usize) -> (r: Result<Self, Error>)
        requires
            self.wf(),
            step > 0,
        ensures
            r is Ok,
            r->Ok_0.wf(),
            r->Ok_0.blank() == self.blank(),
            r->Ok_0@ == picked(
                self@,
                start as int,
                if stop > self@.len() {
                    self@.len() as int
                } else {
                    stop as int
                },
                step as int,
            ),
    {
        let stop = if stop > self.data.len() {
            self.data.len()
        } else {
            stop
        };
        let mut out: Vec<T> = Vec::new();
        if start < stop {
            let mut index: usize = start;
            while index < stop
                invariant
                    start <= index <= stop <= self@.len(),
                    step > 0,
                    out@ == picked(self@, start as int, index as int, step as int),
                decreases stop - index,
            {
                if index % step == 0 {
                    out.push(self.data[index]);
                }
                index = index + 1;
            }
        }
        proof {
            lemma_picked_len(self@, start as int, stop as int, step as int);
            lemma_layout_ok_smaller::<T>(self@.len(), out@.len());
        }
        Ok(Array { data: out, blank: self.blank })
    }

    /// Refills the buffer with blank elements; the size stays.
    pub fn clear(&mut self) -> (r: Result<(), Error>)
        ensures
            r is Ok,
            final(self).blank() == old(self).blank(),
            final(self)@ == Seq::new(old(self)@.len(), |_i: int| old(self).blank()),
    {
        self.data = filled(self.blank, self.data.len());
        Ok(())
    }

    /// Changes the size to `new_size`: the first `min(size, new_size)`
    /// elements stay, new slots are blank. `AllocationError`, and no change,
    /// where no valid layout holds `new_size` elements.
    pub fn resize(&mut self, new_size: usize) -> (r: Result<(), Error>)
        ensures
            final(self).blank() == old(self).blank(),
            r is Ok <==> layout_ok::<T>(new_size as nat),
            r is Err ==> r->Err_0 == Error::AllocationError && final(self)@ == old(self)@,
            r is Ok ==> final(self)@ == Seq::new(
                new_size as nat,
                |i: int|
                    if i < old(self)@.len() {
                        old(self)@[i]
                    } else {
                        old(self).blank()
                    },
            ),
    {
        match Self::layout_for_size(new_size) {
            Ok(_) => {},
            Err(e) => {
                return Err(e);
            },
        }
        let mut data = filled(self.blank, new_size);
        let keep = if new_size < self.data.len() {
            new_size
        } else {
            self.data.len()
        };
        copy_prefix(&mut data, &self.data, keep);
        self.data = data;
        assert(self.data@ =~= Seq::new(
            new_size as nat,
            |i: int|
                if i < old(self)@.len() {
                    old(self)@[i]
                } else {
                    old(self).blank()
                },
        ));
        Ok(())
    }

    /// A buffer that holds `values`, or `AllocationError` where no valid
    /// layout holds that many elements.
    pub fn from_iter(values: Vec<T>) -> (r: Result<Self, Error>)
        ensures
            r is Ok <==> layout_ok::<T>(values@.len()),
            r is Err ==> r->Err_0 == Error::AllocationError,
            r is Ok ==> r->Ok_0.wf() && r->Ok_0@ == values@,
    {
        let size = values.len();
        let mut arr = match Self::new(size) {
            Ok(a) => a,
            Err(e) => {
                return Err(e);
            },
        };
        copy_prefix(&mut arr.data, &values, size);
        assert(arr.data@ =~= values@);
        Ok(arr)
    }

    /// Moves the run of elements from `index` to the end by `amt` places:
    /// the elements before `index` stay unless the run lands on them, the
    /// places that the run leaves are blank, and what moves past the end is
    /// dropped.
    pub fn shift_from(&mut self, index: usize, amt: isize) -> (r: Result<(), Error>)
        requires
            index <= old(self)@.len(),
            index + amt >= 0,
        ensures
            r is Ok,
            final(self).blank() == old(self).blank(),
            final(self)@ == shifted(old(self)@, index as int, amt as int, old(self).blank()),
    {
        let size = self.data.len();
        let buf = copied(&self.data, size);
        assert(buf@ =~= old(self)@);
        let _ = self.clear();
        copy_prefix(&mut self.data, &buf, index);
        let ghost s = old(self)@;
        let ghost b = self.blank;
        let mut k: usize = index;
        while k < size
            invariant
                index <= k <= size,
                size == s.len(),
                buf@ == s,
                index + amt >= 0,
                self.blank == b,
                self.data@ == Seq::new(
                    s.len(),
                    |j: int|
                        if index + amt <= j && j - amt < k {
                            s[j - amt]
                        } else if j < index {
                            s[j]
                        } else {
                            b
                        },
                ),
            decreases size - k,
        {
            let fits = if amt >= 0 {
                (amt as usize) < size - k
            } else {
                true
            };
            if fits {
                let dest: usize = if amt >= 0 {
                    k + amt as usize
                } else {
                    k - ((-(amt + 1)) as usize + 1)
                };
                self.data[dest] = buf[k];
            }
            k = k + 1;
            assert(self.data@ =~= Seq::new(
                s.len(),
                |j: int|
                    if index + amt <= j && j - amt < k {
                        s[j - amt]
                    } else if j < index {
                        s[j]
                    } else {
                        b
                    },
            ));
        }
        assert(self.data@ =~= shifted(s, index as int, amt as int, b));
        Ok(())
    }

    /// Splits the buffer at `index`, clamped to the size: the left part
    /// holds the elements before it, the right part the rest.
    pub fn split(self, index: usize) -> (r: Result<(Self, Self), Error>)
        requires
            self.wf(),
        ensures
            r is Ok,
            r->Ok_0.0.wf() && r->Ok_0.1.wf(),
            r->Ok_0.0.blank() == self.blank() && r->Ok_0.1.blank() == self.blank(),
            r->Ok_0.0@ == self@.take(
                if index > self@.len() {
                    self@.len() as int
                } else {
                    index as int
                },
            ),
            r->Ok_0.1@ == self@.skip(
                if index > self@.len() {
                    self@.len() as int
                } else {
                    index as int
                },
            ),
    {
        let size = self.data.len();
        let lsize = if index >= size {
            size
        } else {
            index
        };
        let l = self.get_slice(0, lsize, 1)?;
        let r = self.get_slice(lsize, size, 1)?;
        proof {
            lemma_picked_step_one(self@, 0, lsize as int);
            lemma_picked_step_one(self@, lsize as int, size as int);
            assert(self@.take(lsize as int) =~= self@.subrange(0, lsize as int));
            assert(self@.skip(lsize as int) =~= self@.subrange(lsize as int, size as int));
        }
        Ok((l, r))
    }

    /// Copies all of `other` into the start of this buffer; the rest stays.
    /// `InsufficientSpace`, and no change, where this buffer is the smaller.
    pub fn clone_from(&mut self, other: &Self) -> (r: Result<(), Error>)
        ensures
            final(self).blank() == old(self).blank(),
            r is Ok <==> other@.len() <= old(self)@.len(),
            r is Err ==> r->Err_0 == Error::InsufficientSpace && final(self)@ == old(self)@,
            r is Ok ==> final(self)@ == other@ + old(self)@.skip(other@.len() as int),
    {
        if self.data.len() < other.data.len() {
            return Err(Error::InsufficientSpace);
        }
        copy_prefix(&mut self.data, &other.data, other.data.len());
        assert(self.data@ =~= other@ + old(self)@.skip(other@.len() as int));
        Ok(())
    }

    /// Copies the first `size` elements of `other` over this whole buffer,
    /// with no check: the caller guarantees that `other` is at least as
    /// large.
    pub fn clone_from_unchecked(&mut self, other: &Self)
        requires
            other@.len() >= old(self)@.len(),
        ensures
            final(self).blank() == old(self).blank(),
            final(self)@ == other@.take(old(self)@.len() as int),
    {
        let n = self.data.len();
        copy_prefix(&mut self.data, &other.data, n);
        assert(self.data@ =~= other@.take(old(self)@.len() as int));
    }

    /// Copies this whole buffer into the start of `other`; the rest of
    /// `other` stays. `InsufficientSpace`, and no change, where `other` is
    /// the smaller.
    pub fn clone_into(&self, other: &mut Self) -> (r: Result<(), Error>)
        ensures
            final(other).blank() == old(other).blank(),
            r is Ok <==> self@.len() <= old(other)@.len(),
            r is Err ==> r->Err_0 == Error::InsufficientSpace && final(other)@ == old(other)@,
            r is Ok ==> final(other)@ == self@ + old(other)@.skip(self@.len() as int),
    {
        other.clone_from(self)
    }

    /// Copies this whole buffer into the start of `other`, with no check:
    /// the caller guarantees that `other` is at least as large.
    pub fn clone_into_unchecked(&self, other: &mut Self)
        requires
            old(other)@.len() >= self@.len(),
        ensures
            final(other).blank() == old(other).blank(),
            final(other)@ == self@ + old(other)@.skip(self@.len() as int),
    {
        copy_prefix(&mut other.data, &self.data, self.data.len());
        assert(other.data@ =~= self@ + old(other)@.skip(self@.len() as int));
    }

    /// An iterator over the elements, first to last.
    pub fn into_iter(self) -> (r: ArrayIter<T>)
        ensures
            r@ == self@,
    {
        ArrayIter { arr: self, cur: 0 }
    }
}

impl<T: Copy + Default> Clone for Array<T> {
    /// An independent buffer with the same elements.
    fn clone(&self) -> (r: Self)
        ensures
            r@ == self@,
            r.blank() == self.blank(),
    {
        let data = copied(&self.data, self.data.len());
        assert(data@ =~= self.data@);
        Array { data, blank: self.blank }
    }
}

/// Hands out the elements of a buffer one by one, first to last.
pub struct ArrayIter<T> {
    arr: Array<T>,
    cur: usize,
}

impl<T> View for ArrayIter<T> {
    type V = Seq<T>;

    /// The elements not yet handed out.
    closed spec fn view(&self) -> Seq<T> {
        if self.cur <= self.arr@.len() {
            self.arr@.skip(self.cur as int)
        } else {
            Seq::empty()
        }
    }
}

impl<T: Copy + Default> ArrayIter<T> {
    /// The next element, or `None` once all have been handed out.
    pub fn next(&mut self) -> (r: Option<T>)
        ensures
            old(self)@.len() == 0 ==> r is None && final(self)@ == old(self)@,
            old(self)@.len() > 0 ==> r == Some(old(self)@[0]) && final(self)@ == old(self)@.drop_first(),
    {
        if self.cur >= self.arr.data.len() {
            assert(self@ =~= Seq::<T>::empty());
            return None;
        }
        let v = self.arr.data[self.cur];
        self.cur = self.cur + 1;
        assert(self@ =~= old(self)@.drop_first());
        Some(v)
    }
}

/// A vector of `n` copies of `v`.
fn filled<T: Copy>(v: T, n: usize) -> (r: Vec<T>)
    ensures
        r@ == Seq::new(n as nat, |_i: int| v),
{
    let mut r: Vec<T> = Vec::new();
    let mut i: usize = 0;
    while i < n
        invariant
            i <= n,
            r@ == Seq::new(i as nat, |_i: int| v),
        decreases n - i,
    {
        r.push(v);
        i = i + 1;
        assert(r@ =~= Seq::new(i as nat, |_i: int| v));
    }
    r
}

/// A copy of the first `n` elements of `s`.
fn copied<T: Copy>(s: &Vec<T>, n: usize) -> (r: Vec<T>)
    requires
        n <= s@.len(),
    ensures
        r@ == s@.take(n as int),
{
    let mut r: Vec<T> = Vec::new();
    let mut i: usize = 0;
    while i < n
        invariant
            i <= n <= s@.len(),
            r@ == s@.take(i as int),
        decreases n - i,
    {
        r.push(s[i]);
        i = i + 1;
        assert(r@ =~= s@.take(i as int));
    }
    r
}

/// Overwrites the first `n` slots of `dst` with the first `n` elements of
/// `src`.
fn copy_prefix<T: Copy>(dst: &mut Vec<T>, src: &Vec<T>, n: usize)
    requires
        n <= old(dst)@.len(),
        n <= src@.len(),
    ensures
        final(dst)@ == Seq::new(
            old(dst)@.len(),
            |i: int|
                if i < n {
                    src@[i]
                } else {
                    old(dst)@[i]
                },
        ),
{
    let ghost d0 = dst@;
    let mut i: usize = 0;
    while i < n
        invariant
            i <= n <= d0.len(),
            n <= src@.len(),
            dst@ == Seq::new(
                d0.len(),
                |j: int|
                    if j < i {
                        src@[j]
                    } else {
                        d0[j]
                    },
            ),
        decreases n - i,
    {
        dst[i] = src[i];
        i = i + 1;
        assert(dst@ =~= Seq::new(
            d0.len(),
            |j: int|
                if j < i {
                    src@[j]
                } else {
                    d0[j]
                },
        ));
    }
}

} // verus!
