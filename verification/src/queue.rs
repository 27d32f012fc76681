//! A double-ended queue for scripts: push and pop at both ends, indexed
//! access, search. Where the script's class gives a default value (an empty
//! queue, an index out of range), these methods give `None`.
use vstd::prelude::*;

use std::collections::VecDeque;
use vstd::std_specs::cmp::PartialEqSpec;

verus! {

/// A double-ended queue of values; its view is the sequence of its values,
/// front first.
pub struct Queue<T> {
    inner: VecDeque<T>,
}

impl<T> View for Queue<T> {
    type V = Seq<T>;

    closed spec fn view(&self) -> Seq<T> {
        self.inner@
    }
}

/// The index that a script's number names: the number as a `usize`, so that
/// a negative number names an index past any queue.
pub open spec fn script_index(index: i64) -> int {
    (index as usize) as int
}

/// Whether a script's number can be read as an index at all (it is not
/// negative and fits a `usize`).
pub open spec fn index_converts(index: i64) -> bool {
    0 <= index <= usize::MAX
}

impl<T> Queue<T> {
    /// An empty queue.
    pub fn new() -> (r: Queue<T>)
        ensures
            r@ == Seq::<T>::empty(),
    {
        Queue { inner: VecDeque::new() }
    }

    /// Adds a value at the back.
    pub fn push_back(&mut self, value: T)
        ensures
            final(self)@ == old(self)@.push(value),
    {
        self.inner.push_back(value);
    }

    /// Adds a value at the front.
    pub fn push_front(&mut self, value: T)
        ensures
            final(self)@ == seq![value] + old(self)@,
    {
        self.inner.push_front(value);
    }

    /// Takes the front value off, if there is one.
    pub fn pop_front(&mut self) -> (r: Option<T>)
        ensures
            old(self)@.len() == 0 ==> r is None && final(self)@ == old(self)@,
            old(self)@.len() > 0 ==> r == Some(old(self)@[0]) && final(self)@ == old(self)@.drop_first(),
    {
        let r = self.inner.pop_front();
        proof {
            if old(self)@.len() > 0 {
                assert(old(self)@.subrange(1, old(self)@.len() as int) =~= old(self)@.drop_first());
            }
        }
        r
    }

    /// Takes the back value off, if there is one.
    pub fn pop_back(&mut self) -> (r: Option<T>)
        ensures
            old(self)@.len() == 0 ==> r is None && final(self)@ == old(self)@,
            old(self)@.len() > 0 ==> r == Some(old(self)@.last()) && final(self)@ == old(self)@.drop_last(),
    {
        let r = self.inner.pop_back();
        proof {
            if old(self)@.len() > 0 {
                assert(old(self)@.subrange(0, old(self)@.len() - 1) =~= old(self)@.drop_last());
            }
        }
        r
    }

    /// The front value, if there is one.
    pub fn front(&self) -> (r: Option<&T>)
        ensures
            self@.len() == 0 ==> r is None,
            self@.len() > 0 ==> r == Some(&self@[0]),
    {
        if self.inner.len() == 0 {
            None
        } else {
            Some(&self.inner[0])
        }
    }

    /// The back value, if there is one.
    pub fn back(&self) -> (r: Option<&T>)
        ensures
            self@.len() == 0 ==> r is None,
            self@.len() > 0 ==> r == Some(&self@.last()),
    {
        let n = self.inner.len();
        if n == 0 {
            None
        } else {
            Some(&self.inner[n - 1])
        }
    }

    /// The value at a script's index; none when the index is out of range.
    pub fn get(&self, index: i64) -> (r: Option<&T>)
        ensures
            0 <= script_index(index) < self@.len() ==> r == Some(&self@[script_index(index)]),
            !(0 <= script_index(index) < self@.len()) ==> r is None,
    {
        let i = index as usize;
        if i < self.inner.len() {
            Some(&self.inner[i])
        } else {
            None
        }
    }

    /// Replaces the value at a script's index; gives whether the index was
    /// in range (when it is not, nothing changes).
    pub fn set(&mut self, index: i64, value: T) -> (r: bool)
        ensures
            r == (0 <= script_index(index) < old(self)@.len()),
            r ==> final(self)@ == old(self)@.update(script_index(index), value),
            !r ==> final(self)@ == old(self)@,
    {
        let i = index as usize;
        if i < self.inner.len() {
            let _old = self.inner.remove(i);
            self.inner.insert(i, value);
            assert(old(self)@.remove(i as int).insert(i as int, value) =~= old(self)@.update(i as int, value));
            true
        } else {
            false
        }
    }

    /// Inserts a value before a script's index (at the end when the index
    /// equals the length); gives whether the number could be read as an
    /// index. An index past the end panics, which `requires` leaves out.
    pub fn insert(&mut self, index: i64, value: T) -> (r: bool)
        requires
            index_converts(index) ==> index <= old(self)@.len(),
        ensures
            r == index_converts(index),
            r ==> final(self)@ == old(self)@.insert(index as int, value),
            !r ==> final(self)@ == old(self)@,
    {
        if index < 0 || index as u128 > usize::MAX as u128 {
            return false;
        }
        self.inner.insert(index as usize, value);
        true
    }

    /// Removes and gives the value at a script's index; none when the number
    /// cannot be read as an index. An index past the end panics, which
    /// `requires` leaves out.
    pub fn remove_at(&mut self, index: i64) -> (r: Option<T>)
        requires
            index_converts(index) ==> index < old(self)@.len(),
        ensures
            index_converts(index) ==> r == Some(old(self)@[index as int]) && final(self)@ == old(
                self,
            )@.remove(index as int),
            !index_converts(index) ==> r is None && final(self)@ == old(self)@,
    {
        if index < 0 || index as u128 > usize::MAX as u128 {
            return None;
        }
        self.inner.remove(index as usize)
    }

    /// The number of values, as a script's number.
    pub fn size(&self) -> (r: i64)
        ensures
            r == self@.len() as i64,
    {
        self.inner.len() as i64
    }

    /// Whether the queue holds no value.
    pub fn is_empty(&self) -> (r: bool)
        ensures
            r == (self@.len() == 0),
    {
        self.inner.len() == 0
    }

    /// Removes every value.
    pub fn clear(&mut self)
        ensures
            final(self)@ == Seq::<T>::empty(),
    {
        self.inner.clear();
    }

    /// Makes room for `additional` more values. Growing past the largest
    /// `usize` panics, as does a negative number (it reads as a huge one):
    /// `requires` leaves those out.
    pub fn reserve(&mut self, additional: i64)
        requires
            0 <= additional,
            old(self)@.len() + additional <= usize::MAX,
        ensures
            final(self)@ == old(self)@,
    {
        self.inner.reserve(additional as usize);
    }

    /// Takes every value out, front first, leaving the queue empty.
    pub fn into_vec(&mut self) -> (r: Vec<T>)
        ensures
            r@ == old(self)@,
            final(self)@ == Seq::<T>::empty(),
    {
        let mut out: Vec<T> = Vec::new();
        let ghost all = self.inner@;
        while self.inner.len() > 0
            invariant
                all == out@ + self.inner@,
            decreases self.inner@.len(),
        {
            let ghost before = self.inner@;
            match self.inner.pop_front() {
                Some(x) => {
                    out.push(x);
                    assert(all =~= out@ + self.inner@);
                },
                None => {},
            }
        }
        assert(out@ + self.inner@ =~= out@);
        out
    }

    /// Replaces the values with those of `values`, in order.
    pub fn copy_from_vec(&mut self, values: Vec<T>)
        ensures
            final(self)@ == values@,
    {
        self.inner.clear();
        let mut values = values;
        let ghost all = values@;
        let mut rest: Vec<T> = Vec::new();
        while values.len() > 0
            invariant
                all == values@ + rest@.reverse(),
            decreases values@.len(),
        {
            let x = values.pop().unwrap();
            rest.push(x);
            assert(all =~= values@ + rest@.reverse());
        }
        assert(all =~= rest@.reverse());
        while rest.len() > 0
            invariant
                all == self.inner@ + rest@.reverse(),
            decreases rest@.len(),
        {
            let x = rest.pop().unwrap();
            self.inner.push_back(x);
            assert(all =~= self.inner@ + rest@.reverse());
        }
        assert(self.inner@ + rest@.reverse() =~= self.inner@);
    }

    /// A queue holding the values of `values`, in order.
    pub fn from_vec(values: Vec<T>) -> (r: Queue<T>)
        ensures
            r@ == values@,
    {
        let mut q = Queue::new();
        q.copy_from_vec(values);
        q
    }
}

impl<T: PartialEq> Queue<T> {
    /// The index of the first value equal to `value`, or -1. What equality
    /// means is the value type's: where it follows its specification, the
    /// index is the first at which `eq_spec` holds.
    pub fn find(&self, value: &T) -> (r: i64)
        requires
            self@.len() <= i64::MAX,
        ensures
            -1 <= r < self@.len(),
            T::obeys_eq_spec() ==> (r == -1 <==> forall|i: int| 0 <= i < self@.len() ==> !self@[i].eq_spec(value)),
            T::obeys_eq_spec() && r >= 0 ==> self@[r as int].eq_spec(value) && forall|i: int|
                0 <= i < r ==> !self@[i].eq_spec(value),
    {
        let n = self.inner.len();
        let mut i: usize = 0;
        while i < n
            invariant
                n == self@.len(),
                n <= i64::MAX,
                i <= n,
                T::obeys_eq_spec() ==> forall|j: int| 0 <= j < i ==> !self@[j].eq_spec(value),
            decreases n - i,
        {
            if self.inner[i] == *value {
                return i as i64;
            }
            i = i + 1;
        }
        -1
    }

    /// Whether some value equals `value` (in the value type's sense).
    pub fn contains(&self, value: &T) -> (r: bool)
        requires
            self@.len() <= i64::MAX,
        ensures
            T::obeys_eq_spec() ==> (r <==> exists|i: int| 0 <= i < self@.len() && self@[i].eq_spec(value)),
    {
        self.find(value) != -1
    }
}

// ---------------------------------------------------------------------------
// Laws
// ---------------------------------------------------------------------------

/// Law: a value pushed on the back comes off the front after every value
/// that was already in the queue.
pub proof fn lemma_fifo<T>(s: Seq<T>, v: T)
    ensures
        s.push(v).drop_first().len() == s.len(),
        s.len() == 0 ==> s.push(v)[0] == v,
        s.len() > 0 ==> s.push(v)[0] == s[0] && s.push(v).drop_first() == s.drop_first().push(v),
{
    if s.len() > 0 {
        assert(s.push(v).drop_first() =~= s.drop_first().push(v));
    }
}

/// Law: removing the value just inserted at an index gives it back and
/// leaves the queue as it was.
pub proof fn lemma_insert_remove<T>(s: Seq<T>, i: int, v: T)
    requires
        0 <= i <= s.len(),
    ensures
        s.insert(i, v)[i] == v,
        s.insert(i, v).remove(i) == s,
{
    assert(s.insert(i, v).remove(i) =~= s);
}

} // verus!
