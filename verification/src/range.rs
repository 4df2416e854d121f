//! A half-open range of values that can be stepped through one by one.

use vstd::prelude::*;
use vstd::std_specs::cmp::PartialEqSpec;
use crate::address::VirtPageNum;

verus! {

/// A value that has a next value.
pub trait StepByOne: Sized {
    /// Whether the value has a next value.
    spec fn can_step(&self) -> bool;

    /// The next value.
    spec fn stepped(&self) -> Self;

    /// Goes on to the next value.
    fn step(&mut self)
        requires
            old(self).can_step(),
        ensures
            *final(self) == old(self).stepped(),
    ;
}

impl StepByOne for VirtPageNum {
    open spec fn can_step(&self) -> bool {
        self.0 < u64::MAX
    }

    open spec fn stepped(&self) -> Self {
        VirtPageNum((self.0 + 1) as u64)
    }

    fn step(&mut self) {
        self.0 += 1;
    }
}

/// The values from `start` up to, and without, `end`.
#[derive(Copy, Clone)]
pub struct Range<T> where T: StepByOne + Copy + PartialEq + PartialOrd {
    start: T,
    end: T,
}

impl<T> Range<T> where T: StepByOne + Copy + PartialEq + PartialOrd {
    /// The first value.
    pub closed spec fn first(&self) -> T {
        self.start
    }

    /// The value that ends the range.
    pub closed spec fn last(&self) -> T {
        self.end
    }

    /// The range from `start` up to `end`.
    pub fn new(start: T, end: T) -> (range: Range<T>)
        ensures
            range.first() == start,
            range.last() == end,
    {
        Self { start, end }
    }

    /// The first value.
    pub fn get_start(&self) -> (start: T)
        ensures
            start == self.first(),
    {
        self.start
    }

    /// The value that ends the range.
    pub fn get_end(&self) -> (end: T)
        ensures
            end == self.last(),
    {
        self.end
    }

    /// A cursor at the first value.
    pub fn into_iter(self) -> (iter: RangeIterator<T>)
        ensures
            iter.position() == self.first(),
            iter.limit() == self.last(),
    {
        RangeIterator::new(self.start, self.end)
    }
}

/// A cursor that steps through a range.
pub struct RangeIterator<T> where T: StepByOne + Copy + PartialEq + PartialOrd {
    current: T,
    end: T,
}

impl<T> RangeIterator<T> where T: StepByOne + Copy + PartialEq + PartialOrd {
    /// The value that comes next.
    pub closed spec fn position(&self) -> T {
        self.current
    }

    /// The value that ends the range.
    pub closed spec fn limit(&self) -> T {
        self.end
    }

    /// A cursor at `l` that stops at `r`.
    pub fn new(l: T, r: T) -> (iter: RangeIterator<T>)
        ensures
            iter.position() == l,
            iter.limit() == r,
    {
        Self { current: l, end: r }
    }

    /// The value at the cursor, which then goes on to the next one; `None`
    /// where the cursor has reached the end.
    pub fn next(&mut self) -> (value: Option<T>)
        requires
            T::obeys_eq_spec(),
            !old(self).position().eq_spec(&old(self).limit()) ==> old(self).position().can_step(),
        ensures
            final(self).limit() == old(self).limit(),
            match value {
                None => old(self).position().eq_spec(&old(self).limit()) && final(self).position()
                    == old(self).position(),
                Some(v) => !old(self).position().eq_spec(&old(self).limit()) && v == old(
                    self,
                ).position() && final(self).position() == old(self).position().stepped(),
            },
    {
        if self.current == self.end {
            None
        } else {
            let curr = self.current;
            self.current.step();
            Some(curr)
        }
    }
}

/// The numbers of the pages of a range, in order.
pub open spec fn pages(start: u64, end: u64) -> Seq<VirtPageNum> {
    Seq::new((end - start) as nat, |i: int| VirtPageNum((start + i) as u64))
}

/// The pages from `range`'s first up to its last, as a list.
pub fn vpn_list(range: Range<VirtPageNum>) -> (list: Vec<VirtPageNum>)
    requires
        range.first().0 <= range.last().0,
    ensures
        list@ == pages(range.first().0, range.last().0),
{
    let mut iter = range.into_iter();
    let mut list: Vec<VirtPageNum> = Vec::new();
    let ghost start = range.first().0;
    let ghost end = range.last().0;
    loop
        invariant
            start <= iter.position().0 <= end,
            iter.limit().0 == end,
            list@ == pages(start, iter.position().0),
        ensures
            list@ == pages(start, end),
        decreases end - iter.position().0,
    {
        match iter.next() {
            None => {
                break ;
            },
            Some(vpn) => {
                list.push(vpn);
                proof {
                    assert(list@ =~= pages(start, iter.position().0));
                }
            },
        }
    }
    list
}

impl<T> RangeIterator<T> where T: StepByOne + Copy + PartialEq + PartialOrd {
    /// The value that comes next.
    pub fn get_current(&self) -> (value: T)
        ensures
            value == self.position(),
    {
        self.current
    }

    /// The value that ends the range.
    pub fn get_limit(&self) -> (value: T)
        ensures
            value == self.limit(),
    {
        self.end
    }
}

} // verus!
