use vstd::prelude::*;
use crate::input::Input;
use crate::error::PResult;

verus! {

/// A parser over byte views producing outputs of type `O`.
///
/// Its behaviour is a function of the view it is given, `spec_parse`; on
/// success what it leaves is a suffix of that view, in the same mode.
pub trait Parser<'a, O> {
    /// What the parser returns on `input`.
    spec fn spec_parse(&self, input: Input<'a>) -> PResult<'a, O>;

    /// A successful parse only consumes a prefix of its input.
    proof fn lemma_parse_rest(&self, input: Input<'a>)
        requires
            input.wf(),
        ensures
            self.spec_parse(input) is Ok ==> self.spec_parse(input)->Ok_0.0.is_rest_of(input),
    ;

    /// Runs the parser on `input`.
    fn parse_next(&self, input: Input<'a>) -> (r: PResult<'a, O>)
        requires
            input.wf(),
        ensures
            r == self.spec_parse(input),
    ;
}

/// A value built from the outputs of successive parses, in the order in which
/// they came.
pub trait Accumulate<T>: Sized {
    /// `self` is what accumulating `items`, first to last, gives.
    spec fn holds(&self, items: Seq<T>) -> bool;

    /// The accumulation of no item; `capacity` is a hint of how many will come.
    fn initial(capacity: Option<usize>) -> (r: Self)
        ensures
            r.holds(Seq::empty()),
    ;

    /// Adds `item` after the `items` accumulated so far.
    fn accumulate(&mut self, item: T, items: Ghost<Seq<T>>)
        requires
            old(self).holds(items@),
            items@.len() < usize::MAX,
        ensures
            final(self).holds(items@.push(item)),
    ;
}

/// A parsed number used as a length or a count.
pub trait ToUsize {
    spec fn spec_to_usize(&self) -> usize;

    fn to_usize(&self) -> (r: usize)
        ensures
            r == self.spec_to_usize(),
    ;
}

impl ToUsize for u8 {
    open spec fn spec_to_usize(&self) -> usize {
        *self as usize
    }

    fn to_usize(&self) -> (r: usize) {
        *self as usize
    }
}

impl ToUsize for u16 {
    open spec fn spec_to_usize(&self) -> usize {
        *self as usize
    }

    fn to_usize(&self) -> (r: usize) {
        *self as usize
    }
}

impl ToUsize for u32 {
    open spec fn spec_to_usize(&self) -> usize {
        *self as usize
    }

    fn to_usize(&self) -> (r: usize) {
        *self as usize
    }
}

impl ToUsize for usize {
    open spec fn spec_to_usize(&self) -> usize {
        *self
    }

    fn to_usize(&self) -> (r: usize) {
        *self
    }
}

/// Largest number of items reserved in advance from a capacity hint.
pub const MAX_INITIAL_CAPACITY: usize = 65536;

/// Keeps every item, in order.
impl<T> Accumulate<T> for Vec<T> {
    open spec fn holds(&self, items: Seq<T>) -> bool {
        self@ == items
    }

    fn initial(capacity: Option<usize>) -> (r: Self) {
        match capacity {
            Some(n) => Vec::with_capacity(if n < MAX_INITIAL_CAPACITY {
                n
            } else {
                MAX_INITIAL_CAPACITY
            }),
            None => Vec::new(),
        }
    }

    fn accumulate(&mut self, item: T, items: Ghost<Seq<T>>) {
        self.push(item);
    }
}

/// Counts the items.
impl<T> Accumulate<T> for usize {
    open spec fn holds(&self, items: Seq<T>) -> bool {
        *self == items.len()
    }

    fn initial(capacity: Option<usize>) -> (r: Self) {
        0
    }

    fn accumulate(&mut self, item: T, items: Ghost<Seq<T>>) {
        *self = *self + 1;
    }
}

/// Discards the items.
impl<T> Accumulate<T> for () {
    open spec fn holds(&self, items: Seq<T>) -> bool {
        true
    }

    fn initial(capacity: Option<usize>) -> (r: Self) {
        ()
    }

    fn accumulate(&mut self, item: T, items: Ghost<Seq<T>>) {
    }
}

} // verus!
