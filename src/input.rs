use vstd::prelude::*;

verus! {

/// A view of the bytes `buf[start..end]`, together with the mode in which they
/// are read.
///
/// In streaming mode the end of the view is not the end of the data: more bytes
/// may arrive later, so a parser that runs out of bytes asks for more instead of
/// failing. Views are copied freely and never change the buffer they look at.
#[derive(Clone, Copy, Debug)]
pub struct Input<'a> {
    pub buf: &'a [u8],
    pub start: usize,
    pub end: usize,
    pub streaming: bool,
}

impl<'a> Input<'a> {
    /// The view lies inside its buffer.
    pub open spec fn wf(&self) -> bool {
        self.start <= self.end <= self.buf@.len()
    }

    /// Number of bytes in the view.
    pub open spec fn spec_len(&self) -> nat {
        (self.end - self.start) as nat
    }

    /// The bytes of the view.
    pub open spec fn bytes(&self) -> Seq<u8> {
        self.buf@.subrange(self.start as int, self.end as int)
    }

    /// The view with its first `n` bytes consumed.
    pub open spec fn spec_advance(&self, n: nat) -> Input<'a> {
        Input { start: (self.start + n) as usize, ..*self }
    }

    /// The view of the first `n` bytes only.
    pub open spec fn spec_window(&self, n: nat) -> Input<'a> {
        Input { end: (self.start + n) as usize, ..*self }
    }

    /// `self` is what is left of `whole` once some prefix of it has been
    /// consumed: the same buffer, mode and end, and a start no earlier.
    pub open spec fn is_rest_of(&self, whole: Input<'a>) -> bool {
        &&& self.buf == whole.buf
        &&& self.streaming == whole.streaming
        &&& self.end == whole.end
        &&& whole.start <= self.start <= self.end
    }

    /// A view of all of `data`, read in complete mode: its end is final.
    pub fn new(data: &'a [u8]) -> (r: Input<'a>)
        ensures
            r.wf(),
            r.bytes() == data@,
            r.buf == data,
            r.start == 0,
            !r.streaming,
    {
        Input { buf: data, start: 0, end: data.len(), streaming: false }
    }

    /// A view of all of `data`, read in streaming mode: more may follow.
    pub fn streaming(data: &'a [u8]) -> (r: Input<'a>)
        ensures
            r.wf(),
            r.bytes() == data@,
            r.buf == data,
            r.start == 0,
            r.streaming,
    {
        Input { buf: data, start: 0, end: data.len(), streaming: true }
    }

    /// Number of bytes in the view.
    pub fn len(&self) -> (r: usize)
        requires
            self.wf(),
        ensures
            r == self.spec_len(),
    {
        self.end - self.start
    }

    /// Whether the view holds no byte.
    pub fn is_empty(&self) -> (r: bool)
        requires
            self.wf(),
        ensures
            r == (self.spec_len() == 0),
    {
        self.end == self.start
    }

    /// Whether more bytes may follow the end of the view.
    pub fn is_streaming(&self) -> (r: bool)
        ensures
            r == self.streaming,
    {
        self.streaming
    }

    /// The byte at position `i` of the view.
    pub fn byte_at(&self, i: usize) -> (r: u8)
        requires
            self.wf(),
            i < self.spec_len(),
        ensures
            r == self.bytes()[i as int],
    {
        self.buf[self.start + i]
    }

    /// The view with its first `n` bytes consumed.
    pub fn advance(&self, n: usize) -> (r: Input<'a>)
        requires
            self.wf(),
            n <= self.spec_len(),
        ensures
            r == self.spec_advance(n as nat),
            r.wf(),
            r.is_rest_of(*self),
            r.spec_len() == self.spec_len() - n,
            r.bytes() == self.bytes().skip(n as int),
    {
        let r = Input { start: self.start + n, ..*self };
        assert(r.bytes() =~= self.bytes().skip(n as int));
        r
    }

    /// The view of the first `n` bytes only, in the same mode.
    pub fn window(&self, n: usize) -> (r: Input<'a>)
        requires
            self.wf(),
            n <= self.spec_len(),
        ensures
            r == self.spec_window(n as nat),
            r.wf(),
            r.spec_len() == n,
            r.bytes() == self.bytes().take(n as int),
    {
        let r = Input { end: self.start + n, ..*self };
        assert(r.bytes() =~= self.bytes().take(n as int));
        r
    }

    /// The bytes of the view, as a slice of the buffer.
    pub fn as_bytes(&self) -> (r: &'a [u8])
        requires
            self.wf(),
        ensures
            r@ == self.bytes(),
    {
        vstd::slice::slice_subrange(self.buf, self.start, self.end)
    }

    /// Number of bytes consumed between `whole` and `self`, when `self` is what
    /// is left of `whole`.
    pub fn offset_from(&self, whole: &Input<'a>) -> (r: usize)
        requires
            whole.wf(),
            self.is_rest_of(*whole),
        ensures
            r == self.start - whole.start,
            r == whole.spec_len() - self.spec_len(),
    {
        self.start - whole.start
    }
}

/// Two views are equal when they are in the same mode and hold the same bytes,
/// wherever those bytes lie.
impl<'a> PartialEq for Input<'a> {
    fn eq(&self, o: &Input<'a>) -> (r: bool) {
        if !(self.start <= self.end && self.end <= self.buf.len() && o.start <= o.end && o.end
            <= o.buf.len()) {
            return false;
        }
        if self.streaming != o.streaming || self.end - self.start != o.end - o.start {
            assert(self.bytes().len() == self.spec_len());
            assert(o.bytes().len() == o.spec_len());
            return false;
        }
        let n = self.end - self.start;
        let mut i: usize = 0;
        while i < n
            invariant
                self.wf(),
                o.wf(),
                n == self.spec_len(),
                n == o.spec_len(),
                i <= n,
                forall|j: int| 0 <= j < i ==> self.bytes()[j] == o.bytes()[j],
            decreases n - i,
        {
            if self.buf[self.start + i] != o.buf[o.start + i] {
                assert(self.bytes()[i as int] != o.bytes()[i as int]);
                return false;
            }
            i = i + 1;
        }
        assert(self.bytes() =~= o.bytes());
        true
    }
}

impl<'a> vstd::std_specs::cmp::PartialEqSpecImpl for Input<'a> {
    open spec fn obeys_eq_spec() -> bool {
        true
    }

    open spec fn eq_spec(&self, o: &Input<'a>) -> bool {
        &&& self.wf()
        &&& o.wf()
        &&& self.streaming == o.streaming
        &&& self.bytes() == o.bytes()
    }
}

} // verus!
