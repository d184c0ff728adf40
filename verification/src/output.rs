use vstd::prelude::*;

use vstd::pervasive::VecAdditionalExecFns;

verus! {

/// Whether a sink bounded by `b` can hold `n` bytes in total.
pub open spec fn can_hold(b: Option<nat>, n: nat) -> bool {
    match b {
        Option::Some(c) => n <= c,
        Option::None => true,
    }
}

/// A destination for encoded bytes.
///
/// A sink owns a byte region, takes appended bytes one at a time or in bulk,
/// and is consumed exactly once by [`Self::release`], which resolves into the
/// finalized output. A bounded sink refuses bytes past its capacity without
/// disturbing what already fits.
pub trait SerOutput: Sized {
    /// What the storage operation resolves into.
    type Output;

    /// The bytes appended so far.
    spec fn contents(&self) -> Seq<u8>;

    /// The total byte capacity, where this sink has one.
    spec fn bound(&self) -> Option<nat>;

    /// Internal consistency of the sink.
    spec fn inv(&self) -> bool;

    /// The finalized output carries exactly the appended bytes.
    spec fn output_is(&self, o: Self::Output) -> bool;

    /// Pushes a single byte to be stored.
    fn try_push(&mut self, data: u8) -> (r: Result<(), ()>)
        requires
            old(self).inv(),
        ensures
            final(self).inv(),
            final(self).bound() == old(self).bound(),
            r matches Ok(()) ==> final(self).contents() == old(self).contents().push(data),
            r matches Err(()) ==> final(self).contents() == old(self).contents() && !can_hold(
                old(self).bound(),
                old(self).contents().len() + 1,
            ),
            can_hold(old(self).bound(), old(self).contents().len() + 1) ==> r matches Ok(()),
    ;

    /// Stores several bytes at once, such as by copying a slice to the
    /// output, rather than iterating over one byte at a time.
    fn try_extend(&mut self, data: &[u8]) -> (r: Result<(), ()>)
        requires
            old(self).inv(),
        ensures
            final(self).inv(),
            final(self).bound() == old(self).bound(),
            r matches Ok(()) ==> final(self).contents() == old(self).contents() + data@,
            r matches Err(()) ==> final(self).contents() == old(self).contents() && !can_hold(
                old(self).bound(),
                old(self).contents().len() + data@.len(),
            ),
            can_hold(old(self).bound(), old(self).contents().len() + data@.len()) ==> r matches Ok(
                (),
            ),
    ;

    /// What a sink holds never exceeds its bound.
    proof fn contents_bounded(&self)
        requires
            self.inv(),
        ensures
            can_hold(self.bound(), self.contents().len()),
    ;

    /// Finalizes the storage operation and resolves into the associated type.
    fn release(self) -> (r: Result<Self::Output, ()>)
        requires
            self.inv(),
        ensures
            r matches Ok(o) && self.output_is(o),
    ;
}

/// Stores encoded bytes into a fixed-capacity byte buffer supplied by the
/// caller. Resolves into the written prefix of that buffer.
pub struct SliceOutput {
    buf: Vec<u8>,
    idx: usize,
}

impl SliceOutput {
    /// Wraps a backing buffer; its length is the sink's capacity and its
    /// current bytes are scratch space to be overwritten.
    pub fn new(buf: Vec<u8>) -> (r: SliceOutput)
        ensures
            r.inv(),
            r.contents() == Seq::<u8>::empty(),
            r.bound() == Option::Some(buf@.len()),
    {
        let r = SliceOutput { buf, idx: 0 };
        proof {
            assert(r.contents() =~= Seq::<u8>::empty());
        }
        r
    }
}

impl SliceOutput {
    /// The byte stored at `idx` among those appended so far.
    pub fn byte_at(&self, idx: usize) -> (r: u8)
        requires
            self.inv(),
            idx < self.contents().len(),
        ensures
            r == self.contents()[idx as int],
    {
        self.buf[idx]
    }
}

impl SerOutput for SliceOutput {
    type Output = Vec<u8>;

    closed spec fn contents(&self) -> Seq<u8> {
        self.buf@.subrange(0, self.idx as int)
    }

    closed spec fn bound(&self) -> Option<nat> {
        Option::Some(self.buf@.len())
    }

    closed spec fn inv(&self) -> bool {
        self.idx <= self.buf@.len()
    }

    open spec fn output_is(&self, o: Vec<u8>) -> bool {
        o@ == self.contents()
    }

    proof fn contents_bounded(&self) {
    }

    fn try_push(&mut self, data: u8) -> (r: Result<(), ()>) {
        if self.idx >= self.buf.len() {
            return Err(());
        }
        self.buf.set(self.idx, data);
        self.idx = self.idx + 1;
        proof {
            assert(self.contents() =~= old(self).contents().push(data));
        }
        Ok(())
    }

    fn try_extend(&mut self, data: &[u8]) -> (r: Result<(), ()>) {
        let len: usize = data.len();
        let cap: usize = self.buf.len();
        if len > cap - self.idx {
            return Err(());
        }
        let mut j: usize = 0;
        while j < len
            invariant
                j <= len,
                len == data@.len(),
                cap == self.buf@.len(),
                self.idx + len <= self.buf@.len(),
                self.idx == old(self).idx,
                self.buf@.len() == old(self).buf@.len(),
                self.buf@.subrange(0, self.idx as int) == old(self).contents(),
                self.buf@.subrange(self.idx as int, self.idx + j) == data@.subrange(0, j as int),
            decreases len - j,
        {
            let b: u8 = *vstd::slice::slice_index_get(data, j);
            self.buf.set(self.idx + j, b);
            proof {
                assert(self.buf@.subrange(0, self.idx as int) =~= old(self).contents());
                assert(self.buf@.subrange(self.idx as int, self.idx + j + 1) =~= data@.subrange(
                    0,
                    j + 1,
                ));
            }
            j = j + 1;
        }
        self.idx = self.idx + len;
        proof {
            assert(data@.subrange(0, len as int) =~= data@);
            assert(self.contents() =~= old(self).contents() + data@);
        }
        Ok(())
    }

    fn release(self) -> (r: Result<Vec<u8>, ()>) {
        let SliceOutput { mut buf, idx } = self;
        buf.truncate(idx);
        Ok(buf)
    }
}

/// Stores encoded bytes in a growable buffer with no fixed capacity.
/// Resolves into that buffer.
pub struct VecOutput(pub Vec<u8>);

impl VecOutput {
    /// An empty growable sink.
    pub fn new() -> (r: VecOutput)
        ensures
            r.inv(),
            r.contents() == Seq::<u8>::empty(),
            r.bound() == Option::<nat>::None,
    {
        VecOutput(Vec::new())
    }
}

impl VecOutput {
    /// The byte stored at `idx` among those appended so far.
    pub fn byte_at(&self, idx: usize) -> (r: u8)
        requires
            idx < self.contents().len(),
        ensures
            r == self.contents()[idx as int],
    {
        self.0[idx]
    }
}

impl SerOutput for VecOutput {
    type Output = Vec<u8>;

    open spec fn contents(&self) -> Seq<u8> {
        self.0@
    }

    open spec fn bound(&self) -> Option<nat> {
        Option::None
    }

    open spec fn inv(&self) -> bool {
        true
    }

    open spec fn output_is(&self, o: Vec<u8>) -> bool {
        o@ == self.contents()
    }

    proof fn contents_bounded(&self) {
    }

    fn try_push(&mut self, data: u8) -> (r: Result<(), ()>) {
        self.0.push(data);
        Ok(())
    }

    fn try_extend(&mut self, data: &[u8]) -> (r: Result<(), ()>) {
        let len: usize = data.len();
        let mut j: usize = 0;
        while j < len
            invariant
                j <= len,
                len == data@.len(),
                self.0@ == old(self).0@ + data@.subrange(0, j as int),
            decreases len - j,
        {
            let b: u8 = *vstd::slice::slice_index_get(data, j);
            self.0.push(b);
            proof {
                assert(old(self).0@ + data@.subrange(0, j as int) + seq![b] =~= old(self).0@
                    + data@.subrange(0, j + 1));
            }
            j = j + 1;
        }
        proof {
            assert(data@.subrange(0, len as int) =~= data@);
        }
        Ok(())
    }

    fn release(self) -> (r: Result<Vec<u8>, ()>) {
        Ok(self.0)
    }
}

} // verus!
