//! The block device under the store: a flat array of bytes that is read and
//! written by absolute offset.

use vstd::prelude::*;
use vstd::slice::{slice_subrange, slice_to_vec};
use crate::error::Error;

verus! {

/// `device` with `data` written over it from `offset` on.
pub open spec fn overwritten(device: Seq<u8>, offset: int, data: Seq<u8>) -> Seq<u8> {
    device.subrange(0, offset) + data + device.subrange(offset + data.len(), device.len() as int)
}

/// `after` agrees with `before` on every byte below `limit`, and has the same
/// size.
pub open spec fn same_below(before: Seq<u8>, after: Seq<u8>, limit: int) -> bool {
    &&& after.len() == before.len()
    &&& forall|i: int| 0 <= i < limit && i < before.len() ==> after[i] == before[i]
}

/// Agreement below a limit carries over a second change above the limit.
pub proof fn lemma_same_below_chain(a: Seq<u8>, b: Seq<u8>, c: Seq<u8>, limit: int, limit2: int)
    requires
        same_below(a, b, limit),
        same_below(b, c, limit2),
        limit <= limit2,
    ensures
        same_below(a, c, limit),
{
}

/// `after` agrees with `before` on every byte from `from` on, and has the
/// same size.
pub open spec fn same_from(before: Seq<u8>, after: Seq<u8>, from: int) -> bool {
    &&& after.len() == before.len()
    &&& forall|i: int| from <= i < before.len() ==> after[i] == before[i]
}

/// Agreement from an offset on carries over a second change below a later
/// offset.
pub proof fn lemma_same_from_chain(a: Seq<u8>, b: Seq<u8>, c: Seq<u8>, from: int, from2: int)
    requires
        same_from(a, b, from),
        same_from(b, c, from2),
        from <= from2,
    ensures
        same_from(a, c, from2),
{
}

/// Writing over a device leaves every byte after what was written.
pub proof fn lemma_overwritten_from(device: Seq<u8>, offset: int, data: Seq<u8>)
    requires
        0 <= offset,
        offset + data.len() <= device.len(),
    ensures
        same_from(device, overwritten(device, offset, data), offset + data.len()),
{
}

/// A request that a block device was handed.
pub enum Request {
    /// A read of `length` bytes from `offset` on.
    Read { offset: int, length: int },
    /// A write of `length` bytes from `offset` on.
    Write { offset: int, length: int },
    /// A flush.
    Flush,
}

/// A block device: a fixed number of bytes, read and written by offset.
///
/// `view` is what the device holds. A `faultless` device fails a request in
/// one case only, when the request reaches beyond its end; any other device
/// may fail whenever it likes, but never hands out bytes it does not hold, and
/// never writes outside the range it was asked to write. `requests` is the
/// record of what the device was asked, served or not.
pub trait BlockDevice {
    /// The requests that the device was handed, the oldest first. A device
    /// that keeps no record is taken to have been handed none.
    open spec fn requests(&self) -> Seq<Request> {
        Seq::empty()
    }

    /// The bytes on the device. A device that does not say what it holds is
    /// taken to hold nothing.
    open spec fn view(&self) -> Seq<u8> {
        Seq::empty()
    }

    /// Whether the device serves every request that lies within it. A device
    /// that does not say so is taken to fail at will.
    open spec fn faultless(&self) -> bool {
        false
    }

    /// Reads `length` bytes from `offset` on.
    fn read(&mut self, offset: u64, length: u64) -> (r: Result<Vec<u8>, Error>)
        ensures
            final(self).view() == old(self).view(),
            final(self).faultless() == old(self).faultless(),
            final(self).requests() == old(self).requests().push(
                Request::Read { offset: offset as int, length: length as int },
            ),
            match r {
                Ok(data) => offset + length <= old(self).view().len() && data@ == old(
                    self,
                ).view().subrange(offset as int, offset + length),
                Err(e) => old(self).faultless() ==> e == Error::OutOfRange && offset + length > old(
                    self,
                ).view().len(),
            },
    ;

    /// Writes `data` from `offset` on and returns how many bytes were written.
    fn write(&mut self, data: Vec<u8>, offset: u64) -> (r: Result<u64, Error>)
        ensures
            final(self).view().len() == old(self).view().len(),
            final(self).faultless() == old(self).faultless(),
            final(self).requests() == old(self).requests().push(
                Request::Write { offset: offset as int, length: data@.len() as int },
            ),
            match r {
                Ok(written) => {
                    &&& written == data@.len()
                    &&& offset + written <= old(self).view().len()
                    &&& offset + written <= u64::MAX
                    &&& final(self).view() == overwritten(old(self).view(), offset as int, data@)
                },
                Err(e) => {
                    &&& forall|i: int|
                        0 <= i < old(self).view().len() && !(offset <= i < offset + data@.len())
                            ==> final(self).view()[i] == old(self).view()[i]
                    &&& old(self).faultless() ==> {
                        &&& e == Error::OutOfRange
                        &&& offset + data@.len() > old(self).view().len()
                        &&& final(self).view() == old(self).view()
                    }
                },
            },
    ;

    /// Makes earlier writes durable.
    fn flush(&mut self) -> (r: Result<(), Error>)
        ensures
            final(self).view() == old(self).view(),
            final(self).faultless() == old(self).faultless(),
            final(self).requests() == old(self).requests().push(Request::Flush),
            old(self).faultless() ==> r is Ok,
    ;
}

/// A block device held in memory.
pub struct MemDevice {
    pub mem: Vec<u8>,
    pub asked: Ghost<Seq<Request>>,
}

impl MemDevice {
    /// A device of `size` zero bytes.
    pub fn new(size: usize) -> (device: MemDevice)
        ensures
            device.view() == Seq::new(size as nat, |i: int| 0u8),
            device.requests() == Seq::<Request>::empty(),
    {
        let mem = vec![0u8; size];
        assert(mem@ == Seq::new(size as nat, |i: int| 0u8));
        MemDevice { mem, asked: Ghost(Seq::empty()) }
    }

    /// A device that holds `mem`.
    pub fn with_bytes(mem: Vec<u8>) -> (device: MemDevice)
        ensures
            device.view() == mem@,
            device.requests() == Seq::<Request>::empty(),
    {
        MemDevice { mem, asked: Ghost(Seq::empty()) }
    }

    /// The number of bytes on the device.
    pub fn size(&self) -> (size: usize)
        ensures
            size == self.view().len(),
    {
        self.mem.len()
    }
}

impl BlockDevice for MemDevice {
    open spec fn view(&self) -> Seq<u8> {
        self.mem@
    }

    open spec fn faultless(&self) -> bool {
        true
    }

    open spec fn requests(&self) -> Seq<Request> {
        self.asked@
    }

    fn read(&mut self, offset: u64, length: u64) -> (r: Result<Vec<u8>, Error>) {
        self.asked = Ghost(
            self.asked@.push(Request::Read { offset: offset as int, length: length as int }),
        );
        let size = self.mem.len() as u64;
        if length > size || offset > size - length {
            return Err(Error::OutOfRange);
        }
        let start = offset as usize;
        let end = start + length as usize;
        Ok(slice_to_vec(slice_subrange(self.mem.as_slice(), start, end)))
    }

    fn write(&mut self, data: Vec<u8>, offset: u64) -> (r: Result<u64, Error>) {
        self.asked = Ghost(
            self.asked@.push(
                Request::Write { offset: offset as int, length: data@.len() as int },
            ),
        );
        let size = self.mem.len() as u64;
        let length = data.len() as u64;
        if length > size || offset > size - length {
            return Err(Error::OutOfRange);
        }
        let start = offset as usize;
        let mut at: usize = 0;
        while at < data.len()
            invariant
                at <= data@.len(),
                start + data@.len() <= self.mem@.len() <= usize::MAX,
                self.mem@.len() == old(self).mem@.len(),
                self.asked@ == old(self).asked@.push(
                    Request::Write { offset: offset as int, length: data@.len() as int },
                ),
                forall|i: int| 0 <= i < start ==> self.mem@[i] == old(self).mem@[i],
                forall|i: int| start <= i < start + at ==> self.mem@[i] == data@[i - start],
                forall|i: int| start + at <= i < self.mem@.len() ==> self.mem@[i] == old(self).mem@[i],
            decreases data@.len() - at,
        {
            self.mem.set(start + at, data[at]);
            at += 1;
        }
        assert(self.mem@ == overwritten(old(self).mem@, offset as int, data@));
        Ok(length)
    }

    fn flush(&mut self) -> (r: Result<(), Error>) {
        self.asked = Ghost(self.asked@.push(Request::Flush));
        Ok(())
    }
}

} // verus!
