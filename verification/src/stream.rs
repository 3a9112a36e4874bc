//! Framing of one object on a stream: a two-byte big-endian length, then
//! the encoded object.  The encoding and the reads and writes are done by
//! the caller; this module decides the frame's header and its limits.
use vstd::prelude::*;

verus! {

/// Why a frame cannot be written or read.
#[derive(Debug, Clone, Copy, PartialEq, Eq, Structural)]
pub enum FrameError {
    /// The object takes `len` bytes, more than the `max` allowed.
    TooBig { len: usize, max: usize },
    /// The object takes `len` bytes, more than a two-byte length can say.
    TooBigForPrefix { len: usize },
}

/// The header of a frame of `len` bytes.
pub open spec fn header_of(len: nat) -> (u8, u8) {
    ((len / 256) as u8, (len % 256) as u8)
}

/// The length a header says.
pub open spec fn length_of(h: (u8, u8)) -> nat {
    (h.0 as nat) * 256 + (h.1 as nat)
}

/// The header to write before an object of `len` bytes, refused when the
/// object is larger than `max_size` or than a two-byte length allows.
pub fn frame_header(len: usize, max_size: usize) -> (r: Result<[u8; 2], FrameError>)
    ensures
        len > max_size ==> r == Err::<[u8; 2], FrameError>(FrameError::TooBig { len, max: max_size }),
        len <= max_size && len > u16::MAX ==> r == Err::<[u8; 2], FrameError>(FrameError::TooBigForPrefix { len }),
        len <= max_size && len <= u16::MAX ==> (r matches Ok(h) && (h@[0], h@[1]) == header_of(len as nat)),
{
    if len > max_size {
        return Err(FrameError::TooBig { len, max: max_size });
    }
    if len > 65535 {
        return Err(FrameError::TooBigForPrefix { len });
    }
    let hi = (len / 256) as u8;
    let lo = (len % 256) as u8;
    let h = [hi, lo];
    assert(h@[0] == hi && h@[1] == lo);
    Ok(h)
}

/// The length of the object that follows `header`, refused when larger
/// than `max_size`.
pub fn frame_length(header: [u8; 2], max_size: usize) -> (r: Result<usize, FrameError>)
    ensures
        length_of((header@[0], header@[1])) > max_size ==> r == Err::<usize, FrameError>(
            FrameError::TooBig { len: length_of((header@[0], header@[1])) as usize, max: max_size },
        ),
        length_of((header@[0], header@[1])) <= max_size ==> r == Ok::<usize, FrameError>(
            length_of((header@[0], header@[1])) as usize,
        ),
{
    let len: usize = (header[0] as usize) * 256 + (header[1] as usize);
    if len > max_size {
        Err(FrameError::TooBig { len, max: max_size })
    } else {
        Ok(len)
    }
}

/// A header written for an object that fits reads back as its length.
pub proof fn law_frame_round_trip(len: nat)
    requires
        len <= u16::MAX,
    ensures
        length_of(header_of(len)) == len,
{
    assert(len / 256 < 256);
}

} // verus!
