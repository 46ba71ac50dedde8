//! Submission entries in the kernel's format, built by the io_uring crate,
//! each kept beside a plain description of what it asks for.
use vstd::prelude::*;
use io_uring::{opcode, squeue, types};
use crate::buf::BoundedBuf;

verus! {

/// A submission queue entry; opaque here, handed to the kernel as it is.
#[verifier::external_type_specification]
#[verifier::external_body]
pub struct ExEntry(squeue::Entry);

/// What a submission entry asks of the kernel.
#[derive(Clone, Copy, Debug, PartialEq, Eq, Structural)]
pub enum Request {
    /// Read up to `len` bytes from `fd` at `offset` into the start of the
    /// operation's buffer.
    Read { fd: i32, len: u32, offset: u64, tag: u64 },
    /// Move up to `len` bytes from `fd_in` to `fd_out`; an offset of -1
    /// selects the descriptor's own position.
    Splice { fd_in: i32, off_in: i64, fd_out: i32, off_out: i64, len: u32, tag: u64 },
}

/// The correlation tag a request carries.
pub open spec fn request_tag(r: Request) -> u64 {
    match r {
        Request::Read { tag, .. } => tag,
        Request::Splice { tag, .. } => tag,
    }
}

/// An entry for the kernel together with its description.
pub struct Submission {
    pub entry: squeue::Entry,
    pub request: Request,
}

/// Relies on io_uring's `opcode::Read` builder (fd, buffer address, length,
/// then `offset`) and `Entry::user_data`: the entry reads up to `len` bytes
/// from `fd` at `offset` into the start of the buffer's region and carries
/// `tag`. The kernel writes the region later, through the address in the
/// entry, so of the buffer only its capacity and initialized length are
/// promised to stay.
#[verifier::external_body]
pub(crate) fn read_entry(fd: i32, buf: &mut BoundedBuf, len: u32, offset: u64, tag: u64) -> (r: Submission)
    ensures
        r.request == (Request::Read { fd, len, offset, tag }),
        final(buf).capacity() == old(buf).capacity(),
        final(buf).init_len() == old(buf).init_len(),
{
    let entry = opcode::Read::new(types::Fd(fd), buf.data.as_mut_ptr(), len).offset(offset).build().user_data(tag);
    Submission { entry, request: Request::Read { fd, len, offset, tag } }
}

/// Relies on io_uring's `opcode::Splice` builder (fd_in, off_in, fd_out,
/// off_out, len, in that order) and `Entry::user_data`: the entry moves up to
/// `len` bytes from `fd_in` to `fd_out` and carries `tag`.
#[verifier::external_body]
pub(crate) fn splice_entry(fd_in: i32, off_in: i64, fd_out: i32, off_out: i64, len: u32, tag: u64) -> (r: Submission)
    ensures
        r.request == (Request::Splice { fd_in, off_in, fd_out, off_out, len, tag }),
{
    let entry = opcode::Splice::new(types::Fd(fd_in), off_in, types::Fd(fd_out), off_out, len).build().user_data(tag);
    Submission { entry, request: Request::Splice { fd_in, off_in, fd_out, off_out, len, tag } }
}

} // verus!
