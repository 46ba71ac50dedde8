//! Completion records and the conversion of a record into a typed result.
use vstd::prelude::*;
use crate::buf::BoundedBuf;

verus! {

/// One kernel completion: the correlation tag echoed from the submission,
/// a signed result (negative is a negated error code) and flags.
#[derive(Clone, Copy, Debug, PartialEq, Eq, Structural)]
pub struct CompletionRecord {
    pub tag: u64,
    pub result: i32,
    pub flags: u32,
}

/// An error reported by the kernel for an operation, as an OS error number.
#[derive(Clone, Copy, Debug, PartialEq, Eq, Structural)]
pub struct IoError {
    pub errno: u32,
}

/// What a signed completion result stands for: a success value when it is
/// not negative, else the error whose number is its negation.
pub open spec fn result_meaning(res: i32) -> Result<u32, IoError> {
    if res >= 0 {
        Ok(res as u32)
    } else {
        Err(IoError { errno: (-(res as int)) as u32 })
    }
}

/// Turns a signed completion result into a success value or an error.
pub fn cqe_result(res: i32) -> (r: Result<u32, IoError>)
    ensures
        r == result_meaning(res),
        r is Ok <==> res >= 0,
{
    if res >= 0 {
        Ok(res as u32)
    } else {
        let magnitude: i64 = -(res as i64);
        Err(IoError { errno: magnitude as u32 })
    }
}

/// What a read's completion does to everything of the buffer but its
/// bytes: the capacity stays; a success of `k` bytes returns `k` and makes
/// the initialized length the larger of `k` and its old value; an error is
/// returned as such and leaves the initialized length as it was.
pub open spec fn read_counts(before: BoundedBuf, res: i32, result: Result<usize, IoError>, after: BoundedBuf) -> bool {
    &&& after.capacity() == before.capacity()
    &&& if res >= 0 {
        &&& result == Ok::<usize, IoError>(res as usize)
        &&& after.init_len() == if res as nat > before.init_len() { res as nat } else { before.init_len() }
    } else {
        &&& result == Err::<usize, IoError>(IoError { errno: (-(res as int)) as u32 })
        &&& after.init_len() == before.init_len()
    }
}

/// How a read's completion turns the buffer `before`, as the kernel left it,
/// and the signed result `res` into the returned count or error and the
/// buffer `after`: the region keeps every byte the kernel wrote, and the
/// counts follow `read_counts`.
pub open spec fn read_completes(before: BoundedBuf, res: i32, result: Result<usize, IoError>, after: BoundedBuf) -> bool {
    &&& after.region() == before.region()
    &&& read_counts(before, res, result, after)
}

/// Completion step of a read: a success carries the byte count and marks that
/// many bytes of the buffer initialized; an error leaves the buffer untouched.
/// The kernel never reports more bytes than the buffer could take.
pub fn complete_read(buf: BoundedBuf, res: i32) -> (r: (Result<usize, IoError>, BoundedBuf))
    requires
        res < 0 || res as int <= buf.capacity(),
    ensures
        read_completes(buf, res, r.0, r.1),
{
    let mut buf = buf;
    match cqe_result(res) {
        Ok(n) => {
            let n = n as usize;
            buf.set_init(n);
            (Ok(n), buf)
        },
        Err(e) => (Err(e), buf),
    }
}

/// Completion step of a splice: the byte count moved, or the error.
pub fn complete_splice(res: i32) -> (r: Result<u32, IoError>)
    ensures
        r == result_meaning(res),
{
    cqe_result(res)
}

/// A read that completes with `k` bytes, for `k` within the buffer's
/// capacity, on a buffer whose initialized prefix was no longer than `k`,
/// returns exactly `k` and leaves exactly `k` bytes initialized, the region
/// itself untouched.
pub proof fn lemma_read_success_marks_count(before: BoundedBuf, k: i32, result: Result<usize, IoError>, after: BoundedBuf)
    requires
        0 <= k,
        k as int <= before.capacity(),
        before.init_len() <= k,
        read_completes(before, k, result, after),
    ensures
        result == Ok::<usize, IoError>(k as usize),
        after.init_len() == k,
        after.region() == before.region(),
        after.initialized() == before.region().take(k as int),
{
}

/// A read that completes with an error leaves the buffer's initialized
/// length as it was.
pub proof fn lemma_read_error_keeps_buffer(before: BoundedBuf, res: i32, result: Result<usize, IoError>, after: BoundedBuf)
    requires
        res < 0,
        read_completes(before, res, result, after),
    ensures
        result is Err,
        after.init_len() == before.init_len(),
        after.initialized() == before.initialized(),
{
}

} // verus!
