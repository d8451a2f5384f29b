use vstd::prelude::*;

verus! {

/// What to do after one read of a single byte from a stream that is being
/// copied into a buffer.
#[derive(Debug, Clone, Copy, PartialEq, Eq, Structural)]
pub enum CopyStep {
    /// One byte was read: append it and read again.
    Append,
    /// The stream has ended: stop.
    EndOfStream,
    /// The read failed: report it and stop.
    ReadFailed,
    /// The read claimed this many bytes for a one-byte buffer: report it and stop.
    UnexpectedCount(usize),
}

/// The step after one read into a one-byte buffer, from the number of bytes
/// the read gave (`None` where it failed).
pub fn copy_step(read: Option<usize>) -> (step: CopyStep)
    ensures
        step == match read {
            None => CopyStep::ReadFailed,
            Some(0) => CopyStep::EndOfStream,
            Some(1) => CopyStep::Append,
            Some(n) => CopyStep::UnexpectedCount(n),
        },
{
    match read {
        None => CopyStep::ReadFailed,
        Some(n) => {
            if n == 0 {
                CopyStep::EndOfStream
            } else if n == 1 {
                CopyStep::Append
            } else {
                CopyStep::UnexpectedCount(n)
            }
        },
    }
}

} // verus!
