use vstd::prelude::*;

verus! {

/// What one read from the source gave.
#[derive(Clone, Copy, Debug, PartialEq, Eq, Structural)]
pub enum ReadEvent {
    /// `n` bytes were read; zero means the end of the source.
    Read(usize),
    /// The read was interrupted before any byte came.
    Interrupted,
    /// The read failed.
    Failed,
}

/// What a copy does next.
#[derive(Clone, Copy, Debug, PartialEq, Eq, Structural)]
pub enum CopyAction {
    /// Write the first `len` bytes of the buffer; `written` bytes will then
    /// have been copied.
    Write { len: usize, written: u64 },
    /// Read again.
    Retry,
    /// The source is exhausted after `written` bytes.
    Done { written: u64 },
    /// Give up with the read's error.
    Fail,
}

/// One decision of a copy from a reader to a writer, `written` bytes having
/// been copied so far.
pub fn copy_step(written: u64, event: ReadEvent) -> (r: CopyAction)
    requires
        event matches ReadEvent::Read(n) ==> written + n <= u64::MAX,
    ensures
        r == (match event {
            ReadEvent::Read(n) => if n == 0 {
                CopyAction::Done { written }
            } else {
                CopyAction::Write { len: n, written: (written + n) as u64 }
            },
            ReadEvent::Interrupted => CopyAction::Retry,
            ReadEvent::Failed => CopyAction::Fail,
        }),
{
    match event {
        ReadEvent::Read(n) => {
            if n == 0 {
                CopyAction::Done { written }
            } else {
                CopyAction::Write { len: n, written: written + n as u64 }
            }
        },
        ReadEvent::Interrupted => CopyAction::Retry,
        ReadEvent::Failed => CopyAction::Fail,
    }
}

} // verus!
