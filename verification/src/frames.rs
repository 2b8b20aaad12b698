//! What a lookup returns.

use vstd::prelude::*;

verus! {

/// A procedure as a lookup reports it.
#[derive(Clone, Debug, PartialEq, Eq)]
pub struct Procedure {
    /// The address at which the procedure starts.
    pub procedure_start_rva: u32,
    /// The formatted name of the procedure, where it could be formatted.
    pub function: Option<String>,
}

/// One level of the call stack at an address.
#[derive(Clone, Debug, PartialEq, Eq)]
pub struct Frame {
    /// The formatted name of the function, where it could be formatted.
    pub function: Option<String>,
    /// The name of the source file, where it is known.
    pub file: Option<String>,
    /// The line number, where it is known.
    pub line: Option<u32>,
}

/// The call stack at an address, with the procedure that holds the address.
#[derive(Clone, Debug, PartialEq, Eq)]
pub struct ProcedureFrames {
    /// The address at which the procedure starts.
    pub procedure_start_rva: u32,
    /// The frames, the innermost inlined call first and the procedure itself last.
    pub frames: Vec<Frame>,
}

/// The mathematical value of a [`ProcedureFrames`].
pub struct FrameStack {
    /// The address at which the procedure starts.
    pub procedure_start_rva: u32,
    /// The frames, the innermost inlined call first and the procedure itself last.
    pub frames: Seq<Frame>,
}

impl View for ProcedureFrames {
    type V = FrameStack;

    open spec fn view(&self) -> FrameStack {
        FrameStack { procedure_start_rva: self.procedure_start_rva, frames: self.frames@ }
    }
}

/// Turns a stack of frames over: the last frame comes first.
pub fn innermost_first(stack: Vec<Frame>) -> (frames: Vec<Frame>)
    ensures
        frames@ == stack@.reverse(),
{
    let mut stack = stack;
    let mut frames: Vec<Frame> = Vec::new();
    let ghost whole = stack@;
    while stack.len() > 0
        invariant
            stack.len() + frames.len() == whole.len(),
            forall|i: int| 0 <= i < stack.len() ==> stack[i] == whole[i],
            forall|i: int| 0 <= i < frames.len() ==> frames[i] == whole[whole.len() - 1 - i],
        decreases stack.len(),
    {
        let frame = stack.pop();
        match frame {
            Some(frame) => {
                frames.push(frame);
            },
            None => {},
        }
    }
    proof {
        assert(frames@ =~= whole.reverse());
    }
    frames
}

} // verus!
