use vstd::prelude::*;

use crate::record::{
    encoding, frames_record, lemma_decode_encoding, registers_of, stack_of, CheckpointRecord,
    RegisterFile, MAX_STACK_WORDS, REGISTER_COUNT, SP_SLOT,
};

verus! {

/// Why a snapshot could not be taken.
#[derive(Clone, Copy, Debug, PartialEq, Eq)]
pub enum CaptureError {
    /// The stack pointer or the top of stack is not word aligned.
    Misaligned,
    /// The stack pointer lies above the top of stack.
    AboveTop,
    /// The words read do not cover the live span exactly.
    SpanMismatch,
}

/// Number of words in the live stack span `[sp, top)`.
pub open spec fn span_len(sp: u32, top: u32) -> int {
    (top - sp) / 4
}

/// The live span read highest address first: the word at `top - 4` leads.
pub open spec fn descending(live: Seq<u32>) -> Seq<u32> {
    Seq::new(live.len(), |i: int| live[live.len() - 1 - i])
}

/// Number of words in the live stack span `[sp, top)`.
pub fn live_span(sp: u32, top: u32) -> (r: Result<usize, CaptureError>)
    ensures
        match r {
            Ok(n) => sp % 4 == 0 && top % 4 == 0 && sp <= top && n == span_len(sp, top),
            Err(e) => {
                &&& (e == CaptureError::Misaligned <==> (sp % 4 != 0 || top % 4 != 0))
                &&& (e == CaptureError::AboveTop <==> (sp % 4 == 0 && top % 4 == 0 && sp > top))
                &&& e != CaptureError::SpanMismatch
            },
        },
{
    if sp % 4 != 0 || top % 4 != 0 {
        Err(CaptureError::Misaligned)
    } else if sp > top {
        Err(CaptureError::AboveTop)
    } else {
        Ok(((top - sp) / 4) as usize)
    }
}

/// Takes a snapshot from the register file at the checkpoint call and the live
/// stack span `[sp, top)` read lowest address first (`live[i]` is the word at
/// `sp + 4 * i`, with `sp` the register file's stack pointer). The stack image
/// holds the span highest address first.
pub fn capture(registers: &RegisterFile, top: u32, live: &Vec<u32>) -> (r: Result<
    CheckpointRecord,
    CaptureError,
>)
    ensures
        ({
            let sp = registers.words@[SP_SLOT as int];
            match r {
                Ok(rec) => {
                    &&& sp % 4 == 0 && top % 4 == 0 && sp <= top
                    &&& live@.len() == span_len(sp, top)
                    &&& rec.stack_words@ == descending(live@)
                    &&& rec.registers == *registers
                },
                Err(e) => {
                    &&& (e == CaptureError::Misaligned <==> (sp % 4 != 0 || top % 4 != 0))
                    &&& (e == CaptureError::AboveTop <==> (sp % 4 == 0 && top % 4 == 0 && sp
                        > top))
                    &&& (e == CaptureError::SpanMismatch <==> (sp % 4 == 0 && top % 4 == 0 && sp
                        <= top && live@.len() != span_len(sp, top)))
                },
            }
        }),
{
    let n = match live_span(registers.stack_pointer(), top) {
        Err(e) => {
            return Err(e);
        },
        Ok(n) => n,
    };
    if live.len() != n {
        return Err(CaptureError::SpanMismatch);
    }
    let stack_words = reversed(live);
    Ok(CheckpointRecord { stack_words, registers: *registers })
}

/// `v` in reverse order.
fn reversed(v: &Vec<u32>) -> (r: Vec<u32>)
    ensures
        r@ == descending(v@),
{
    let mut out: Vec<u32> = Vec::new();
    let mut i: usize = v.len();
    while i > 0
        invariant
            i <= v@.len(),
            out@.len() == v@.len() - i,
            forall|j: int| 0 <= j < out@.len() ==> out@[j] == v@[v@.len() - 1 - j],
        decreases i,
    {
        i = i - 1;
        out.push(v[i]);
    }
    assert(out@ =~= descending(v@));
    out
}

/// What resuming a record does: write `live` back lowest address first from
/// `stack_pointer`, load `registers`, and jump to the saved program counter.
pub struct ResumePlan {
    pub stack_pointer: u32,
    pub live: Vec<u32>,
    pub registers: RegisterFile,
}

impl ResumePlan {
    /// Byte address the word `live[i]` goes back to; `None` where it would lie
    /// past the top of the address space.
    pub fn word_address(&self, i: usize) -> (r: Option<u32>)
        ensures
            r is Some <==> self.stack_pointer + 4 * i <= u32::MAX,
            r matches Some(a) ==> a == self.stack_pointer + 4 * i,
    {
        if i > 0x3FFF_FFFF || 4 * (i as u32) > u32::MAX - self.stack_pointer {
            None
        } else {
            Some(self.stack_pointer + 4 * (i as u32))
        }
    }
}

/// How to resume `rec`: its stack image goes back in place from the saved stack
/// pointer, and its registers are reloaded. Resuming assumes a complete record.
pub fn resume_plan(rec: &CheckpointRecord) -> (r: ResumePlan)
    ensures
        r.stack_pointer == rec.registers.words@[SP_SLOT as int],
        r.live@ == descending(rec.stack_words@),
        r.registers == rec.registers,
{
    ResumePlan {
        stack_pointer: rec.registers.stack_pointer(),
        live: reversed(&rec.stack_words),
        registers: rec.registers,
    }
}

/// Capture, serialisation, reading back and resume give back the live stack
/// span word for word and every register, the stack pointer and the program
/// counter (the return address of the checkpoint call) included.
pub proof fn lemma_capture_resume(regs: Seq<u32>, live: Seq<u32>)
    requires
        regs.len() == REGISTER_COUNT,
        live.len() <= MAX_STACK_WORDS,
    ensures
        frames_record(encoding(descending(live), regs), 0),
        descending(stack_of(encoding(descending(live), regs), 0)) == live,
        registers_of(encoding(descending(live), regs), 0) == regs,
{
    lemma_decode_encoding(descending(live), regs);
    assert(descending(descending(live)) =~= live);
}

} // verus!
