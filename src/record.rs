use vstd::prelude::*;

verus! {

/// The value every word of freshly erased nonvolatile storage reads as.
pub const ERASED: u32 = 0xFFFF_FFFF;

/// The word that closes a record's stack image.
pub const END_MARKER: u32 = 0xFFFF_FFFF;

/// Number of words in a register file.
pub const REGISTER_COUNT: usize = 16;

/// Slot of the stack pointer in a register file.
pub const SP_SLOT: usize = 13;

/// Slot of the link register (return address) in a register file.
pub const LR_SLOT: usize = 14;

/// Slot of the program counter in a register file.
pub const PC_SLOT: usize = 15;

/// Words of a record besides its stack image: size header, end marker, registers.
pub const OVERHEAD_WORDS: usize = 18;

/// Size in bytes of a record with an empty stack image.
pub const MIN_RECORD_BYTES: u32 = 72;

/// Largest stack image, in words, whose record size still fits in a word.
pub const MAX_STACK_WORDS: usize = 0x3FFF_FFED;

/// Size in bytes of a record whose stack image holds `n` words.
pub open spec fn record_bytes(n: nat) -> nat {
    4 * n + 72
}

/// The words of a record, in storage order: size, stack image, end marker,
/// registers.
pub open spec fn encoding(stack: Seq<u32>, regs: Seq<u32>) -> Seq<u32> {
    seq![record_bytes(stack.len()) as u32] + stack + seq![END_MARKER] + regs
}

/// The general registers, stack pointer, link register and program counter, in
/// slot order.
#[derive(Clone, Copy, Debug, PartialEq, Eq)]
pub struct RegisterFile {
    pub words: [u32; 16],
}

impl RegisterFile {
    pub fn stack_pointer(&self) -> (r: u32)
        ensures
            r == self.words@[SP_SLOT as int],
    {
        self.words[SP_SLOT]
    }

    pub fn link_register(&self) -> (r: u32)
        ensures
            r == self.words@[LR_SLOT as int],
    {
        self.words[LR_SLOT]
    }

    pub fn program_counter(&self) -> (r: u32)
        ensures
            r == self.words@[PC_SLOT as int],
    {
        self.words[PC_SLOT]
    }
}

/// One snapshot of execution: the stack image (highest address first) and the
/// register file.
#[derive(Clone, Debug, PartialEq, Eq)]
pub struct CheckpointRecord {
    pub stack_words: Vec<u32>,
    pub registers: RegisterFile,
}

impl CheckpointRecord {
    /// The record's size can be written in its header word.
    pub open spec fn fits(&self) -> bool {
        self.stack_words.len() <= MAX_STACK_WORDS
    }

    pub open spec fn encoded(&self) -> Seq<u32> {
        encoding(self.stack_words@, self.registers.words@)
    }

    /// Bytes from this record's first byte to the first byte of the next one.
    pub fn total_size(&self) -> (r: u32)
        requires
            self.fits(),
        ensures
            r == record_bytes(self.stack_words.len() as nat),
    {
        4 * (self.stack_words.len() as u32) + MIN_RECORD_BYTES
    }

    /// The record's words in storage order.
    pub fn serialize(&self) -> (r: Vec<u32>)
        requires
            self.fits(),
        ensures
            r@ == self.encoded(),
    {
        let mut out: Vec<u32> = Vec::new();
        out.push(self.total_size());
        let n = self.stack_words.len();
        let mut i: usize = 0;
        while i < n
            invariant
                n == self.stack_words.len(),
                i <= n,
                out@ == seq![record_bytes(n as nat) as u32] + self.stack_words@.subrange(0, i as int),
            decreases n - i,
        {
            out.push(self.stack_words[i]);
            i = i + 1;
            assert(self.stack_words@.subrange(0, i as int) =~= self.stack_words@.subrange(
                0,
                i - 1,
            ).push(self.stack_words@[i - 1]));
        }
        assert(self.stack_words@.subrange(0, n as int) =~= self.stack_words@);
        out.push(END_MARKER);
        let mut k: usize = 0;
        while k < REGISTER_COUNT
            invariant
                k <= REGISTER_COUNT,
                self.registers.words@.len() == REGISTER_COUNT,
                out@ == seq![record_bytes(n as nat) as u32] + self.stack_words@ + seq![END_MARKER]
                    + self.registers.words@.subrange(0, k as int),
            decreases REGISTER_COUNT - k,
        {
            out.push(self.registers.words[k]);
            k = k + 1;
            assert(self.registers.words@.subrange(0, k as int) =~= self.registers.words@.subrange(
                0,
                k - 1,
            ).push(self.registers.words@[k - 1]));
        }
        assert(self.registers.words@.subrange(0, 16) =~= self.registers.words@);
        assert(out@ =~= self.encoded());
        out
    }
}

/// The word at `at` is the size header of a record that lies wholly within `w`
/// and whose end marker stands where its size puts it.
pub open spec fn frames_record(w: Seq<u32>, at: int) -> bool {
    &&& 0 <= at < w.len()
    &&& w[at] % 4 == 0
    &&& w[at] >= MIN_RECORD_BYTES
    &&& at + w[at] / 4 <= w.len()
    &&& w[at + w[at] / 4 - 17] == END_MARKER
}

/// Number of words of the record whose header is at `at`.
pub open spec fn span_words(w: Seq<u32>, at: int) -> int {
    w[at] as int / 4
}

/// The stack image of the record framed at `at`.
pub open spec fn stack_of(w: Seq<u32>, at: int) -> Seq<u32> {
    w.subrange(at + 1, at + span_words(w, at) - 17)
}

/// The register file of the record framed at `at`.
pub open spec fn registers_of(w: Seq<u32>, at: int) -> Seq<u32> {
    w.subrange(at + span_words(w, at) - 16, at + span_words(w, at))
}

/// Reads back the record whose header is at `at`: `None` unless the words there
/// frame one.
pub fn deserialize(words: &Vec<u32>, at: usize) -> (r: Option<CheckpointRecord>)
    ensures
        r.is_some() == frames_record(words@, at as int),
        r matches Some(rec) ==> {
            &&& rec.stack_words@ == stack_of(words@, at as int)
            &&& rec.registers.words@ == registers_of(words@, at as int)
        },
{
    if at >= words.len() {
        return None;
    }
    let size = words[at];
    if size % 4 != 0 || size < MIN_RECORD_BYTES || (size / 4) as usize > words.len() - at {
        return None;
    }
    let end = at + (size / 4) as usize;
    if words[end - 17] != END_MARKER {
        return None;
    }
    let mut stack: Vec<u32> = Vec::new();
    let mut i: usize = at + 1;
    while i < end - 17
        invariant
            at + 1 <= i <= end - 17,
            end <= words.len(),
            stack@ == words@.subrange(at + 1, i as int),
        decreases end - 17 - i,
    {
        stack.push(words[i]);
        i = i + 1;
        assert(words@.subrange(at + 1, i as int) =~= words@.subrange(at + 1, i - 1).push(
            words@[i - 1],
        ));
    }
    let mut regs: [u32; 16] = [0u32; 16];
    let mut k: usize = 0;
    while k < REGISTER_COUNT
        invariant
            k <= REGISTER_COUNT,
            end <= words.len(),
            end >= 18,
            regs@.len() == REGISTER_COUNT,
            forall|j: int| 0 <= j < k ==> regs@[j] == words@[end - 16 + j],
        decreases REGISTER_COUNT - k,
    {
        regs[k] = words[end - 16 + k];
        k = k + 1;
    }
    assert(regs@ =~= words@.subrange(end - 16, end as int));
    Some(CheckpointRecord { stack_words: stack, registers: RegisterFile { words: regs } })
}

/// Reading back a serialised record gives the record: the encoding frames
/// itself, and its stack image and registers come back unchanged.
pub proof fn lemma_decode_encoding(stack: Seq<u32>, regs: Seq<u32>)
    requires
        stack.len() <= MAX_STACK_WORDS,
        regs.len() == REGISTER_COUNT,
    ensures
        frames_record(encoding(stack, regs), 0),
        span_words(encoding(stack, regs), 0) == encoding(stack, regs).len(),
        stack_of(encoding(stack, regs), 0) == stack,
        registers_of(encoding(stack, regs), 0) == regs,
{
    let e = encoding(stack, regs);
    let n = stack.len();
    assert(e[0] == (4 * n + 72) as u32);
    assert(e[0] as int == 4 * n + 72);
    assert(e.len() == n + 18);
    assert(e[0] / 4 == n + 18);
    assert(e[n as int + 1] == END_MARKER);
    assert(stack_of(e, 0) =~= stack);
    assert(registers_of(e, 0) =~= regs);
}

/// A framed record is exactly the encoding of what is read back from it.
pub proof fn lemma_encoding_of_framed(w: Seq<u32>, at: int)
    requires
        frames_record(w, at),
    ensures
        stack_of(w, at).len() <= MAX_STACK_WORDS,
        registers_of(w, at).len() == REGISTER_COUNT,
        encoding(stack_of(w, at), registers_of(w, at)) == w.subrange(at, at + span_words(w, at)),
{
    let n = span_words(w, at) - 18;
    assert(stack_of(w, at).len() == n);
    assert(record_bytes(n as nat) == w[at]);
    assert(encoding(stack_of(w, at), registers_of(w, at)) =~= w.subrange(at, at + span_words(w, at)));
}

} // verus!
