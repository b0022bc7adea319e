use vstd::prelude::*;

use crate::chain::{
    chain, chain_from, clean, complete, find_head, find_latest_complete, head, head_from,
    last_complete, latest_complete, lemma_head_bounds, next_of, traverse, valid_header,
};
use crate::record::{
    deserialize, encoding, lemma_decode_encoding, registers_of, span_words, stack_of,
    CheckpointRecord, ERASED, MAX_STACK_WORDS, OVERHEAD_WORDS, REGISTER_COUNT,
};
use crate::store::{apply_op, apply_ops, FlashOp, LogStore, Region};

verus! {

/// Why a record could not be appended.
#[derive(Clone, Copy, Debug, PartialEq, Eq)]
pub enum LogError {
    /// The record does not fit in the region even once it is erased.
    RecordTooLarge,
}

/// What appending one record does: where it goes, whether the region is erased
/// first, and the storage operations, in the order they must be performed.
pub struct AppendPlan {
    pub start: usize,
    pub erase: bool,
    pub ops: Vec<FlashOp>,
}

/// The words `[start, start + n]` are erased: room for `n` words and an erased
/// word after them.
pub open spec fn room_at(w: Seq<u32>, start: int, n: int) -> bool {
    forall|k: int| start <= k <= start + n ==> w[k] == ERASED
}

/// Appending `n` words must first erase the region: they would reach its end,
/// or what lies past the log head is not erased.
pub open spec fn needs_erase(w: Seq<u32>, n: int) -> bool {
    head(w) + n >= w.len() || !room_at(w, head(w), n)
}

/// Where a record of `n` words is appended.
pub open spec fn append_start(w: Seq<u32>, n: int) -> int {
    if needs_erase(w, n) {
        0
    } else {
        head(w)
    }
}

/// Erasing every page of a region of `pc` pages, first page first.
pub open spec fn erase_ops(pc: nat) -> Seq<FlashOp> {
    Seq::new(pc, |p: int| FlashOp::ErasePage { page: p as usize })
}

/// Writing the words `enc` at `start`: every word after the header in storage
/// order, then the header, so that a record is only chained once all of it is
/// written.
pub open spec fn program_ops(start: int, enc: Seq<u32>) -> Seq<FlashOp> {
    Seq::new(
        (enc.len() - 1) as nat,
        |j: int| FlashOp::ProgramWord { index: (start + 1 + j) as usize, value: enc[1 + j] },
    ).push(FlashOp::ProgramWord { index: start as usize, value: enc[0] })
}

/// The operations that append the record words `enc` to the image `w`.
pub open spec fn append_ops(region: Region, w: Seq<u32>, enc: Seq<u32>) -> Seq<FlashOp> {
    if needs_erase(w, enc.len() as int) {
        erase_ops(region.page_count()) + program_ops(0, enc)
    } else {
        program_ops(head(w), enc)
    }
}

/// The image once the record words `enc` are appended to `w`.
pub open spec fn appended(region: Region, w: Seq<u32>, enc: Seq<u32>) -> Seq<u32> {
    apply_ops(w, region.page_words(), append_ops(region, w, enc))
}

/// `w` with the words in `[lo, hi)` replaced by those of `enc` laid out from
/// `start`.
pub open spec fn overwrite(w: Seq<u32>, start: int, enc: Seq<u32>, lo: int, hi: int) -> Seq<u32> {
    Seq::new(w.len(), |x: int| if lo <= x < hi { enc[x - start] } else { w[x] })
}

proof fn lemma_program_erased(v: u32)
    ensures
        ERASED & v == v,
{
    assert(0xFFFF_FFFFu32 & v == v) by (bit_vector);
}

proof fn lemma_apply_ops_concat(w: Seq<u32>, pw: nat, a: Seq<FlashOp>, b: Seq<FlashOp>)
    ensures
        apply_ops(w, pw, a + b) == apply_ops(apply_ops(w, pw, a), pw, b),
    decreases b.len(),
{
    if b.len() == 0 {
        assert(a + b =~= a);
    } else {
        lemma_apply_ops_concat(w, pw, a, b.drop_last());
        assert((a + b).drop_last() =~= a + b.drop_last());
        assert((a + b).last() == b.last());
    }
}

proof fn lemma_apply_ops_step(w: Seq<u32>, pw: nat, s: Seq<FlashOp>, j: int)
    requires
        0 <= j < s.len(),
    ensures
        apply_ops(w, pw, s.subrange(0, j + 1)) == apply_op(
            apply_ops(w, pw, s.subrange(0, j)),
            pw,
            s[j],
        ),
{
    assert(s.subrange(0, j + 1).drop_last() =~= s.subrange(0, j));
}

/// Erasing the first `k` pages erases the first `k * pw` words.
proof fn lemma_erase_prefix(w: Seq<u32>, pw: nat, pc: nat, k: nat)
    requires
        k <= pc,
        pc <= usize::MAX,
        w.len() == pc * pw,
    ensures
        apply_ops(w, pw, erase_ops(pc).subrange(0, k as int)) == Seq::new(
            w.len(),
            |x: int| if x < k * pw { ERASED } else { w[x] },
        ),
    decreases k,
{
    let s = erase_ops(pc);
    if k == 0 {
        assert(s.subrange(0, 0) =~= Seq::<FlashOp>::empty());
        assert(apply_ops(w, pw, s.subrange(0, 0)) =~= Seq::new(
            w.len(),
            |x: int| if x < k * pw { ERASED } else { w[x] },
        ));
    } else {
        lemma_erase_prefix(w, pw, pc, (k - 1) as nat);
        lemma_apply_ops_step(w, pw, s, k - 1);
        assert((k - 1) * pw + pw == k * pw) by (nonlinear_arith);
        assert(apply_ops(w, pw, s.subrange(0, k as int)) =~= Seq::new(
            w.len(),
            |x: int| if x < k * pw { ERASED } else { w[x] },
        ));
    }
}

/// Programming the first `j` operations of `program_ops` over erased words.
proof fn lemma_program_prefix(w: Seq<u32>, pw: nat, start: int, enc: Seq<u32>, j: nat)
    requires
        0 <= start,
        start + enc.len() <= w.len(),
        w.len() <= usize::MAX,
        enc.len() >= 1,
        j <= enc.len(),
        forall|x: int| start <= x < start + enc.len() ==> w[x] == ERASED,
    ensures
        apply_ops(w, pw, program_ops(start, enc).subrange(0, j as int)) == if j < enc.len() {
            overwrite(w, start, enc, start + 1, start + 1 + j)
        } else {
            overwrite(w, start, enc, start, start + enc.len())
        },
    decreases j,
{
    let s = program_ops(start, enc);
    let n = enc.len() as int;
    if j == 0 {
        assert(s.subrange(0, 0) =~= Seq::<FlashOp>::empty());
        assert(overwrite(w, start, enc, start + 1, start + 1) =~= w);
    } else {
        lemma_program_prefix(w, pw, start, enc, (j - 1) as nat);
        lemma_apply_ops_step(w, pw, s, j - 1);
        let prev = overwrite(w, start, enc, start + 1, start + j);
        if j < n {
            assert(s[j - 1] == FlashOp::ProgramWord {
                index: (start + j) as usize,
                value: enc[j as int],
            });
            lemma_program_erased(enc[j as int]);
            assert(apply_op(prev, pw, s[j - 1]) =~= overwrite(w, start, enc, start + 1, start + 1 + j));
        } else {
            assert(s[j - 1] == FlashOp::ProgramWord { index: start as usize, value: enc[0] });
            lemma_program_erased(enc[0]);
            assert(apply_op(prev, pw, s[j - 1]) =~= overwrite(w, start, enc, start, start + n));
        }
    }
}

/// Changing nothing before the end of a chain keeps the chain, and continues
/// it with whatever now follows.
proof fn lemma_chain_agree(w1: Seq<u32>, w2: Seq<u32>, i: int)
    requires
        0 <= i,
        w1.len() == w2.len(),
        forall|k: int| i <= k < head_from(w1, i) ==> w1[k] == w2[k],
    ensures
        chain_from(w2, i) == chain_from(w1, i) + chain_from(w2, head_from(w1, i)),
        head_from(w2, i) == head_from(w2, head_from(w1, i)),
    decreases w1.len() - i,
{
    if valid_header(w1, i) {
        let nx = next_of(w1, i);
        lemma_head_bounds(w1, nx);
        assert(w1[i] == w2[i]);
        assert(w1[i + span_words(w1, i) - 17] == w2[i + span_words(w1, i) - 17]);
        assert(valid_header(w2, i));
        assert(next_of(w2, i) == nx);
        lemma_chain_agree(w1, w2, nx);
        assert(chain_from(w2, i) =~= chain_from(w1, i) + chain_from(w2, head_from(w1, i)));
    } else {
        assert(chain_from(w1, i) + chain_from(w2, i) =~= chain_from(w2, i));
    }
}

proof fn lemma_last_complete_agree(w1: Seq<u32>, w2: Seq<u32>, c: Seq<int>)
    requires
        forall|j: int| 0 <= j < c.len() ==> complete(w1, c[j]) == complete(w2, c[j]),
    ensures
        last_complete(w1, c) == last_complete(w2, c),
    decreases c.len(),
{
    if c.len() > 0 {
        assert(complete(w1, c[c.len() - 1]) == complete(w2, c[c.len() - 1]));
        lemma_last_complete_agree(w1, w2, c.drop_last());
    }
}

/// The latest complete record is complete.
proof fn lemma_last_complete_is_complete(w: Seq<u32>, c: Seq<int>)
    ensures
        last_complete(w, c) matches Some(x) ==> complete(w, x),
    decreases c.len(),
{
    if c.len() > 0 && !complete(w, c.last()) {
        lemma_last_complete_is_complete(w, c.drop_last());
    }
}

/// An image that matches `w1` up to and including its erased log head has the
/// same records, the same head and the same latest complete record.
proof fn lemma_prefix_frozen(w1: Seq<u32>, w2: Seq<u32>)
    requires
        w1.len() == w2.len(),
        0 <= head(w1) < w1.len(),
        w1[head(w1)] == ERASED,
        forall|k: int| 0 <= k <= head(w1) ==> w1[k] == w2[k],
    ensures
        chain(w2) == chain(w1),
        head(w2) == head(w1),
        latest_complete(w2) == latest_complete(w1),
{
    let h = head(w1);
    lemma_head_bounds(w1, 0);
    lemma_chain_agree(w1, w2, 0);
    assert(!valid_header(w2, h));
    assert(chain(w2) =~= chain(w1));
    let c = chain(w1);
    assert forall|j: int| 0 <= j < c.len() implies complete(w1, c[j]) == complete(w2, c[j]) by {
        let x = c[j];
        let nx = next_of(w1, x);
        assert(valid_header(w1, x));
        assert(w1[x] == w2[x]);
        assert(w1[x + span_words(w1, x) - 17] == w2[x + span_words(w1, x) - 17]);
        assert(valid_header(w2, x));
        assert(next_of(w2, x) == nx);
        if j + 1 < c.len() {
            let y = c[j + 1];
            assert(nx == y);
            assert(valid_header(w1, y));
            assert(next_of(w1, y) <= h);
            assert(w1[y] == w2[y]);
            assert(w1[y + span_words(w1, y) - 17] == w2[y + span_words(w1, y) - 17]);
            assert(valid_header(w2, y));
        } else {
            assert(nx == h);
            assert(w2[nx] == ERASED);
        }
    }
    lemma_last_complete_agree(w1, w2, c);
}

/// Writing a whole record at the log head, over erased words, chains it as the
/// latest complete record and reads back as written.
proof fn lemma_write_record(w: Seq<u32>, stack: Seq<u32>, regs: Seq<u32>)
    requires
        stack.len() <= MAX_STACK_WORDS,
        regs.len() == REGISTER_COUNT,
        0 <= head(w),
        head(w) + encoding(stack, regs).len() < w.len(),
        room_at(w, head(w), encoding(stack, regs).len() as int),
    ensures
        ({
            let h = head(w);
            let enc = encoding(stack, regs);
            let w2 = overwrite(w, h, enc, h, h + enc.len());
            &&& chain(w2) == chain(w).push(h)
            &&& head(w2) == h + enc.len()
            &&& latest_complete(w2) == Some(h)
            &&& stack_of(w2, h) == stack
            &&& registers_of(w2, h) == regs
            &&& clean(w) ==> clean(w2)
        }),
{
    let h = head(w);
    let enc = encoding(stack, regs);
    let n = enc.len() as int;
    let w2 = overwrite(w, h, enc, h, h + n);
    lemma_decode_encoding(stack, regs);
    lemma_head_bounds(w, 0);
    lemma_chain_agree(w, w2, 0);
    assert(w2[h] == enc[0]);
    assert(w2[h + n - 17] == enc[n - 17]);
    assert(valid_header(w2, h));
    assert(next_of(w2, h) == h + n);
    assert(w2[h + n] == ERASED);
    assert(!valid_header(w2, h + n));
    assert(chain_from(w2, h + n) == Seq::<int>::empty());
    assert(head_from(w2, h + n) == h + n);
    assert(chain_from(w2, h) == seq![h] + chain_from(w2, h + n));
    assert(head_from(w2, h) == head_from(w2, h + n));
    assert(chain_from(w2, h) =~= seq![h]);
    assert(chain(w2) =~= chain(w).push(h));
    assert(complete(w2, h));
    assert(chain(w2).drop_last() =~= chain(w));
    assert(stack_of(w2, h) =~= stack_of(enc, 0));
    assert(registers_of(w2, h) =~= registers_of(enc, 0));
}

proof fn lemma_erased_head(w: Seq<u32>)
    requires
        w.len() > 0,
        w[0] == ERASED,
    ensures
        head(w) == 0,
        chain(w) == Seq::<int>::empty(),
        latest_complete(w) is None,
{
    assert(!valid_header(w, 0));
}

/// Appending a record that fits the region makes it the latest complete record,
/// byte for byte as given; the records before it stay when the region was not
/// erased, and a log whose tail was erased keeps an erased tail.
pub proof fn lemma_append(region: Region, w: Seq<u32>, stack: Seq<u32>, regs: Seq<u32>)
    requires
        region.wf(),
        w.len() == region.word_count(),
        regs.len() == REGISTER_COUNT,
        stack.len() + OVERHEAD_WORDS < w.len(),
    ensures
        ({
            let enc = encoding(stack, regs);
            let after = appended(region, w, enc);
            let s = append_start(w, enc.len() as int);
            &&& after.len() == w.len()
            &&& latest_complete(after) == Some(s)
            &&& stack_of(after, s) == stack
            &&& registers_of(after, s) == regs
            &&& chain(after) == if needs_erase(w, enc.len() as int) {
                seq![0int]
            } else {
                chain(w).push(head(w))
            }
            &&& clean(w) ==> clean(after)
        }),
{
    region.lemma_geometry();
    let enc = encoding(stack, regs);
    let n = enc.len() as int;
    let pw = region.page_words();
    let pc = region.page_count();
    lemma_head_bounds(w, 0);
    if needs_erase(w, n) {
        let e = erase_ops(pc);
        let p = program_ops(0, enc);
        lemma_apply_ops_concat(w, pw, e, p);
        lemma_erase_prefix(w, pw, pc, pc);
        assert(e.subrange(0, pc as int) =~= e);
        let z = apply_ops(w, pw, e);
        assert(z =~= Seq::new(w.len(), |x: int| ERASED));
        lemma_erased_head(z);
        lemma_program_prefix(z, pw, 0, enc, n as nat);
        assert(p.subrange(0, n) =~= p);
        lemma_write_record(z, stack, regs);
        assert(chain(z).push(0) =~= seq![0int]);
    } else {
        let p = program_ops(head(w), enc);
        lemma_program_prefix(w, pw, head(w), enc, n as nat);
        assert(p.subrange(0, n) =~= p);
        lemma_write_record(w, stack, regs);
    }
}

/// Power lost part way through an append leaves the previous latest complete
/// record in place, unchanged, with every record before the log head intact; or,
/// once erasing has begun, no record at all. The partial record is never taken.
pub proof fn lemma_torn_append(
    region: Region,
    w: Seq<u32>,
    stack: Seq<u32>,
    regs: Seq<u32>,
    k: nat,
)
    requires
        region.wf(),
        w.len() == region.word_count(),
        regs.len() == REGISTER_COUNT,
        stack.len() + OVERHEAD_WORDS < w.len(),
        k < append_ops(region, w, encoding(stack, regs)).len(),
    ensures
        ({
            let enc = encoding(stack, regs);
            let torn = apply_ops(
                w,
                region.page_words(),
                append_ops(region, w, enc).subrange(0, k as int),
            );
            if needs_erase(w, enc.len() as int) && k > 0 {
                &&& chain(torn).len() == 0
                &&& latest_complete(torn) is None
            } else {
                &&& chain(torn) == chain(w)
                &&& latest_complete(torn) == latest_complete(w)
                &&& torn.subrange(0, head(w)) == w.subrange(0, head(w))
            }
        }),
{
    region.lemma_geometry();
    let enc = encoding(stack, regs);
    let n = enc.len() as int;
    let pw = region.page_words();
    let pc = region.page_count();
    let ops = append_ops(region, w, enc);
    lemma_head_bounds(w, 0);
    if needs_erase(w, n) {
        let e = erase_ops(pc);
        let p = program_ops(0, enc);
        if k == 0 {
            assert(ops.subrange(0, 0) =~= Seq::<FlashOp>::empty());
            assert(w.subrange(0, head(w)) =~= w.subrange(0, head(w)));
        } else if k <= pc {
            assert(ops.subrange(0, k as int) =~= e.subrange(0, k as int));
            lemma_erase_prefix(w, pw, pc, k);
            assert(0 < k * pw) by (nonlinear_arith)
                requires
                    k > 0,
                    pw > 0,
            ;
            lemma_erased_head(apply_ops(w, pw, ops.subrange(0, k as int)));
        } else {
            let j = (k - pc) as nat;
            assert(ops.subrange(0, k as int) =~= e + p.subrange(0, j as int));
            lemma_apply_ops_concat(w, pw, e, p.subrange(0, j as int));
            lemma_erase_prefix(w, pw, pc, pc);
            assert(e.subrange(0, pc as int) =~= e);
            let z = apply_ops(w, pw, e);
            assert(z =~= Seq::new(w.len(), |x: int| ERASED));
            lemma_program_prefix(z, pw, 0, enc, j);
            lemma_erased_head(apply_ops(w, pw, ops.subrange(0, k as int)));
        }
    } else {
        let h = head(w);
        lemma_program_prefix(w, pw, h, enc, k);
        let torn = overwrite(w, h, enc, h + 1, h + 1 + k);
        lemma_prefix_frozen(w, torn);
        assert(torn.subrange(0, h) =~= w.subrange(0, h));
    }
}

/// On a log with an erased tail, an append erases the region exactly when the
/// record would reach the region's end. It then erases every page once, first
/// to last, before any word is written, and the new record is the only one.
pub proof fn lemma_wraparound(region: Region, w: Seq<u32>, stack: Seq<u32>, regs: Seq<u32>)
    requires
        region.wf(),
        w.len() == region.word_count(),
        regs.len() == REGISTER_COUNT,
        stack.len() + OVERHEAD_WORDS < w.len(),
        clean(w),
    ensures
        ({
            let enc = encoding(stack, regs);
            let ops = append_ops(region, w, enc);
            let pc = region.page_count() as int;
            &&& needs_erase(w, enc.len() as int) <==> head(w) + enc.len() >= w.len()
            &&& needs_erase(w, enc.len() as int) ==> {
                &&& append_start(w, enc.len() as int) == 0
                &&& forall|p: int| 0 <= p < pc ==> ops[p] == FlashOp::ErasePage { page: p as usize }
                &&& forall|j: int| pc <= j < ops.len() ==> ops[j] is ProgramWord
                &&& chain(appended(region, w, enc)) == seq![0int]
            }
            &&& !needs_erase(w, enc.len() as int) ==> forall|j: int|
                0 <= j < ops.len() ==> ops[j] is ProgramWord
        }),
{
    lemma_append(region, w, stack, regs);
    let enc = encoding(stack, regs);
    let n = enc.len() as int;
    lemma_head_bounds(w, 0);
    if head(w) + n < w.len() {
        assert(room_at(w, head(w), n));
    }
    let ops = append_ops(region, w, enc);
    let pc = region.page_count() as int;
    if needs_erase(w, n) {
        assert forall|j: int| pc <= j < ops.len() implies ops[j] is ProgramWord by {
            assert(ops[j] == program_ops(0, enc)[j - pc]);
        }
    }
}

impl LogStore {
    /// The record starts, in chain order.
    pub fn traverse(&self) -> (r: Vec<usize>)
        ensures
            r@.len() == chain(self.words@).len(),
            forall|j: int| 0 <= j < r@.len() ==> r@[j] as int == #[trigger] chain(self.words@)[j],
    {
        traverse(&self.words)
    }

    /// The start of the latest complete record.
    pub fn find_latest_complete(&self) -> (r: Option<usize>)
        ensures
            r matches Some(i) ==> latest_complete(self.words@) == Some(i as int),
            r is None ==> latest_complete(self.words@) is None,
    {
        find_latest_complete(&self.words)
    }

    /// The latest complete record, read back; `None` signals a cold start.
    pub fn latest_record(&self) -> (r: Option<CheckpointRecord>)
        ensures
            match latest_complete(self.words@) {
                None => r is None,
                Some(i) => r matches Some(rec) && rec.stack_words@ == stack_of(self.words@, i)
                    && rec.registers.words@ == registers_of(self.words@, i),
            },
    {
        match find_latest_complete(&self.words) {
            None => None,
            Some(i) => {
                proof {
                    lemma_last_complete_is_complete(self.words@, chain(self.words@));
                }
                deserialize(&self.words, i)
            },
        }
    }

    /// Plans the append of `rec`: an error exactly when the record is as large as
    /// the region or larger.
    pub fn plan_append(&self, rec: &CheckpointRecord) -> (r: Result<AppendPlan, LogError>)
        requires
            self.wf(),
        ensures
            match r {
                Ok(p) => {
                    &&& rec.stack_words.len() + OVERHEAD_WORDS < self.region.word_count()
                    &&& p.start == append_start(self.words@, rec.encoded().len() as int)
                    &&& p.erase == needs_erase(self.words@, rec.encoded().len() as int)
                    &&& p.ops@ == append_ops(self.region, self.words@, rec.encoded())
                },
                Err(e) => {
                    &&& e == LogError::RecordTooLarge
                    &&& rec.stack_words.len() + OVERHEAD_WORDS >= self.region.word_count()
                },
            },
    {
        let total = self.region.words();
        let m = rec.stack_words.len();
        if m >= total || total - m <= OVERHEAD_WORDS {
            return Err(LogError::RecordTooLarge);
        }
        let n = m + OVERHEAD_WORDS;
        let enc = rec.serialize();
        let w = &self.words;
        proof {
            lemma_head_bounds(w@, 0);
        }
        let h = find_head(w);
        let erase = h + n >= total || !room_after(w, h, n);
        let start: usize = if erase {
            0
        } else {
            h
        };
        let mut ops: Vec<FlashOp> = Vec::new();
        if erase {
            let pc = self.region.pages();
            let mut p: usize = 0;
            while p < pc
                invariant
                    p <= pc,
                    pc == self.region.page_count(),
                    ops@ == erase_ops(pc as nat).subrange(0, p as int),
                decreases pc - p,
            {
                ops.push(FlashOp::ErasePage { page: p });
                p = p + 1;
                assert(ops@ =~= erase_ops(pc as nat).subrange(0, p as int));
            }
            assert(ops@ =~= erase_ops(pc as nat));
        }
        let ghost pre = ops@;
        let mut j: usize = 0;
        while j < n - 1
            invariant
                enc@ == rec.encoded(),
                enc@.len() == n,
                n == m + OVERHEAD_WORDS,
                start + n < total,
                j <= n - 1,
                ops@ == pre + program_ops(start as int, enc@).subrange(0, j as int),
            decreases n - 1 - j,
        {
            ops.push(FlashOp::ProgramWord { index: start + 1 + j, value: enc[1 + j] });
            j = j + 1;
            assert(ops@ =~= pre + program_ops(start as int, enc@).subrange(0, j as int));
        }
        ops.push(FlashOp::ProgramWord { index: start, value: enc[0] });
        assert(ops@ =~= pre + program_ops(start as int, enc@));
        if !erase {
            assert(pre =~= Seq::<FlashOp>::empty());
        }
        Ok(AppendPlan { start, erase, ops })
    }

    /// Appends `rec` at the log head, erasing the whole region first when it
    /// does not fit there, and returns where the record starts.
    pub fn append(&mut self, rec: &CheckpointRecord) -> (r: Result<usize, LogError>)
        requires
            old(self).wf(),
        ensures
            final(self).wf(),
            final(self).region == old(self).region,
            match r {
                Ok(s) => {
                    let enc = rec.encoded();
                    let w = old(self).words@;
                    &&& s == append_start(w, enc.len() as int)
                    &&& final(self).words@ == appended(old(self).region, w, enc)
                    &&& latest_complete(final(self).words@) == Some(s as int)
                    &&& stack_of(final(self).words@, s as int) == rec.stack_words@
                    &&& registers_of(final(self).words@, s as int) == rec.registers.words@
                    &&& chain(final(self).words@) == if needs_erase(w, enc.len() as int) {
                        seq![0int]
                    } else {
                        chain(w).push(head(w))
                    }
                    &&& clean(w) ==> clean(final(self).words@)
                },
                Err(e) => {
                    &&& e == LogError::RecordTooLarge
                    &&& rec.stack_words.len() + OVERHEAD_WORDS >= old(self).region.word_count()
                    &&& final(self).words@ == old(self).words@
                },
            },
    {
        match self.plan_append(rec) {
            Err(e) => Err(e),
            Ok(plan) => {
                proof {
                    lemma_append(
                        self.region,
                        self.words@,
                        rec.stack_words@,
                        rec.registers.words@,
                    );
                }
                let count = plan.ops.len();
                self.apply_prefix(&plan.ops, count);
                assert(plan.ops@.subrange(0, count as int) =~= plan.ops@);
                Ok(plan.start)
            },
        }
    }
}

/// Whether the words `[start, start + n]` are all erased.
fn room_after(w: &Vec<u32>, start: usize, n: usize) -> (r: bool)
    requires
        start + n < w.len(),
    ensures
        r == room_at(w@, start as int, n as int),
{
    let mut k: usize = start;
    while k <= start + n
        invariant
            start <= k <= start + n + 1,
            start + n < w.len(),
            forall|x: int| start <= x < k ==> w@[x] == ERASED,
        decreases start + n + 1 - k,
    {
        if w[k] != ERASED {
            return false;
        }
        k = k + 1;
    }
    true
}

} // verus!
