use vstd::prelude::*;

use crate::record::ERASED;

verus! {

/// A contiguous span `[base, end)` of nonvolatile storage, erased in units of
/// `page_bytes` bytes.
#[derive(Clone, Copy, Debug, PartialEq, Eq)]
pub struct Region {
    pub base: u32,
    pub end: u32,
    pub page_bytes: u32,
}

impl Region {
    /// Word aligned, not empty, and made of whole erase units.
    pub open spec fn wf(&self) -> bool {
        &&& self.base % 4 == 0
        &&& self.base < self.end
        &&& self.page_bytes > 0
        &&& self.page_bytes % 4 == 0
        &&& (self.end - self.base) % (self.page_bytes as int) == 0
    }

    pub open spec fn word_count(&self) -> nat {
        ((self.end - self.base) / 4) as nat
    }

    pub open spec fn page_words(&self) -> nat {
        (self.page_bytes / 4) as nat
    }

    pub open spec fn page_count(&self) -> nat {
        ((self.end - self.base) / (self.page_bytes as int)) as nat
    }

    /// The pages tile the region exactly.
    pub proof fn lemma_geometry(&self)
        requires
            self.wf(),
        ensures
            self.page_count() * self.page_words() == self.word_count(),
            self.word_count() * 4 == self.end - self.base,
            self.page_count() >= 1,
            self.page_words() >= 1,
    {
        let d = self.end - self.base;
        let pb = self.page_bytes as int;
        let pc = d / pb;
        let pw = pb / 4;
        assert(d == pb * pc) by {
            vstd::arithmetic::div_mod::lemma_fundamental_div_mod(d, pb);
        }
        assert(pb == 4 * pw);
        assert(d == 4 * (pc * pw)) by (nonlinear_arith)
            requires
                d == pb * pc,
                pb == 4 * pw,
        ;
        assert(pc >= 1) by (nonlinear_arith)
            requires
                d == pb * pc,
                d > 0,
                pb > 0,
        ;
    }

    /// `None` unless the three values describe a well-formed region.
    pub fn new(base: u32, end: u32, page_bytes: u32) -> (r: Option<Region>)
        ensures
            r is Some <==> (Region { base, end, page_bytes }).wf(),
            r matches Some(g) ==> g == (Region { base, end, page_bytes }),
    {
        if base % 4 != 0 || base >= end || page_bytes == 0 || page_bytes % 4 != 0 || (end - base)
            % page_bytes != 0 {
            None
        } else {
            Some(Region { base, end, page_bytes })
        }
    }

    /// Number of words in the region.
    pub fn words(&self) -> (r: usize)
        requires
            self.wf(),
        ensures
            r == self.word_count(),
    {
        ((self.end - self.base) / 4) as usize
    }

    /// Number of erase units in the region.
    pub fn pages(&self) -> (r: usize)
        requires
            self.wf(),
        ensures
            r == self.page_count(),
    {
        ((self.end - self.base) / self.page_bytes) as usize
    }

    /// Byte address of the region's word `index`.
    pub fn word_address(&self, index: usize) -> (r: u32)
        requires
            self.wf(),
            index < self.word_count(),
        ensures
            r == self.base + 4 * index,
    {
        proof {
            self.lemma_geometry();
        }
        self.base + 4 * (index as u32)
    }

    /// Byte address of the first byte of the region's page `page`.
    pub fn page_address(&self, page: usize) -> (r: u32)
        requires
            self.wf(),
            page < self.page_count(),
        ensures
            r == self.base + page * self.page_bytes,
    {
        proof {
            self.lemma_geometry();
            let pc = self.page_count() as int;
            let pb = self.page_bytes as int;
            assert(page * pb < pc * pb) by (nonlinear_arith)
                requires
                    page < pc,
                    pb > 0,
            ;
            assert(pc * pb == self.end - self.base) by {
                vstd::arithmetic::div_mod::lemma_fundamental_div_mod(
                    self.end - self.base,
                    pb,
                );
            }
        }
        self.base + (page as u32) * self.page_bytes
    }
}

/// One operation on nonvolatile storage, in the region's own units.
#[derive(Clone, Copy, Debug, PartialEq, Eq)]
pub enum FlashOp {
    /// Reset every word of one erase unit to `ERASED`.
    ErasePage { page: usize },
    /// Clear the bits of one word that are clear in `value`.
    ProgramWord { index: usize, value: u32 },
}

/// `w` with the words in `[first, first + count)` erased.
pub open spec fn erase_range(w: Seq<u32>, first: int, count: int) -> Seq<u32> {
    Seq::new(w.len(), |k: int| if first <= k < first + count { ERASED } else { w[k] })
}

/// The image after one operation, on a region whose pages hold `pw` words.
/// Programming can only clear bits: the stored word becomes `old & value`.
pub open spec fn apply_op(w: Seq<u32>, pw: nat, op: FlashOp) -> Seq<u32> {
    match op {
        FlashOp::ErasePage { page } => erase_range(w, page * pw, pw as int),
        FlashOp::ProgramWord { index, value } => if index < w.len() {
            w.update(index as int, w[index as int] & value)
        } else {
            w
        },
    }
}

/// The image after a sequence of operations, in order.
pub open spec fn apply_ops(w: Seq<u32>, pw: nat, ops: Seq<FlashOp>) -> Seq<u32>
    decreases ops.len(),
{
    if ops.len() == 0 {
        w
    } else {
        apply_op(apply_ops(w, pw, ops.drop_last()), pw, ops.last())
    }
}

/// The words of a region, as a program sees them when it reads the storage.
pub struct LogStore {
    pub region: Region,
    pub words: Vec<u32>,
}

impl LogStore {
    pub open spec fn wf(&self) -> bool {
        &&& self.region.wf()
        &&& self.words.len() == self.region.word_count()
    }

    /// A region whose every word is erased.
    pub fn erased(region: Region) -> (r: LogStore)
        requires
            region.wf(),
        ensures
            r.wf(),
            r.region == region,
            forall|k: int| 0 <= k < r.words@.len() ==> r.words@[k] == ERASED,
    {
        let n = region.words();
        let mut words: Vec<u32> = Vec::new();
        let mut i: usize = 0;
        while i < n
            invariant
                i <= n,
                words@.len() == i,
                forall|k: int| 0 <= k < i ==> words@[k] == ERASED,
            decreases n - i,
        {
            words.push(ERASED);
            i = i + 1;
        }
        LogStore { region, words }
    }

    /// The store over words read from the region; `None` if their number does
    /// not match the region.
    pub fn from_words(region: Region, words: Vec<u32>) -> (r: Option<LogStore>)
        requires
            region.wf(),
        ensures
            r is Some <==> words@.len() == region.word_count(),
            r matches Some(s) ==> s.region == region && s.words@ == words@,
    {
        if words.len() == region.words() {
            Some(LogStore { region, words })
        } else {
            None
        }
    }

    /// Performs one operation on the image.
    pub fn apply(&mut self, op: FlashOp)
        requires
            old(self).wf(),
        ensures
            final(self).wf(),
            final(self).region == old(self).region,
            final(self).words@ == apply_op(old(self).words@, old(self).region.page_words(), op),
    {
        proof {
            self.region.lemma_geometry();
        }
        let ghost w0 = self.words@;
        match op {
            FlashOp::ErasePage { page } => {
                let pw = (self.region.page_bytes / 4) as usize;
                let pc = self.region.pages();
                if page < pc {
                    proof {
                        assert(page * pw + pw <= pc * pw) by (nonlinear_arith)
                            requires
                                page < pc,
                        ;
                    }
                    let first = page * pw;
                    let mut k: usize = first;
                    while k < first + pw
                        invariant
                            self.wf(),
                            self.region == old(self).region,
                            first <= k <= first + pw,
                            first + pw <= self.words@.len(),
                            self.words@.len() == w0.len(),
                            forall|j: int|
                                0 <= j < w0.len() ==> self.words@[j] == if first <= j < k {
                                    ERASED
                                } else {
                                    w0[j]
                                },
                        decreases first + pw - k,
                    {
                        self.words.set(k, ERASED);
                        k = k + 1;
                    }
                    assert(self.words@ =~= erase_range(w0, page * pw, pw as int));
                } else {
                    proof {
                        assert(page * pw >= pc * pw) by (nonlinear_arith)
                            requires
                                page >= pc,
                        ;
                    }
                    assert(self.words@ =~= erase_range(w0, page * pw, pw as int));
                }
            },
            FlashOp::ProgramWord { index, value } => {
                if index < self.words.len() {
                    let cur = self.words[index];
                    self.words.set(index, cur & value);
                }
            },
        }
    }

    /// Performs the first `count` operations of `ops`, in order: with `count`
    /// short of `ops.len()` this is the image that a power loss leaves.
    pub fn apply_prefix(&mut self, ops: &Vec<FlashOp>, count: usize)
        requires
            old(self).wf(),
            count <= ops.len(),
        ensures
            final(self).wf(),
            final(self).region == old(self).region,
            final(self).words@ == apply_ops(
                old(self).words@,
                old(self).region.page_words(),
                ops@.subrange(0, count as int),
            ),
    {
        let ghost w0 = self.words@;
        let ghost pw = self.region.page_words();
        let mut i: usize = 0;
        assert(ops@.subrange(0, 0) =~= Seq::<FlashOp>::empty());
        while i < count
            invariant
                self.wf(),
                self.region == old(self).region,
                pw == self.region.page_words(),
                i <= count <= ops.len(),
                self.words@ == apply_ops(w0, pw, ops@.subrange(0, i as int)),
            decreases count - i,
        {
            self.apply(ops[i]);
            i = i + 1;
            assert(ops@.subrange(0, i as int).drop_last() =~= ops@.subrange(0, i - 1));
        }
    }
}

} // verus!
