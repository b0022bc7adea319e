use vstd::prelude::*;

use crate::record::{frames_record, span_words, ERASED, MIN_RECORD_BYTES, END_MARKER};

verus! {

/// The word at `i` heads a framed record that leaves at least one word of the
/// region after it (for the next header or the erased tail).
pub open spec fn valid_header(w: Seq<u32>, i: int) -> bool {
    frames_record(w, i) && i + span_words(w, i) < w.len()
}

/// Start of the record that follows the one at `i`.
pub open spec fn next_of(w: Seq<u32>, i: int) -> int {
    i + span_words(w, i)
}

/// Record starts reached from `i` by following size headers, until a word that
/// heads no valid record.
pub open spec fn chain_from(w: Seq<u32>, i: int) -> Seq<int>
    decreases w.len() - i,
{
    if valid_header(w, i) {
        seq![i] + chain_from(w, next_of(w, i))
    } else {
        seq![]
    }
}

/// Where the chain of records reached from `i` ends: the first word that heads
/// no valid record.
pub open spec fn head_from(w: Seq<u32>, i: int) -> int
    decreases w.len() - i,
{
    if valid_header(w, i) {
        head_from(w, next_of(w, i))
    } else {
        i
    }
}

/// The records of a region image, from its first word.
pub open spec fn chain(w: Seq<u32>) -> Seq<int> {
    chain_from(w, 0)
}

/// The log head of a region image: where the next record goes.
pub open spec fn head(w: Seq<u32>) -> int {
    head_from(w, 0)
}

/// The record at `i` is complete: the word after it is erased or heads another
/// valid record.
pub open spec fn complete(w: Seq<u32>, i: int) -> bool {
    &&& valid_header(w, i)
    &&& (w[next_of(w, i)] == ERASED || valid_header(w, next_of(w, i)))
}

/// The last complete record among `c`.
pub open spec fn last_complete(w: Seq<u32>, c: Seq<int>) -> Option<int>
    decreases c.len(),
{
    if c.len() == 0 {
        None
    } else if complete(w, c.last()) {
        Some(c.last())
    } else {
        last_complete(w, c.drop_last())
    }
}

/// The latest complete record of a region image.
pub open spec fn latest_complete(w: Seq<u32>) -> Option<int> {
    last_complete(w, chain(w))
}

/// Everything from the log head to the end of the region is erased.
pub open spec fn clean(w: Seq<u32>) -> bool {
    forall|k: int| head(w) <= k < w.len() ==> w[k] == ERASED
}

/// Whether the word at `i` heads a valid record.
pub fn header_at(w: &Vec<u32>, i: usize) -> (r: bool)
    ensures
        r == valid_header(w@, i as int),
{
    if i >= w.len() {
        return false;
    }
    let size = w[i];
    if size % 4 != 0 || size < MIN_RECORD_BYTES || (size / 4) as usize >= w.len() - i {
        return false;
    }
    w[i + (size / 4) as usize - 17] == END_MARKER
}

/// Number of words of the record whose header is at `i`.
pub fn span_at(w: &Vec<u32>, i: usize) -> (r: usize)
    requires
        i < w.len(),
    ensures
        r as int == span_words(w@, i as int),
        w@.len() <= usize::MAX,
{
    // The vector's length bounds its length as a sequence.
    let _len = w.len();
    (w[i] / 4) as usize
}

/// Whether the record at `i` is complete.
pub fn complete_at(w: &Vec<u32>, i: usize) -> (r: bool)
    ensures
        r == complete(w@, i as int),
{
    if !header_at(w, i) {
        return false;
    }
    let next = i + span_at(w, i);
    w[next] == ERASED || header_at(w, next)
}

pub(crate) proof fn lemma_head_bounds(w: Seq<u32>, i: int)
    requires
        0 <= i,
    ensures
        i <= head_from(w, i),
        i < w.len() ==> head_from(w, i) < w.len(),
        !valid_header(w, head_from(w, i)),
        chain_from(w, i).len() == 0 <==> head_from(w, i) == i,
        forall|j: int|
            0 <= j < chain_from(w, i).len() ==> {
                &&& valid_header(w, #[trigger] chain_from(w, i)[j])
                &&& i <= chain_from(w, i)[j]
                &&& next_of(w, chain_from(w, i)[j]) <= head_from(w, i)
                &&& next_of(w, chain_from(w, i)[j]) == if j + 1 < chain_from(w, i).len() {
                    chain_from(w, i)[j + 1]
                } else {
                    head_from(w, i)
                }
            },
    decreases w.len() - i,
{
    if valid_header(w, i) {
        let nx = next_of(w, i);
        lemma_head_bounds(w, nx);
        let c = chain_from(w, i);
        let t = chain_from(w, nx);
        assert(c == seq![i] + t);
        assert forall|j: int| 0 <= j < c.len() implies {
            &&& valid_header(w, #[trigger] c[j])
            &&& i <= c[j]
            &&& next_of(w, c[j]) <= head_from(w, i)
            &&& next_of(w, c[j]) == if j + 1 < c.len() {
                c[j + 1]
            } else {
                head_from(w, i)
            }
        } by {
            if j > 0 {
                assert(c[j] == t[j - 1]);
            }
        }
    }
}

/// Following the chain one more record adds the record's completeness to what
/// was found so far.
proof fn lemma_last_complete_push(w: Seq<u32>, c: Seq<int>, x: int)
    ensures
        last_complete(w, c.push(x)) == if complete(w, x) {
            Some(x)
        } else {
            last_complete(w, c)
        },
{
    assert(c.push(x).drop_last() =~= c);
}

/// The record starts of `w`, in the order the size headers chain them.
pub fn traverse(w: &Vec<u32>) -> (r: Vec<usize>)
    ensures
        r@.len() == chain(w@).len(),
        forall|j: int| 0 <= j < r@.len() ==> r@[j] as int == #[trigger] chain(w@)[j],
{
    let mut out: Vec<usize> = Vec::new();
    let mut i: usize = 0;
    let ghost mut seen: Seq<int> = seq![];
    while header_at(w, i)
        invariant
            chain(w@) == seen + chain_from(w@, i as int),
            out@.len() == seen.len(),
            forall|j: int| 0 <= j < out@.len() ==> out@[j] as int == seen[j],
        decreases w@.len() - i,
    {
        let next = i + span_at(w, i);
        proof {
            assert(chain_from(w@, i as int) == seq![i as int] + chain_from(w@, next as int));
            assert(seen + chain_from(w@, i as int) =~= seen.push(i as int) + chain_from(
                w@,
                next as int,
            ));
            seen = seen.push(i as int);
        }
        out.push(i);
        i = next;
    }
    assert(seen + chain_from(w@, i as int) =~= seen);
    out
}

/// The log head: the first word, following the chain from the start, that heads
/// no valid record.
pub fn find_head(w: &Vec<u32>) -> (r: usize)
    ensures
        r as int == head(w@),
{
    let mut i: usize = 0;
    while header_at(w, i)
        invariant
            head(w@) == head_from(w@, i as int),
        decreases w@.len() - i,
    {
        i = i + span_at(w, i);
    }
    i
}

/// The start of the latest complete record, or `None` where the log is empty or
/// no record in it is complete.
pub fn find_latest_complete(w: &Vec<u32>) -> (r: Option<usize>)
    ensures
        r matches Some(i) ==> latest_complete(w@) == Some(i as int),
        r is None ==> latest_complete(w@) is None,
{
    let mut best: Option<usize> = None;
    let mut i: usize = 0;
    let ghost mut seen: Seq<int> = seq![];
    while header_at(w, i)
        invariant
            chain(w@) == seen + chain_from(w@, i as int),
            best matches Some(b) ==> last_complete(w@, seen) == Some(b as int),
            best is None ==> last_complete(w@, seen) is None,
        decreases w@.len() - i,
    {
        let next = i + span_at(w, i);
        if complete_at(w, i) {
            best = Some(i);
        }
        proof {
            lemma_last_complete_push(w@, seen, i as int);
            assert(chain_from(w@, i as int) == seq![i as int] + chain_from(w@, next as int));
            assert(seen + chain_from(w@, i as int) =~= seen.push(i as int) + chain_from(
                w@,
                next as int,
            ));
            seen = seen.push(i as int);
        }
        i = next;
    }
    assert(seen + chain_from(w@, i as int) =~= seen);
    best
}

} // verus!
