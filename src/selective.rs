use vstd::prelude::*;

verus! {

/// Most bytes of field data one batch can carry to the slot.
pub const SLOT_CAPACITY: usize = 48;

/// Why a batch of fields could not be framed or read back.
#[derive(Clone, Copy, Debug, PartialEq, Eq)]
pub enum SelectiveError {
    /// The fields' bytes together exceed the slot's capacity.
    TooLarge,
    /// Fewer bytes were read back than the fields need.
    ShortRead,
}

/// The two bytes that select a slot of the keyed store, high byte first.
pub open spec fn slot_key(slot: u16) -> Seq<u8> {
    seq![(slot / 256) as u8, (slot % 256) as u8]
}

/// The fields' bytes, one after another in the given order.
pub open spec fn concat(fields: Seq<Seq<u8>>) -> Seq<u8>
    decreases fields.len(),
{
    if fields.len() == 0 {
        Seq::empty()
    } else {
        concat(fields.drop_last()) + fields.last()
    }
}

/// The contents of each field.
pub open spec fn views(fields: Seq<Vec<u8>>) -> Seq<Seq<u8>> {
    fields.map_values(|f: Vec<u8>| f@)
}

/// The length of each field.
pub open spec fn lengths_of(fields: Seq<Seq<u8>>) -> Seq<usize> {
    fields.map_values(|f: Seq<u8>| f.len() as usize)
}

/// Where field `i` starts: the sum of the lengths before it.
pub open spec fn offset(lengths: Seq<usize>, i: int) -> int
    decreases i,
{
    if i <= 0 {
        0
    } else {
        offset(lengths, i - 1) + lengths[i - 1]
    }
}

/// `data` cut into consecutive pieces of the given lengths.
pub open spec fn split(data: Seq<u8>, lengths: Seq<usize>) -> Seq<Seq<u8>> {
    Seq::new(
        lengths.len(),
        |i: int| data.subrange(offset(lengths, i), offset(lengths, i) + lengths[i]),
    )
}

/// The slot key for `slot`.
pub fn key_bytes(slot: u16) -> (r: Vec<u8>)
    ensures
        r@ == slot_key(slot),
{
    let mut r: Vec<u8> = Vec::new();
    r.push((slot / 256) as u8);
    r.push((slot % 256) as u8);
    assert(r@ =~= slot_key(slot));
    r
}

/// The batch that checkpoints `fields` to `slot`: the slot key, then every
/// field's bytes in order. Too large when the fields exceed the slot's capacity.
pub fn checkpoint_fields(slot: u16, fields: &Vec<Vec<u8>>) -> (r: Result<Vec<u8>, SelectiveError>)
    ensures
        match r {
            Ok(frame) => {
                &&& concat(views(fields@)).len() <= SLOT_CAPACITY
                &&& frame@ == slot_key(slot) + concat(views(fields@))
            },
            Err(e) => e == SelectiveError::TooLarge && concat(views(fields@)).len()
                > SLOT_CAPACITY,
        },
{
    let mut frame = key_bytes(slot);
    let mut i: usize = 0;
    while i < fields.len()
        invariant
            i <= fields@.len(),
            frame@ == slot_key(slot) + concat(views(fields@.subrange(0, i as int))),
            frame@.len() <= SLOT_CAPACITY + 2,
        decreases fields@.len() - i,
    {
        let f = &fields[i];
        proof {
            assert(views(fields@.subrange(0, i + 1)).drop_last() =~= views(
                fields@.subrange(0, i as int),
            ));
            assert(views(fields@.subrange(0, i + 1)).last() == f@);
        }
        if f.len() > SLOT_CAPACITY + 2 - frame.len() {
            proof {
                lemma_concat_prefix_len(views(fields@), i + 1);
                assert(views(fields@).subrange(0, i + 1) =~= views(fields@.subrange(0, i + 1)));
            }
            return Err(SelectiveError::TooLarge);
        }
        let mut k: usize = 0;
        let ghost before = frame@;
        while k < f.len()
            invariant
                k <= f@.len(),
                frame@ == before + f@.subrange(0, k as int),
                before.len() + f@.len() <= SLOT_CAPACITY + 2,
            decreases f@.len() - k,
        {
            frame.push(f[k]);
            k = k + 1;
            assert(frame@ =~= before + f@.subrange(0, k as int));
        }
        i = i + 1;
        assert(f@.subrange(0, f@.len() as int) =~= f@);
        assert(frame@ =~= slot_key(slot) + concat(views(fields@.subrange(0, i as int))));
    }
    assert(fields@.subrange(0, fields@.len() as int) =~= fields@);
    Ok(frame)
}

/// The bytes of the first `i` fields are no more than those of all of them.
proof fn lemma_concat_prefix_len(fields: Seq<Seq<u8>>, i: int)
    requires
        0 <= i <= fields.len(),
    ensures
        concat(fields.subrange(0, i)).len() <= concat(fields).len(),
    decreases fields.len(),
{
    if i < fields.len() {
        assert(fields.drop_last().subrange(0, i) =~= fields.subrange(0, i));
        lemma_concat_prefix_len(fields.drop_last(), i);
    } else {
        assert(fields.subrange(0, i) =~= fields);
    }
}

/// Total number of bytes the fields of the given lengths take; `None` where it
/// does not fit in a `usize`.
pub fn read_length(lengths: &Vec<usize>) -> (r: Option<usize>)
    ensures
        match r {
            Some(n) => n == offset(lengths@, lengths@.len() as int),
            None => offset(lengths@, lengths@.len() as int) > usize::MAX,
        },
{
    let mut total: usize = 0;
    let mut i: usize = 0;
    while i < lengths.len()
        invariant
            i <= lengths@.len(),
            total == offset(lengths@, i as int),
        decreases lengths@.len() - i,
    {
        if lengths[i] > usize::MAX - total {
            proof {
                lemma_offset_monotone(lengths@, i + 1, lengths@.len() as int);
            }
            return None;
        }
        total = total + lengths[i];
        i = i + 1;
    }
    Some(total)
}

proof fn lemma_offset_monotone(lengths: Seq<usize>, i: int, j: int)
    requires
        0 <= i <= j <= lengths.len(),
    ensures
        offset(lengths, i) <= offset(lengths, j),
    decreases j - i,
{
    if i < j {
        lemma_offset_monotone(lengths, i, j - 1);
    }
}

/// Cuts the bytes read back from the slot into the fields of the given lengths,
/// in order. A short read, fewer bytes than the fields need, is an error; bytes
/// past the last field are not used.
pub fn restore_fields(lengths: &Vec<usize>, data: &Vec<u8>) -> (r: Result<
    Vec<Vec<u8>>,
    SelectiveError,
>)
    ensures
        match r {
            Ok(fields) => {
                &&& offset(lengths@, lengths@.len() as int) <= data@.len()
                &&& views(fields@) == split(data@, lengths@)
            },
            Err(e) => e == SelectiveError::ShortRead && offset(lengths@, lengths@.len() as int)
                > data@.len(),
        },
{
    let dlen = data.len();
    let mut out: Vec<Vec<u8>> = Vec::new();
    let mut pos: usize = 0;
    let mut i: usize = 0;
    while i < lengths.len()
        invariant
            i <= lengths@.len(),
            dlen == data@.len(),
            pos == offset(lengths@, i as int),
            pos <= data@.len(),
            out@.len() == i,
            forall|j: int| 0 <= j < i ==> (#[trigger] out@[j])@ == split(data@, lengths@)[j],
        decreases lengths@.len() - i,
    {
        let len = lengths[i];
        if len > data.len() - pos {
            proof {
                lemma_offset_monotone(lengths@, i + 1, lengths@.len() as int);
            }
            return Err(SelectiveError::ShortRead);
        }
        let mut piece: Vec<u8> = Vec::new();
        let mut k: usize = 0;
        while k < len
            invariant
                k <= len,
                dlen == data@.len(),
                pos + len <= data@.len(),
                piece@ == data@.subrange(pos as int, pos + k),
            decreases len - k,
        {
            piece.push(data[pos + k]);
            k = k + 1;
            assert(piece@ =~= data@.subrange(pos as int, pos + k));
        }
        out.push(piece);
        pos = pos + len;
        i = i + 1;
    }
    assert(views(out@) =~= split(data@, lengths@));
    Ok(out)
}

proof fn lemma_concat_split(fields: Seq<Seq<u8>>)
    requires
        forall|i: int| 0 <= i < fields.len() ==> (#[trigger] fields[i]).len() <= usize::MAX,
    ensures
        concat(fields).len() == offset(lengths_of(fields), fields.len() as int),
        split(concat(fields), lengths_of(fields)) == fields,
    decreases fields.len(),
{
    if fields.len() > 0 {
        let n = fields.len() - 1;
        let init = fields.drop_last();
        lemma_concat_split(init);
        lemma_offset_prefix(lengths_of(init), lengths_of(fields), n);
        let c = concat(fields);
        assert forall|i: int| 0 <= i < fields.len() implies split(c, lengths_of(fields))[i]
            == fields[i] by {
            if i < n {
                lemma_offset_prefix(lengths_of(init), lengths_of(fields), i);
                lemma_offset_monotone(lengths_of(init), i + 1, n);
                assert(split(concat(init), lengths_of(init))[i] == init[i]);
                assert(c == concat(init) + fields.last());
                let lo = offset(lengths_of(init), i);
                assert(lengths_of(init)[i] == lengths_of(fields)[i]);
                assert(offset(lengths_of(init), i + 1) == lo + lengths_of(init)[i]);
                assert(0 <= lo) by {
                    lemma_offset_monotone(lengths_of(init), 0, i);
                }
                assert(lo + lengths_of(init)[i] <= concat(init).len());
                assert(c.subrange(
                    offset(lengths_of(fields), i),
                    offset(lengths_of(fields), i) + lengths_of(fields)[i],
                ) =~= concat(init).subrange(
                    offset(lengths_of(init), i),
                    offset(lengths_of(init), i) + lengths_of(init)[i],
                ));
            } else {
                assert(c.subrange(
                    offset(lengths_of(fields), i),
                    offset(lengths_of(fields), i) + lengths_of(fields)[i],
                ) =~= fields[i]);
            }
        }
        assert(split(c, lengths_of(fields)) =~= fields);
    } else {
        assert(split(concat(fields), lengths_of(fields)) =~= fields);
    }
}

proof fn lemma_offset_prefix(a: Seq<usize>, b: Seq<usize>, i: int)
    requires
        0 <= i <= a.len(),
        i <= b.len(),
        forall|j: int| 0 <= j < i ==> a[j] == b[j],
    ensures
        offset(a, i) == offset(b, i),
    decreases i,
{
    if i > 0 {
        lemma_offset_prefix(a, b, i - 1);
    }
}

/// Restoring what a checkpoint wrote gives back every field as it was. The
/// store keeps a batch's bytes after the slot key at that slot, and a read at
/// the key returns them; the fields are read back with their own lengths.
pub proof fn lemma_fields_round_trip(slot: u16, fields: Seq<Seq<u8>>)
    requires
        concat(fields).len() <= SLOT_CAPACITY,
    ensures
        ({
            let frame = slot_key(slot) + concat(fields);
            let stored = frame.subrange(2, frame.len() as int);
            &&& frame.subrange(0, 2) == slot_key(slot)
            &&& offset(lengths_of(fields), fields.len() as int) <= stored.len()
            &&& split(stored, lengths_of(fields)) == fields
        }),
{
    assert forall|i: int| 0 <= i < fields.len() implies (#[trigger] fields[i]).len() <= usize::MAX by {
        lemma_field_within(fields, i);
    }
    lemma_concat_split(fields);
    let frame = slot_key(slot) + concat(fields);
    assert(frame.subrange(2, frame.len() as int) =~= concat(fields));
    assert(frame.subrange(0, 2) =~= slot_key(slot));
}

proof fn lemma_field_within(fields: Seq<Seq<u8>>, i: int)
    requires
        0 <= i < fields.len(),
    ensures
        fields[i].len() <= concat(fields).len(),
    decreases fields.len(),
{
    if i < fields.len() - 1 {
        lemma_field_within(fields.drop_last(), i);
    }
}

} // verus!
