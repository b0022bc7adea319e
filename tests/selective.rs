use intermittent::selective::{
    checkpoint_fields, key_bytes, read_length, restore_fields, SelectiveError, SLOT_CAPACITY,
};

#[test]
fn key_is_high_byte_first() {
    assert_eq!(key_bytes(0x0100), vec![0x01, 0x00]);
    assert_eq!(key_bytes(0xABCD), vec![0xAB, 0xCD]);
}

#[test]
fn frame_is_key_then_fields_in_order() {
    let fields = vec![vec![3u8], vec![2u8], vec![7, 8, 9]];
    let frame = checkpoint_fields(0x0100, &fields).expect("fits");
    assert_eq!(frame, vec![0x01, 0x00, 3, 2, 7, 8, 9]);
    assert_eq!(checkpoint_fields(0x0100, &vec![]).expect("fits"), vec![0x01, 0x00]);
}

#[test]
fn frame_over_capacity_is_refused() {
    let full = vec![vec![1u8; 40], vec![2u8; 8]];
    assert_eq!(checkpoint_fields(7, &full).expect("fits").len(), 2 + SLOT_CAPACITY);
    let over = vec![vec![1u8; 40], vec![2u8; 9]];
    assert_eq!(checkpoint_fields(7, &over), Err(SelectiveError::TooLarge));
    let one_big = vec![vec![0u8; 49]];
    assert_eq!(checkpoint_fields(7, &one_big), Err(SelectiveError::TooLarge));
}

#[test]
fn restore_cuts_fields_in_order() {
    let data = vec![1u8, 2, 3, 4, 5, 6];
    let fields = restore_fields(&vec![1, 3, 0, 2], &data).expect("enough");
    assert_eq!(fields, vec![vec![1], vec![2, 3, 4], vec![], vec![5, 6]]);
    assert_eq!(restore_fields(&vec![2, 5], &data), Err(SelectiveError::ShortRead));
    assert_eq!(restore_fields(&vec![1], &data).expect("enough"), vec![vec![1]]);
}

#[test]
fn read_length_sums_or_overflows() {
    assert_eq!(read_length(&vec![1, 1, 4]), Some(6));
    assert_eq!(read_length(&vec![]), Some(0));
    assert_eq!(read_length(&vec![usize::MAX, 1]), None);
}

#[test]
fn restore_of_checkpoint_gives_fields_back() {
    let fields = vec![vec![3u8], vec![2u8], vec![0xFF, 0, 0x10, 0x20], vec![]];
    let frame = checkpoint_fields(0x0100, &fields).expect("fits");
    let lengths: Vec<usize> = fields.iter().map(|f| f.len()).collect();
    let n = read_length(&lengths).expect("small");
    assert_eq!(&frame[..2], &key_bytes(0x0100)[..]);
    let stored = frame[2..2 + n].to_vec();
    assert_eq!(restore_fields(&lengths, &stored).expect("enough"), fields);
}
