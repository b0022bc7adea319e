use intermittent::context::{capture, live_span, resume_plan, CaptureError};
use intermittent::record::{deserialize, RegisterFile, SP_SLOT};

fn regs_with_sp(sp: u32) -> RegisterFile {
    let mut words = [0u32; 16];
    for (i, w) in words.iter_mut().enumerate() {
        *w = 10 * (i as u32 + 1);
    }
    words[SP_SLOT] = sp;
    RegisterFile { words }
}

#[test]
fn live_span_counts_words() {
    assert_eq!(live_span(0x2000_9F00, 0x2000_9FFC), Ok(63));
    assert_eq!(live_span(0x2000_9FFC, 0x2000_9FFC), Ok(0));
    assert_eq!(live_span(0x2000_9F02, 0x2000_9FFC), Err(CaptureError::Misaligned));
    assert_eq!(live_span(0x2000_9F00, 0x2000_9FFE), Err(CaptureError::Misaligned));
    assert_eq!(live_span(0x2000_A000, 0x2000_9FFC), Err(CaptureError::AboveTop));
}

#[test]
fn capture_copies_span_highest_address_first() {
    let regs = regs_with_sp(0x2000_0FF0);
    let rec = capture(&regs, 0x2000_1000, &vec![1, 2, 3, 4]).expect("captured");
    assert_eq!(rec.stack_words, vec![4, 3, 2, 1]);
    assert_eq!(rec.registers, regs);
    assert_eq!(capture(&regs, 0x2000_1000, &vec![1, 2, 3]), Err(CaptureError::SpanMismatch));
    assert_eq!(capture(&regs, 0x2000_0FE0, &vec![]), Err(CaptureError::AboveTop));
    assert_eq!(capture(&regs_with_sp(0x2000_0FF1), 0x2000_1000, &vec![]), Err(CaptureError::Misaligned));
}

#[test]
fn capture_twice_is_identical() {
    let regs = regs_with_sp(0x100);
    let live = vec![9, 8, 7];
    assert_eq!(capture(&regs, 0x10C, &live), capture(&regs, 0x10C, &live));
}

#[test]
fn capture_serialize_resume_round_trip() {
    let regs = regs_with_sp(0x2000_0F00);
    let live: Vec<u32> = (0..64).map(|i| 0xDEAD_0000 + i).collect();
    let rec = capture(&regs, 0x2000_1000, &live).expect("captured");
    let words = rec.serialize();
    let back = deserialize(&words, 0).expect("framed");
    let plan = resume_plan(&back);
    assert_eq!(plan.live, live);
    assert_eq!(plan.registers, regs);
    assert_eq!(plan.stack_pointer, 0x2000_0F00);
    assert_eq!(plan.registers.program_counter(), regs.words[15]);
    assert_eq!(plan.word_address(0), Some(0x2000_0F00));
    assert_eq!(plan.word_address(63), Some(0x2000_0FFC));
}

#[test]
fn resume_address_past_top_of_memory_is_none() {
    let regs = regs_with_sp(0xFFFF_FFF8);
    let rec = capture(&regs, 0xFFFF_FFFC, &vec![5]).expect("captured");
    let plan = resume_plan(&rec);
    assert_eq!(plan.word_address(0), Some(0xFFFF_FFF8));
    assert_eq!(plan.word_address(1), Some(0xFFFF_FFFC));
    assert_eq!(plan.word_address(2), None);
    assert_eq!(plan.word_address(usize::MAX), None);
}
