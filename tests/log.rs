use intermittent::log::LogError;
use intermittent::record::{CheckpointRecord, RegisterFile, ERASED};
use intermittent::restore::{boot, BootDecision};
use intermittent::store::{FlashOp, LogStore, Region};

fn record(stack_len: usize, seed: u32) -> CheckpointRecord {
    let stack_words = (0..stack_len as u32).map(|i| seed.wrapping_mul(31).wrapping_add(i)).collect();
    let mut words = [0u32; 16];
    for (i, w) in words.iter_mut().enumerate() {
        *w = seed.wrapping_add(i as u32 * 7);
    }
    CheckpointRecord { stack_words, registers: RegisterFile { words } }
}

fn scenario_store() -> LogStore {
    LogStore::erased(Region::new(0x0000, 0x1000, 0x800).expect("region"))
}

#[test]
fn scenario_three_appends_then_torn_fourth() {
    let mut store = scenario_store();
    let recs: Vec<CheckpointRecord> = (1..=4).map(|s| record(2, s)).collect();
    for r in &recs {
        assert_eq!(r.total_size(), 0x50);
    }
    let mut starts = vec![];
    for r in &recs[..3] {
        starts.push(store.append(r).expect("fits"));
    }
    assert_eq!(starts, vec![0, 20, 40]);
    let third = store.find_latest_complete().expect("a record");
    assert_eq!(third, 40);
    assert_eq!(store.region.word_address(third), 0xA0);
    assert_eq!(store.latest_record().expect("a record"), recs[2]);

    let plan = store.plan_append(&recs[3]).expect("fits");
    assert!(!plan.erase);
    assert_eq!(plan.start, 60);
    store.apply_prefix(&plan.ops, 0x10 / 4);
    assert_eq!(store.find_latest_complete(), Some(40));
    assert_eq!(store.latest_record().expect("a record"), recs[2]);
    assert_eq!(store.traverse(), vec![0, 20, 40]);
}

#[test]
fn empty_region_means_cold_start() {
    let store = scenario_store();
    assert_eq!(store.find_latest_complete(), None);
    assert!(store.latest_record().is_none());
    assert!(store.traverse().is_empty());
    assert!(matches!(boot(&store), BootDecision::ColdStart));
}

#[test]
fn every_append_becomes_the_latest() {
    let mut store = scenario_store();
    for (i, len) in [0usize, 5, 1, 30, 2, 9].iter().enumerate() {
        let r = record(*len, 100 + i as u32);
        let start = store.append(&r).expect("fits");
        assert_eq!(store.find_latest_complete(), Some(start));
        assert_eq!(store.latest_record().expect("a record"), r);
        assert_eq!(*store.traverse().last().expect("chained"), start);
    }
    assert_eq!(store.traverse().len(), 6);
}

#[test]
fn torn_append_at_every_cut_keeps_previous() {
    let mut base = scenario_store();
    let first = record(3, 9);
    base.append(&first).expect("fits");
    let next = record(4, 10);
    let plan = base.plan_append(&next).expect("fits");
    assert_eq!(plan.ops.len(), 4 + 18);
    for k in 0..plan.ops.len() {
        let mut torn = LogStore::from_words(base.region, base.words.clone()).expect("same size");
        torn.apply_prefix(&plan.ops, k);
        assert_eq!(torn.find_latest_complete(), Some(0), "cut after {} words", k);
        assert_eq!(torn.latest_record().expect("a record"), first);
    }
    let mut whole = LogStore::from_words(base.region, base.words.clone()).expect("same size");
    whole.apply_prefix(&plan.ops, plan.ops.len());
    assert_eq!(whole.latest_record().expect("a record"), next);
}

#[test]
fn torn_first_append_leaves_nothing() {
    let base = scenario_store();
    let r = record(2, 3);
    let plan = base.plan_append(&r).expect("fits");
    for k in 0..plan.ops.len() {
        let mut torn = LogStore::from_words(base.region, base.words.clone()).expect("same size");
        torn.apply_prefix(&plan.ops, k);
        assert_eq!(torn.find_latest_complete(), None);
    }
}

#[test]
fn header_is_written_last() {
    let store = scenario_store();
    let plan = store.plan_append(&record(2, 1)).expect("fits");
    assert_eq!(plan.ops.len(), 20);
    assert_eq!(plan.ops[0], FlashOp::ProgramWord { index: 1, value: 31 });
    assert_eq!(plan.ops[19], FlashOp::ProgramWord { index: 0, value: 0x50 });
}

#[test]
fn wraparound_erases_region_once_and_restarts_at_base() {
    let mut store = scenario_store();
    let mut appended = 0;
    loop {
        let r = record(2, 50 + appended);
        let plan = store.plan_append(&r).expect("fits");
        if plan.erase {
            break;
        }
        assert!(plan.ops.iter().all(|op| matches!(op, FlashOp::ProgramWord { .. })));
        store.append(&r).expect("fits");
        appended += 1;
    }
    // 1024 words, 20 per record: the 51st record would end at 1020 + 20 >= 1024.
    assert_eq!(appended, 51);
    let r = record(2, 999);
    let plan = store.plan_append(&r).expect("fits");
    assert_eq!(plan.start, 0);
    let erases: Vec<&FlashOp> =
        plan.ops.iter().filter(|op| matches!(op, FlashOp::ErasePage { .. })).collect();
    assert_eq!(erases, vec![&FlashOp::ErasePage { page: 0 }, &FlashOp::ErasePage { page: 1 }]);
    assert_eq!(plan.ops[0], FlashOp::ErasePage { page: 0 });
    assert_eq!(plan.ops[1], FlashOp::ErasePage { page: 1 });

    let start = store.append(&r).expect("fits");
    assert_eq!(start, 0);
    assert_eq!(store.traverse(), vec![0]);
    assert_eq!(store.latest_record().expect("a record"), r);
    assert!(store.words[20..].iter().all(|w| *w == ERASED));
}

#[test]
fn record_as_large_as_region_is_refused() {
    let mut store = LogStore::erased(Region::new(0x100, 0x200, 0x80).expect("region"));
    // 64 words: a record of 46 stack words takes 64 words, which cannot fit.
    let big = record(46, 1);
    assert_eq!(store.plan_append(&big).err(), Some(LogError::RecordTooLarge));
    assert_eq!(store.append(&big), Err(LogError::RecordTooLarge));
    assert!(store.words.iter().all(|w| *w == ERASED));
    let fits = record(45, 1);
    assert_eq!(store.append(&fits), Ok(0));
    assert_eq!(store.latest_record().expect("a record"), fits);
}

#[test]
fn append_after_torn_write_erases_before_reusing() {
    let mut store = scenario_store();
    store.append(&record(2, 1)).expect("fits");
    let plan = store.plan_append(&record(2, 2)).expect("fits");
    store.apply_prefix(&plan.ops, 5);
    let again = record(2, 3);
    let replan = store.plan_append(&again).expect("fits");
    assert!(replan.erase);
    store.append(&again).expect("fits");
    assert_eq!(store.traverse(), vec![0]);
    assert_eq!(store.latest_record().expect("a record"), again);
}

#[test]
fn record_followed_by_garbage_is_incomplete() {
    let mut store = scenario_store();
    store.append(&record(2, 1)).expect("fits");
    store.append(&record(2, 2)).expect("fits");
    store.apply(FlashOp::ProgramWord { index: 40, value: 0x1234_5677 });
    assert_eq!(store.traverse(), vec![0, 20]);
    assert_eq!(store.find_latest_complete(), Some(0));
    assert_eq!(store.latest_record().expect("a record"), record(2, 1));
}

#[test]
fn boot_resumes_latest_record() {
    let mut store = scenario_store();
    store.append(&record(2, 1)).expect("fits");
    let last = record(3, 2);
    store.append(&last).expect("fits");
    match boot(&store) {
        BootDecision::ColdStart => panic!("a record was written"),
        BootDecision::Resume(plan) => {
            assert_eq!(plan.registers, last.registers);
            assert_eq!(plan.stack_pointer, last.registers.words[13]);
            let mut back = last.stack_words.clone();
            back.reverse();
            assert_eq!(plan.live, back);
        }
    }
}

#[test]
fn region_geometry() {
    assert!(Region::new(0x0803_0000, 0x0808_0000, 0x800).is_some());
    assert!(Region::new(2, 0x1000, 0x800).is_none());
    assert!(Region::new(0x1000, 0x1000, 0x800).is_none());
    assert!(Region::new(0, 0x1000, 0).is_none());
    assert!(Region::new(0, 0x1000, 0x7FE).is_none());
    assert!(Region::new(0, 0x1000, 0x600).is_none());
    let r = Region::new(0x0803_0000, 0x0808_0000, 0x800).expect("region");
    assert_eq!(r.words(), 0x5_0000 / 4);
    assert_eq!(r.pages(), 160);
    assert_eq!(r.word_address(3), 0x0803_000C);
    assert_eq!(r.page_address(2), 0x0803_1000);
}

#[test]
fn programming_only_clears_bits_and_erase_resets_a_page() {
    let mut store = LogStore::erased(Region::new(0, 0x40, 0x20).expect("region"));
    store.apply(FlashOp::ProgramWord { index: 9, value: 0xF0F0_FFFF });
    store.apply(FlashOp::ProgramWord { index: 9, value: 0xFFFF_00FF });
    assert_eq!(store.words[9], 0xF0F0_00FF);
    store.apply(FlashOp::ProgramWord { index: 2, value: 0 });
    store.apply(FlashOp::ErasePage { page: 1 });
    assert_eq!(store.words[9], ERASED);
    assert_eq!(store.words[2], 0);
    store.apply(FlashOp::ErasePage { page: 7 });
    store.apply(FlashOp::ProgramWord { index: 99, value: 0 });
    assert_eq!(store.words[2], 0);
    store.apply(FlashOp::ErasePage { page: 0 });
    assert!(store.words.iter().all(|w| *w == ERASED));
}

#[test]
fn from_words_checks_length() {
    let region = Region::new(0, 0x40, 0x20).expect("region");
    assert!(LogStore::from_words(region, vec![ERASED; 16]).is_some());
    assert!(LogStore::from_words(region, vec![ERASED; 15]).is_none());
}

#[test]
fn power_loss_during_wraparound_erase_leaves_no_record() {
    let mut store = scenario_store();
    for s in 0..51 {
        store.append(&record(2, s)).expect("fits");
    }
    let r = record(2, 777);
    let plan = store.plan_append(&r).expect("fits");
    assert!(plan.erase);
    assert_eq!(plan.ops.len(), 2 + 20);
    for k in 0..plan.ops.len() {
        let mut torn = LogStore::from_words(store.region, store.words.clone()).expect("same size");
        torn.apply_prefix(&plan.ops, k);
        if k == 0 {
            assert_eq!(torn.find_latest_complete(), Some(1000));
        } else {
            assert_eq!(torn.find_latest_complete(), None, "cut after {} operations", k);
        }
    }
}
