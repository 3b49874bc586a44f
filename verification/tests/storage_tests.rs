use planty::servo::ServoState;
use planty::storage::{FlashOp, ValveStorage, BITS_PER_SECTOR};

fn erased() -> Vec<u8> {
    vec![0xFF; 4096]
}

fn apply(sector: &mut Vec<u8>, ops: &[FlashOp]) {
    for op in ops {
        match op {
            FlashOp::Erase => *sector = erased(),
            FlashOp::Write { offset, data } => {
                let o = *offset as usize;
                for k in 0..4 {
                    // NOR flash can only clear bits without an erase.
                    assert_eq!(data[k] & sector[o + k], data[k]);
                }
                sector[o..o + 4].copy_from_slice(data);
            }
        }
    }
}

#[test]
fn erased_sector_is_closed() {
    let s = ValveStorage::new(erased());
    assert_eq!(s.transition_count(), 0);
    assert_eq!(s.load(), ServoState::Close);
}

#[test]
fn count_is_first_set_bit() {
    let mut sector = erased();
    sector[0] = 0x00;
    sector[1] = 0b1111_1000;
    assert_eq!(ValveStorage::new(sector.clone()).transition_count(), 11);
    assert_eq!(ValveStorage::new(sector).load(), ServoState::Open);
    assert_eq!(ValveStorage::new(vec![0u8; 4096]).transition_count(), BITS_PER_SECTOR);
}

#[test]
fn save_then_load() {
    let mut flash = erased();
    let mut s = ValveStorage::new(flash.clone());
    let ops = s.save(ServoState::Close);
    assert!(ops.is_empty());
    let ops = s.save(ServoState::Open);
    assert!(matches!(ops[0], FlashOp::Write { offset: 0, data: [0xFE, 0xFF, 0xFF, 0xFF] }));
    apply(&mut flash, &ops);
    assert_eq!(s.load(), ServoState::Open);
    assert_eq!(ValveStorage::new(flash.clone()).load(), ServoState::Open);
    let ops = s.save(ServoState::Close);
    apply(&mut flash, &ops);
    assert_eq!(s.transition_count(), 2);
    assert_eq!(ValveStorage::new(flash.clone()).load(), ServoState::Close);
    for _ in 0..40 {
        let ops = s.save(ServoState::Open);
        apply(&mut flash, &ops);
        let ops = s.save(ServoState::Close);
        apply(&mut flash, &ops);
    }
    assert_eq!(s.transition_count(), 82);
    let ops = s.save(ServoState::Open);
    // Bit 82 lives in word 2 (bytes 8..12), byte 10, bit 2; bits 80 and 81 are already clear.
    assert!(matches!(ops[0], FlashOp::Write { offset: 8, data: [0x00, 0x00, 0xF8, 0xFF] }));
    apply(&mut flash, &ops);
    assert_eq!(ValveStorage::new(flash).load(), ServoState::Open);
}

#[test]
fn full_log_is_erased() {
    let mut sector = vec![0u8; 4096];
    sector[4095] = 0x80; // only bit 32767 set
    let mut s = ValveStorage::new(sector.clone());
    assert_eq!(s.transition_count(), 32767);
    assert_eq!(s.load(), ServoState::Open);
    let ops = s.save(ServoState::Close);
    assert!(matches!(ops[..], [FlashOp::Erase]));
    assert_eq!(s.load(), ServoState::Close);
    let mut s = ValveStorage::new(vec![0u8; 4096]);
    assert_eq!(s.load(), ServoState::Close);
    let ops = s.save(ServoState::Open);
    assert!(matches!(ops[..], [FlashOp::Erase, FlashOp::Write { offset: 0, data: [0xFE, 0xFF, 0xFF, 0xFF] }]));
    assert_eq!(s.transition_count(), 1);
}

#[test]
fn sector_offset_is_last_sector() {
    assert_eq!(ValveStorage::sector_offset(4 * 1024 * 1024), 4 * 1024 * 1024 - 4096);
}
