use flash_store::mem_flash::MemFlash;
use flash_store::FlashStore;
use flash_store::FlashStoreError;

fn fresh_store() -> FlashStore<MemFlash<4>, 128> {
    FlashStore::<_, 128>::new(MemFlash::<4>::new())
}

#[test]
fn simple_round_trip() {
    let mut store = fresh_store();
    store.initialize_flash();
    store.write_file(1, &vec![0xAA]).unwrap();
    let mut buf = vec![0u8; 1024];
    let len = store.read_file(1, &mut buf).unwrap();
    assert_eq!(len, 1);
    assert_eq!(buf[0], 0xAA);
    assert!(matches!(store.read_file(2, &mut buf), Err(FlashStoreError::NotFound)));
}

#[test]
fn overwrite_returns_latest_payload() {
    let mut store = fresh_store();
    let first: Vec<u8> = (0..64).collect();
    let second: Vec<u8> = (100..164).collect();
    store.write_file(1, &first).unwrap();
    store.write_file(1, &second).unwrap();
    let mut buf = vec![0u8; 1024];
    let len = store.read_file(1, &mut buf).unwrap();
    assert_eq!(len, 64);
    assert_eq!(&buf[0..64], second.as_slice());
}

#[test]
fn congestion_forces_compaction() {
    let mut store = fresh_store();
    // each record takes 84 bytes; twelve of them fill 1008 of the 1024
    for n in 1..=10u8 {
        store.write_file(n, &vec![n; 80]).unwrap();
    }
    store.write_file(1, &vec![0x71u8; 80]).unwrap();
    store.write_file(2, &vec![0x72u8; 80]).unwrap();
    // the thirteenth record does not fit at the tail, but compaction can
    // drop the stale copies of files 1 and 2
    store.write_file(3, &vec![0x73u8; 80]).unwrap();
    let mut buf = vec![0u8; 1024];
    let expect = |n: u8| match n {
        1 => 0x71u8,
        2 => 0x72,
        3 => 0x73,
        other => other,
    };
    for n in 1..=10u8 {
        let len = store.read_file(n, &mut buf).unwrap();
        assert_eq!(len, 80);
        assert!(buf[0..80].iter().all(|b| *b == expect(n)));
    }
}

#[test]
fn corruption_is_detected_everywhere() {
    let mut flash = MemFlash::<4>::new();
    // a header claiming file 42 with length 1021: together with the header
    // it overruns the 1024-byte device
    flash.poke(0, 42);
    flash.poke(1, 253);
    flash.poke(2, 3);
    flash.poke(3, 0);
    let mut store = FlashStore::<_, 128>::new(flash);
    let mut buf = vec![0u8; 1024];
    assert!(matches!(store.read_file(42, &mut buf), Err(FlashStoreError::CorruptData)));
    assert!(matches!(store.read_file(7, &mut buf), Err(FlashStoreError::CorruptData)));
    assert!(matches!(store.write_file(5, &vec![1]), Err(FlashStoreError::CorruptData)));
}

#[test]
fn exact_fit_overwrite() {
    let mut flash = MemFlash::<4>::new();
    // a single record of file 42 with length 1020 consumes the device
    flash.poke(0, 42);
    flash.poke(1, 0xFC);
    flash.poke(2, 0x03);
    flash.poke(3, 0x00);
    let mut store = FlashStore::<_, 128>::new(flash);
    let mut buf = vec![0u8; 1024];
    assert_eq!(store.read_file(42, &mut buf).unwrap(), 1020);
    assert!(matches!(store.write_file(11, &vec![0x5A]), Err(FlashStoreError::NoSpaceLeft)));
    // overwriting file 42 itself may drop its old copy during compaction
    store.write_file(42, &vec![0x5A]).unwrap();
    assert_eq!(store.read_file(42, &mut buf).unwrap(), 1);
    assert_eq!(buf[0], 0x5A);
    store.write_file(11, &vec![0x66]).unwrap();
    assert_eq!(store.read_file(11, &mut buf).unwrap(), 1);
    assert_eq!(buf[0], 0x66);
}

#[test]
fn word_size_16_single_write() {
    let mut store = FlashStore::<MemFlash<16>, 128>::new(MemFlash::<16>::new());
    store.write_file(1, &vec![0xAB]).unwrap();
    // header and payload fit in one word: exactly one write was issued
    assert_eq!(store.flash.write_tally(), 1);
    let mut buf = vec![0u8; 1024];
    assert_eq!(store.read_file(1, &mut buf).unwrap(), 1);
    assert_eq!(buf[0], 0xAB);
}

#[test]
fn buffer_too_small_is_reported() {
    let mut store = fresh_store();
    store.write_file(3, &vec![9, 9, 9, 9]).unwrap();
    let mut small = vec![0u8; 2];
    assert!(matches!(store.read_file(3, &mut small), Err(FlashStoreError::BufferTooSmall)));
    assert_eq!(small, vec![0u8, 0u8]);
}

#[test]
fn used_space_counts_slot_rounded_records() {
    let mut store = fresh_store();
    assert_eq!(store.used_space().unwrap(), 0);
    store.write_file(1, &vec![0xAA]).unwrap();
    // 4 header bytes plus 1 payload byte, rounded up to the 4-byte slot
    assert_eq!(store.used_space().unwrap(), 8);
    store.write_file(2, &vec![1, 2, 3, 4, 5]).unwrap();
    assert_eq!(store.used_space().unwrap(), 8 + 12);
    // overwriting counts only the latest version
    store.write_file(1, &vec![7; 10]).unwrap();
    assert_eq!(store.used_space().unwrap(), 16 + 12);
}

#[test]
fn initialize_empties_the_store() {
    let mut store = fresh_store();
    store.write_file(1, &vec![1, 2, 3]).unwrap();
    store.write_file(200, &vec![4]).unwrap();
    store.initialize_flash();
    let mut buf = vec![0u8; 1024];
    for n in 0..=254u8 {
        assert!(matches!(store.read_file(n, &mut buf), Err(FlashStoreError::NotFound)));
    }
    assert_eq!(store.used_space().unwrap(), 0);
}

#[test]
fn compaction_erases_every_page_once() {
    let mut flash = MemFlash::<4>::new();
    flash.poke(0, 42);
    flash.poke(1, 0xFC);
    flash.poke(2, 0x03);
    flash.poke(3, 0x00);
    let mut store = FlashStore::<_, 128>::new(flash);
    // this overwrite cannot use the tail, so it compacts the whole device
    store.write_file(42, &vec![0x5A]).unwrap();
    let first = store.flash.erase_tally(0);
    assert_eq!(first, 1);
    for p in 1..8 {
        assert_eq!(store.flash.erase_tally(p), first);
    }
}

#[test]
fn wear_stays_uniform_under_repeated_compaction() {
    let mut store = fresh_store();
    // every write of 900 bytes displaces the previous one only after a
    // whole-device compaction
    for round in 0..5u8 {
        let data = vec![round; 900];
        store.write_file(9, &data).unwrap();
    }
    let first = store.flash.erase_tally(0);
    for p in 1..8 {
        assert_eq!(store.flash.erase_tally(p), first);
    }
    let mut buf = vec![0u8; 1024];
    assert_eq!(store.read_file(9, &mut buf).unwrap(), 900);
    assert!(buf[0..900].iter().all(|b| *b == 4));
}
