use flash_store::mem_flash::MemFlash;
use flash_store::rand_iter;
use flash_store::FlashStore;
use flash_store::FlashStoreError;

fn stress_test<const MAX_FILE_NUMBER: u64, const MAX_FILE_SIZE: usize>() {
    let flash: MemFlash<4> = MemFlash::new();
    let mut files: Vec<Option<Vec<u8>>> = std::iter::repeat(None).take(255).collect::<Vec<_>>();
    let mut store = FlashStore::<_, 128>::new(flash);
    let mut buf = vec![0u8; 1024];

    let mut used: usize = 0;
    let granularity = 4;

    let mut it = rand_iter(42);
    for _ in 0..3000 {
        let i = it.next().unwrap();

        // check
        for k in 0..files.len() {
            match store.read_file(k as u8, &mut buf) {
                Ok(len) => {
                    assert!(files[k].as_ref().unwrap().as_slice() == &buf[0..len]);
                }
                Err(FlashStoreError::NotFound) => {
                    assert!(files[k].is_none());
                }
                Err(_) => {
                    panic!();
                }
            }
        }

        // modify
        let file_number = i % MAX_FILE_NUMBER;
        let mut rng = rand_iter((i & 0xFFFFFFFF) as u32);
        let len = rng.next().unwrap() as usize % MAX_FILE_SIZE;
        let mut data: Vec<u8> = Vec::new();
        for _ in 0..len {
            data.push((rng.next().unwrap() & 0xFF) as u8);
        }
        let entry_size = (len + 4 + granularity - 1) / granularity * granularity;

        let result = store.write_file(file_number as u8, &data);

        if let Some(error) = result.err() {
            match error {
                FlashStoreError::NoSpaceLeft => {}
                _ => {
                    panic!()
                }
            }
        }

        let prev_entry_size = if let Some(ref f) = files[file_number as usize] {
            (f.len() + 4 + granularity - 1) / granularity * granularity
        } else {
            0
        };

        if used - prev_entry_size + entry_size > 1024 {
            assert!(result.is_err());
        } else {
            assert!(result.is_ok());
            files[file_number as usize] = Some(data);
            used = used - prev_entry_size + entry_size;
        }
    }

    let val = store.flash.erase_tally(0);
    for p in 1..8 {
        assert!(store.flash.erase_tally(p) == val);
    }
    assert!(val >= 4);
}

#[test]
fn stress_test_congestion() {
    stress_test::<255, 300>();
}

#[test]
fn stress_test_lots_of_small_files() {
    stress_test::<100, 4>();
}

#[test]
fn stress_test_lots_of_overwritten_files() {
    stress_test::<5, 100>();
}

#[test]
fn stress_test_multipage() {
    stress_test::<3, 500>();
}
