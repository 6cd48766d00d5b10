use pakserve::PakErrorKind;
use pakserve::pipeline::{ChunkSource, assemble_chunks, backoff_ms, fetch_with_retry};

struct FlakySource {
    failures_left: u32,
    calls: u32,
}

impl ChunkSource for FlakySource {
    fn fetch(&mut self, id: &Vec<u8>) -> Option<Vec<u8>> {
        self.calls += 1;
        if self.failures_left > 0 {
            self.failures_left -= 1;
            None
        } else {
            let mut out = b"data:".to_vec();
            out.extend_from_slice(id);
            Some(out)
        }
    }

    fn pause(&mut self, _ms: u64) {}
}

#[test]
fn assemble_in_order() {
    let parts = vec![(0usize, b"AB".to_vec()), (1, b"CD".to_vec()), (2, b"EF".to_vec())];
    assert_eq!(assemble_chunks(3, &parts).unwrap(), b"ABCDEF".to_vec());
}

#[test]
fn assemble_reversed_completion_order() {
    let parts = vec![(2usize, b"EF".to_vec()), (1, b"CD".to_vec()), (0, b"AB".to_vec())];
    assert_eq!(assemble_chunks(3, &parts).unwrap(), b"ABCDEF".to_vec());
}

#[test]
fn assemble_shuffled_completion_orders_all_agree() {
    let orders: [[usize; 3]; 4] = [[1, 0, 2], [2, 0, 1], [0, 2, 1], [1, 2, 0]];
    let chunks: [&[u8]; 3] = [b"AB", b"CD", b"EF"];
    for order in orders {
        let parts: Vec<(usize, Vec<u8>)> =
            order.iter().map(|&i| (i, chunks[i].to_vec())).collect();
        assert_eq!(assemble_chunks(3, &parts).unwrap(), b"ABCDEF".to_vec());
    }
}

#[test]
fn assemble_missing_position_fails() {
    let parts = vec![(0usize, b"AB".to_vec()), (2, b"EF".to_vec())];
    assert!(assemble_chunks(3, &parts).is_none());
}

#[test]
fn assemble_duplicate_position_fails() {
    let parts = vec![(0usize, b"AB".to_vec()), (0, b"CD".to_vec()), (1, b"EF".to_vec())];
    assert!(assemble_chunks(3, &parts).is_none());
}

#[test]
fn assemble_out_of_range_position_fails() {
    let parts = vec![(0usize, b"AB".to_vec()), (3, b"CD".to_vec())];
    assert!(assemble_chunks(2, &parts).is_none());
}

#[test]
fn assemble_empty_package() {
    let parts: Vec<(usize, Vec<u8>)> = Vec::new();
    assert_eq!(assemble_chunks(0, &parts).unwrap(), Vec::<u8>::new());
}

#[test]
fn fetch_with_retry_recovers_from_transient_failures() {
    let mut src = FlakySource { failures_left: 2, calls: 0 };
    let got = fetch_with_retry(&mut src, &b"a".to_vec(), 4).unwrap();
    assert_eq!(got, b"data:a".to_vec());
    assert_eq!(src.calls, 3);
}

#[test]
fn fetch_with_retry_exhausts_budget() {
    let mut src = FlakySource { failures_left: 10, calls: 0 };
    let err = fetch_with_retry(&mut src, &b"a".to_vec(), 4).err().unwrap();
    assert_eq!(err.kind, PakErrorKind::FetchFailed);
    assert_eq!(err.resource, b"a".to_vec());
    assert_eq!(src.calls, 4);
}

#[test]
fn fetch_with_retry_zero_budget_fails_without_calling() {
    let mut src = FlakySource { failures_left: 0, calls: 0 };
    assert_eq!(
        fetch_with_retry(&mut src, &b"a".to_vec(), 0).err().unwrap().kind,
        PakErrorKind::FetchFailed
    );
    assert_eq!(src.calls, 0);
}

#[test]
fn backoff_doubles_and_caps() {
    assert_eq!(backoff_ms(0), 100);
    assert_eq!(backoff_ms(1), 200);
    assert_eq!(backoff_ms(5), 3200);
    assert_eq!(backoff_ms(6), 6400);
    assert_eq!(backoff_ms(60), 6400);
}
