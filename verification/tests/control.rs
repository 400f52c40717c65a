use potato::buckets::BucketCounts;
use potato::control::{control_for_err, stop_requested, Control, MapDefault, ERROR_ROUNDS};
use potato::text::decimal;

#[test]
fn buckets_are_used_in_turn() {
    let mut store = [5usize, 6, 7];
    let mut counts = BucketCounts::with_buckets(&mut store);
    assert_eq!(counts.sum(), 18);
    counts.next_bucket();
    assert_eq!(counts.add_one(), 1);
    assert_eq!(counts.add_one(), 2);
    counts.next_bucket();
    counts.next_bucket();
    assert_eq!(counts.current, 0);
    assert_eq!(counts.sum(), 2);
    assert_eq!(store, [0, 2, 0]);
}

#[test]
fn a_single_bucket_counts_one_round() {
    let mut store = [0usize];
    let mut counts = BucketCounts::with_buckets(&mut store);
    assert_eq!(counts.add_one(), 1);
    counts.next_bucket();
    assert_eq!(counts.sum(), 0);
}

#[test]
fn the_sum_covers_the_recent_rounds() {
    let history = [1usize, 0, 2, 3, 0, 0, 1, 4, 0, 2];
    let mut store = [0usize; 4];
    let mut counts = BucketCounts::with_buckets(&mut store);
    for (i, events) in history.iter().enumerate() {
        counts.next_bucket();
        for _ in 0..*events {
            counts.add_one();
        }
        let from = (i + 1).saturating_sub(4);
        assert_eq!(counts.sum(), history[from..=i].iter().sum::<usize>());
    }
}

#[test]
fn the_sixth_error_in_a_dozen_rounds_stops() {
    let mut store = [0usize; ERROR_ROUNDS];
    let mut counts = BucketCounts::with_buckets(&mut store);
    for _ in 0..5 {
        counts.next_bucket();
        counts.next_bucket();
        assert_eq!(control_for_err(&mut counts), Control::Continue);
    }
    assert_eq!(
        control_for_err(&mut counts),
        Control::Quit("too many (6) errors too quickly".to_string())
    );
}

#[test]
fn old_errors_are_forgotten() {
    let mut store = [0usize; ERROR_ROUNDS];
    let mut counts = BucketCounts::with_buckets(&mut store);
    for _ in 0..100 {
        counts.next_bucket();
        counts.next_bucket();
        counts.next_bucket();
        assert_eq!(control_for_err(&mut counts), Control::Continue);
    }
}

#[test]
fn a_stop_names_who_asked_for_it() {
    assert_eq!(
        stop_requested(Ok("(unnamed)")),
        Control::Quit("stop requested by: (unnamed)".to_string())
    );
    assert_eq!(
        stop_requested(Err("gone")),
        Control::Quit("stop requested by: (peer unknown; gone)".to_string())
    );
}

#[test]
fn success_means_to_continue() {
    assert_eq!(Control::default(), Control::Continue);
    assert_eq!(Control::from(()), Control::Continue);
    let ok: Result<(), u8> = Ok(());
    let mapped: Result<Control, u8> = ok.map_default();
    assert_eq!(mapped, Ok(Control::Continue));
    let mapped: Result<u32, u8> = ok.map_default();
    assert_eq!(mapped, Ok(0));
    let err: Result<(), u8> = Err(4);
    let mapped: Result<Control, u8> = err.map_default();
    assert_eq!(mapped, Err(4));
}

#[test]
fn numbers_are_written_in_decimal() {
    assert_eq!(decimal(0), "0");
    assert_eq!(decimal(7), "7");
    assert_eq!(decimal(10), "10");
    assert_eq!(decimal(1203), "1203");
    assert_eq!(decimal(usize::MAX), usize::MAX.to_string());
}
