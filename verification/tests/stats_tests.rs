use blksocks::stats::{
    expire_old_entries, get_top_ips, update_stats, IpAddress, PacketStats, StatsLedger,
    EXPIRY_WINDOW_NANOS, REPORT_LIMIT,
};

const A: IpAddress = IpAddress::V4(0x0A00_0005);
const B: IpAddress = IpAddress::V4(0x0A00_0006);
const C: IpAddress = IpAddress::V6(1);

#[test]
fn new_ledger_is_empty() {
    let ledger = StatsLedger::new();
    assert_eq!(ledger.len(), 0);
    assert_eq!(ledger.lookup(A), None);
    assert_eq!(ledger.byte_count(A), 0);
    assert!(ledger.top_ips(10).is_empty());
}

#[test]
fn credits_add_up_per_address() {
    let mut ledger = StatsLedger::new();
    ledger.credit(A, 100, 1);
    ledger.credit(B, 7, 2);
    ledger.credit(A, 250, 3);
    ledger.credit(C, 1, 4);
    ledger.credit(A, 0, 5);
    ledger.credit(B, 3, 6);
    assert_eq!(ledger.len(), 3);
    assert_eq!(ledger.lookup(A), Some(PacketStats { byte_count: 350, last_updated: 5 }));
    assert_eq!(ledger.lookup(B), Some(PacketStats { byte_count: 10, last_updated: 6 }));
    assert_eq!(ledger.lookup(C), Some(PacketStats { byte_count: 1, last_updated: 4 }));
    assert_eq!(ledger.byte_count(A), 350);
}

#[test]
fn credits_keep_first_seen_order() {
    let mut ledger = StatsLedger::new();
    ledger.credit(B, 1, 1);
    ledger.credit(A, 1, 2);
    ledger.credit(B, 1, 3);
    let ips: Vec<IpAddress> = ledger.entries().iter().map(|r| r.ip).collect();
    assert_eq!(ips, vec![B, A]);
}

#[test]
fn credit_reaches_the_largest_count() {
    let mut ledger = StatsLedger::new();
    ledger.credit(A, u64::MAX - 1, 1);
    ledger.credit(A, 1, 2);
    assert_eq!(ledger.byte_count(A), u64::MAX);
}

#[test]
fn update_stats_stamps_the_current_time() {
    let mut ledger = StatsLedger::new();
    let first = update_stats(&mut ledger, A, 40);
    let second = update_stats(&mut ledger, A, 2);
    assert!(first > 1_600_000_000_000_000_000);
    assert!(second >= first);
    assert_eq!(ledger.lookup(A), Some(PacketStats { byte_count: 42, last_updated: second }));
}

#[test]
fn expire_removes_exactly_the_stale_records() {
    let now: i128 = 10 * EXPIRY_WINDOW_NANOS;
    let threshold = now - EXPIRY_WINDOW_NANOS;
    let mut ledger = StatsLedger::new();
    ledger.credit(IpAddress::V4(1), 10, threshold - 1);
    ledger.credit(IpAddress::V4(2), 20, threshold);
    ledger.credit(IpAddress::V4(3), 30, threshold + 1);
    ledger.credit(IpAddress::V4(4), 40, 0);
    ledger.credit(IpAddress::V4(5), 50, now);
    ledger.expire(now);
    assert_eq!(ledger.len(), 3);
    assert_eq!(ledger.lookup(IpAddress::V4(1)), None);
    assert_eq!(
        ledger.lookup(IpAddress::V4(2)),
        Some(PacketStats { byte_count: 20, last_updated: threshold })
    );
    assert_eq!(
        ledger.lookup(IpAddress::V4(3)),
        Some(PacketStats { byte_count: 30, last_updated: threshold + 1 })
    );
    assert_eq!(ledger.lookup(IpAddress::V4(4)), None);
    assert_eq!(
        ledger.lookup(IpAddress::V4(5)),
        Some(PacketStats { byte_count: 50, last_updated: now })
    );
    let ips: Vec<IpAddress> = ledger.entries().iter().map(|r| r.ip).collect();
    assert_eq!(ips, vec![IpAddress::V4(2), IpAddress::V4(3), IpAddress::V4(5)]);
}

#[test]
fn expire_is_idempotent_and_keeps_fresh_ledgers() {
    let mut ledger = StatsLedger::new();
    ledger.credit(A, 1, 1_000);
    ledger.credit(B, 2, 2_000);
    ledger.expire(3_000);
    assert_eq!(ledger.len(), 2);
    ledger.expire(2_000 + EXPIRY_WINDOW_NANOS);
    assert_eq!(ledger.len(), 1);
    assert_eq!(ledger.byte_count(B), 2);
    ledger.expire(2_000 + EXPIRY_WINDOW_NANOS);
    assert_eq!(ledger.len(), 1);
    ledger.expire(2_001 + EXPIRY_WINDOW_NANOS);
    assert_eq!(ledger.len(), 0);
}

#[test]
fn expire_at_the_earliest_time_keeps_everything() {
    let mut ledger = StatsLedger::new();
    ledger.credit(A, 1, i128::MIN);
    ledger.credit(B, 1, 0);
    ledger.expire(i128::MIN);
    assert_eq!(ledger.len(), 2);
    ledger.expire(i128::MIN + EXPIRY_WINDOW_NANOS);
    assert_eq!(ledger.len(), 2);
    ledger.expire(i128::MIN + EXPIRY_WINDOW_NANOS + 1);
    assert_eq!(ledger.len(), 1);
    assert_eq!(ledger.byte_count(B), 1);
}

#[test]
fn expire_old_entries_keeps_what_was_just_credited() {
    let mut ledger = StatsLedger::new();
    ledger.credit(A, 5, 0);
    update_stats(&mut ledger, B, 9);
    let now = expire_old_entries(&mut ledger);
    assert!(now > 1_600_000_000_000_000_000);
    assert_eq!(ledger.len(), 1);
    assert_eq!(ledger.byte_count(A), 0);
    assert_eq!(ledger.byte_count(B), 9);
}

#[test]
fn seven_days_in_nanoseconds() {
    assert_eq!(EXPIRY_WINDOW_NANOS, 7 * 24 * 60 * 60 * 1_000_000_000);
    assert_eq!(REPORT_LIMIT, 80);
}

#[test]
fn top_ips_are_sorted_by_falling_count() {
    let mut ledger = StatsLedger::new();
    ledger.credit(IpAddress::V4(1), 10, 1);
    ledger.credit(IpAddress::V4(2), 500, 1);
    ledger.credit(IpAddress::V4(3), 30, 1);
    ledger.credit(IpAddress::V4(4), 0, 1);
    ledger.credit(IpAddress::V4(1), 100, 2);
    assert_eq!(
        ledger.top_ips(10),
        vec![
            (IpAddress::V4(2), 500),
            (IpAddress::V4(1), 110),
            (IpAddress::V4(3), 30),
            (IpAddress::V4(4), 0)
        ]
    );
    assert_eq!(ledger.top_ips(2), vec![(IpAddress::V4(2), 500), (IpAddress::V4(1), 110)]);
    assert!(ledger.top_ips(0).is_empty());
    assert_eq!(ledger.lookup(IpAddress::V4(1)).unwrap().last_updated, 2);
    assert_eq!(ledger.len(), 4);
}

#[test]
fn top_ips_keep_ties_in_first_seen_order() {
    let mut ledger = StatsLedger::new();
    ledger.credit(IpAddress::V4(9), 5, 1);
    ledger.credit(IpAddress::V4(3), 7, 1);
    ledger.credit(IpAddress::V4(7), 5, 1);
    ledger.credit(IpAddress::V4(1), 5, 1);
    ledger.credit(IpAddress::V4(2), 7, 1);
    assert_eq!(
        ledger.top_ips(5),
        vec![
            (IpAddress::V4(3), 7),
            (IpAddress::V4(2), 7),
            (IpAddress::V4(9), 5),
            (IpAddress::V4(7), 5),
            (IpAddress::V4(1), 5)
        ]
    );
}

#[test]
fn report_lists_at_most_eighty() {
    let mut ledger = StatsLedger::new();
    for i in 0..100u32 {
        ledger.credit(IpAddress::V4(i), u64::from(i), 1);
    }
    let top = get_top_ips(&ledger);
    assert_eq!(top.len(), 80);
    assert_eq!(top[0], (IpAddress::V4(99), 99));
    assert_eq!(top[79], (IpAddress::V4(20), 20));
    for pair in top.windows(2) {
        assert!(pair[0].1 >= pair[1].1);
    }
    let mut small = StatsLedger::new();
    small.credit(A, 1, 1);
    assert_eq!(get_top_ips(&small), vec![(A, 1)]);
}
