use blksocks::addr::{format_socket_addr, ipv4_to_number, number_to_ipv4, printable};
use blksocks::config::{
    default_file_size_limit_mb, default_logging_enabled, default_rotate_count, LoggingConfig,
};
use blksocks::relay::{
    can_record, copy_start, copy_step, destination_ip, record_direction, record_direction_now,
    record_session, session_step, CopyAction, CopyEvent, CopyOutcome, CopyState, SessionAction,
    SessionEvent, SessionStage,
};
use blksocks::stats::{IpAddress, PacketStats, StatsLedger};

#[test]
fn resolved_destination_is_written_as_text() {
    assert_eq!(format_socket_addr((10, 0, 0, 5), 8443), b"10.0.0.5:8443".to_vec());
    assert_eq!(format_socket_addr((0, 0, 0, 0), 0), b"0.0.0.0:0".to_vec());
    assert_eq!(
        format_socket_addr((255, 255, 255, 255), 65535),
        b"255.255.255.255:65535".to_vec()
    );
    assert_eq!(format_socket_addr((93, 184, 216, 34), 443), b"93.184.216.34:443".to_vec());
    assert_eq!(format_socket_addr((1, 20, 100, 9), 10), b"1.20.100.9:10".to_vec());
}

#[test]
fn addresses_are_numbers_with_the_first_octet_highest() {
    assert_eq!(ipv4_to_number((10, 0, 0, 5)), 0x0A00_0005);
    assert_eq!(ipv4_to_number((255, 255, 255, 255)), u32::MAX);
    assert_eq!(ipv4_to_number((0, 0, 0, 0)), 0);
    assert_eq!(number_to_ipv4(0x5DB8_D822), (93, 184, 216, 34));
    assert_eq!(number_to_ipv4(ipv4_to_number((1, 2, 3, 4))), (1, 2, 3, 4));
}

#[test]
fn unprintable_bytes_become_dots() {
    assert_eq!(printable(b"GET / HTTP/1.1\r\n"), b"GET / HTTP/1.1..".to_vec());
    assert_eq!(printable(&[0x00, 0x1f, 0x20, 0x21, 0x7e, 0x7f, 0xff]), b".. !~..".to_vec());
    assert!(printable(b"").is_empty());
}

#[test]
fn destination_address_is_the_ledger_key() {
    assert_eq!(destination_ip(b"10.0.0.5:8443"), Some(IpAddress::V4(0x0A00_0005)));
    assert_eq!(destination_ip(b"example.com:80"), None);
    assert_eq!(destination_ip(b"10.0.0.5"), None);
}

#[test]
fn failed_direction_still_counts_its_bytes() {
    let mut ledger = StatsLedger::new();
    let dest = b"10.0.0.5:8443";
    let failed = CopyOutcome { bytes: 1000, failed: true };
    let done = CopyOutcome { bytes: 2000, failed: false };
    assert!(can_record(&ledger, dest, 3000));
    record_session(&mut ledger, dest, failed, 11, done, 12);
    assert_eq!(ledger.len(), 1);
    assert_eq!(
        ledger.lookup(IpAddress::V4(0x0A00_0005)),
        Some(PacketStats { byte_count: 3000, last_updated: 12 })
    );
}

#[test]
fn directions_are_recorded_one_by_one() {
    let mut ledger = StatsLedger::new();
    let dest = b"10.0.0.5:8443";
    record_direction(&mut ledger, dest, CopyOutcome { bytes: 1000, failed: true }, 5);
    assert_eq!(ledger.byte_count(IpAddress::V4(0x0A00_0005)), 1000);
    record_direction(&mut ledger, dest, CopyOutcome { bytes: 2000, failed: false }, 6);
    assert_eq!(ledger.byte_count(IpAddress::V4(0x0A00_0005)), 3000);
    record_direction(&mut ledger, b"10.0.0.6:1", CopyOutcome { bytes: 1, failed: false }, 7);
    assert_eq!(ledger.byte_count(IpAddress::V4(0x0A00_0005)), 3000);
    assert_eq!(ledger.byte_count(IpAddress::V4(0x0A00_0006)), 1);
}

#[test]
fn named_destinations_leave_the_ledger_alone() {
    let mut ledger = StatsLedger::new();
    record_session(
        &mut ledger,
        b"example.com:80",
        CopyOutcome { bytes: 10, failed: false },
        1,
        CopyOutcome { bytes: 20, failed: false },
        2,
    );
    assert_eq!(ledger.len(), 0);
    assert!(can_record(&ledger, b"example.com:80", u64::MAX));
}

#[test]
fn room_is_checked_before_recording() {
    let mut ledger = StatsLedger::new();
    let dest = b"1.1.1.1:1";
    record_direction(&mut ledger, dest, CopyOutcome { bytes: u64::MAX - 5, failed: false }, 1);
    assert!(can_record(&ledger, dest, 5));
    assert!(!can_record(&ledger, dest, 6));
    assert!(can_record(&ledger, b"1.1.1.2:1", u64::MAX));
}

#[test]
fn logging_defaults() {
    assert!(default_logging_enabled());
    assert_eq!(default_file_size_limit_mb(), 2);
    assert_eq!(default_rotate_count(), 5);
    assert_eq!(
        LoggingConfig::default(),
        LoggingConfig { enabled: false, file_size_limit_mb: 0, rotate_count: 0 }
    );
    assert_eq!(
        LoggingConfig::with_field_defaults(),
        LoggingConfig { enabled: true, file_size_limit_mb: 2, rotate_count: 5 }
    );
}

#[test]
fn log_file_limit_in_bytes() {
    let config = LoggingConfig::with_field_defaults();
    assert_eq!(config.file_size_limit_bytes(), Some(2_000_000));
    let off = LoggingConfig { enabled: false, file_size_limit_mb: 2, rotate_count: 5 };
    assert_eq!(off.file_size_limit_bytes(), Some(2_000_000));
    let edge = LoggingConfig { enabled: true, file_size_limit_mb: 18_446_744_073_709, rotate_count: 1 };
    assert_eq!(edge.file_size_limit_bytes(), Some(18_446_744_073_709_000_000));
    let over = LoggingConfig { enabled: true, file_size_limit_mb: 18_446_744_073_710, rotate_count: 1 };
    assert_eq!(over.file_size_limit_bytes(), None);
}

#[test]
fn direction_recorded_now_carries_the_clock() {
    let mut ledger = StatsLedger::new();
    let now = record_direction_now(&mut ledger, b"10.0.0.5:8443", CopyOutcome { bytes: 9, failed: false });
    assert!(now > 1_600_000_000_000_000_000);
    assert_eq!(
        ledger.lookup(IpAddress::V4(0x0A00_0005)),
        Some(PacketStats { byte_count: 9, last_updated: now })
    );
}

#[test]
fn session_runs_through_its_stages() {
    let (stage, action) = session_step(SessionStage::Resolving, SessionEvent::Resolved);
    assert_eq!((stage, action), (SessionStage::Negotiating, SessionAction::Negotiate));
    let (stage, action) = session_step(stage, SessionEvent::Negotiated);
    assert_eq!((stage, action), (SessionStage::Relaying, SessionAction::Relay));
    let (stage, action) = session_step(stage, SessionEvent::DirectionEnded);
    assert_eq!((stage, action), (SessionStage::Draining, SessionAction::Record));
    let (stage, action) = session_step(stage, SessionEvent::DirectionEnded);
    assert_eq!((stage, action), (SessionStage::Closed, SessionAction::RecordAndClose));
    let (stage, action) = session_step(stage, SessionEvent::DirectionEnded);
    assert_eq!((stage, action), (SessionStage::Closed, SessionAction::Close));
}

#[test]
fn session_closes_on_any_failure() {
    assert_eq!(
        session_step(SessionStage::Resolving, SessionEvent::ResolveFailed),
        (SessionStage::Closed, SessionAction::Close)
    );
    assert_eq!(
        session_step(SessionStage::Negotiating, SessionEvent::NegotiationFailed),
        (SessionStage::Closed, SessionAction::Close)
    );
    assert_eq!(
        session_step(SessionStage::Resolving, SessionEvent::Negotiated),
        (SessionStage::Closed, SessionAction::Close)
    );
    assert_eq!(
        session_step(SessionStage::Relaying, SessionEvent::Resolved),
        (SessionStage::Closed, SessionAction::Close)
    );
}

#[test]
fn copied_chunks_pass_through_unchanged_and_in_order() {
    let chunks: Vec<Vec<u8>> = vec![b"GET / HTTP/1.1\r\n".to_vec(), vec![0, 255, 7], vec![b'x'; 981]];
    let mut state = copy_start();
    let mut written: Vec<u8> = Vec::new();
    for chunk in &chunks {
        let (next, action) = copy_step(state, CopyEvent::Read(chunk.clone()));
        assert_eq!(next, CopyState { copied: state.copied, pending: chunk.len() });
        match action {
            CopyAction::Write(data) => written.extend_from_slice(&data),
            other => panic!("{:?}", other),
        }
        let (next, action) = copy_step(next, CopyEvent::Written);
        assert_eq!(action, CopyAction::ReadMore);
        state = next;
    }
    assert_eq!(written, chunks.concat());
    assert_eq!(state, CopyState { copied: 1000, pending: 0 });
    let (_, action) = copy_step(state, CopyEvent::EndOfStream);
    assert_eq!(action, CopyAction::Finish(CopyOutcome { bytes: 1000, failed: false }));
}

#[test]
fn failed_copy_reports_what_was_written_before() {
    let state = copy_start();
    let (state, _) = copy_step(state, CopyEvent::Read(vec![1; 1000]));
    let (state, _) = copy_step(state, CopyEvent::Written);
    let (state, action) = copy_step(state, CopyEvent::Read(vec![2; 50]));
    assert_eq!(action, CopyAction::Write(vec![2; 50]));
    let (state, action) = copy_step(state, CopyEvent::Failed);
    assert_eq!(action, CopyAction::Finish(CopyOutcome { bytes: 1000, failed: true }));
    assert_eq!(state.copied, 1000);
}

#[test]
fn copy_count_stops_at_the_largest_value() {
    let state = CopyState { copied: u64::MAX - 3, pending: 3 };
    assert_eq!(copy_step(state, CopyEvent::Written).0, CopyState { copied: u64::MAX, pending: 0 });
    let state = CopyState { copied: u64::MAX - 3, pending: 4 };
    assert_eq!(copy_step(state, CopyEvent::Written).0, CopyState { copied: u64::MAX, pending: 0 });
}

#[test]
fn one_failed_and_one_finished_direction_add_up() {
    let mut ledger = StatsLedger::new();
    let dest = b"10.0.0.5:8443";
    let (up, _) = copy_step(copy_start(), CopyEvent::Read(vec![0; 1000]));
    let (up, _) = copy_step(up, CopyEvent::Written);
    let (_, up_done) = copy_step(up, CopyEvent::Failed);
    let (down, _) = copy_step(copy_start(), CopyEvent::Read(vec![0; 2000]));
    let (down, _) = copy_step(down, CopyEvent::Written);
    let (_, down_done) = copy_step(down, CopyEvent::EndOfStream);
    let (first, second) = match (up_done, down_done) {
        (CopyAction::Finish(a), CopyAction::Finish(b)) => (a, b),
        other => panic!("{:?}", other),
    };
    assert_eq!(first, CopyOutcome { bytes: 1000, failed: true });
    assert_eq!(second, CopyOutcome { bytes: 2000, failed: false });
    record_direction(&mut ledger, dest, first, 1);
    assert_eq!(ledger.byte_count(IpAddress::V4(0x0A00_0005)), 1000);
    record_direction(&mut ledger, dest, second, 2);
    assert_eq!(ledger.byte_count(IpAddress::V4(0x0A00_0005)), 3000);
}
