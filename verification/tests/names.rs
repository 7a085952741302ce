use solana_snapshot_etl::archived::classify_member;
use solana_snapshot_etl::archived::MemberClass;
use solana_snapshot_etl::parse_append_vec_name;
use solana_snapshot_etl::parse_u64_dec;
use solana_snapshot_etl::find_byte;
use solana_snapshot_etl::unpacked::latest_slot;
use solana_snapshot_etl::classify_source;
use solana_snapshot_etl::SourceKind;

#[test]
fn parse_append_vec_name_accepts_slot_dot_id() {
    assert_eq!(parse_append_vec_name(b"100.1"), Some((100, 1)));
    assert_eq!(parse_append_vec_name(b"0.0"), Some((0, 0)));
    assert_eq!(
        parse_append_vec_name(b"18446744073709551615.2"),
        Some((u64::MAX, 2))
    );
}

#[test]
fn parse_append_vec_name_rejects_malformed() {
    assert_eq!(parse_append_vec_name(b""), None);
    assert_eq!(parse_append_vec_name(b"100"), None);
    assert_eq!(parse_append_vec_name(b".5"), None);
    assert_eq!(parse_append_vec_name(b"5."), None);
    assert_eq!(parse_append_vec_name(b"a.1"), None);
    assert_eq!(parse_append_vec_name(b"1.b"), None);
    assert_eq!(parse_append_vec_name(b"1.2.3"), None);
    assert_eq!(parse_append_vec_name(b"18446744073709551616.1"), None);
    assert_eq!(parse_append_vec_name(b"007.1"), None);
    assert_eq!(parse_append_vec_name(b"7.01"), None);
}

#[test]
fn parse_u64_dec_bounds() {
    assert_eq!(parse_u64_dec(b"0"), Some(0));
    assert_eq!(parse_u64_dec(b"007"), None);
    assert_eq!(parse_u64_dec(b"01"), None);
    assert_eq!(parse_u64_dec(b"18446744073709551615"), Some(u64::MAX));
    assert_eq!(parse_u64_dec(b"18446744073709551616"), None);
    assert_eq!(parse_u64_dec(b""), None);
    assert_eq!(parse_u64_dec(b"12x"), None);
}

#[test]
fn find_byte_returns_first_hit() {
    assert_eq!(find_byte(b"a/b/c", b'/'), Some(1));
    assert_eq!(find_byte(b"abc", b'/'), None);
}

#[test]
fn classify_member_paths() {
    assert!(matches!(
        classify_member(b"accounts/100.1"),
        MemberClass::Accounts(100, 1)
    ));
    assert!(matches!(
        classify_member(b"snapshots/100/100"),
        MemberClass::Manifest(100)
    ));
    assert!(matches!(
        classify_member(b"snapshots/100/101"),
        MemberClass::Other
    ));
    assert!(matches!(classify_member(b"version"), MemberClass::Other));
    assert!(matches!(
        classify_member(b"accounts/garbage"),
        MemberClass::Other
    ));
    assert!(matches!(
        classify_member(b"accounts/1.2/3"),
        MemberClass::Other
    ));
    assert!(matches!(
        classify_member(b"snapshots/status_cache"),
        MemberClass::Other
    ));
    assert!(matches!(
        classify_member(b"snapshots/100/100/x"),
        MemberClass::Other
    ));
}

#[test]
fn latest_slot_picks_maximum() {
    assert_eq!(latest_slot(&vec![]), None);
    assert_eq!(latest_slot(&vec![5]), Some(5));
    assert_eq!(latest_slot(&vec![3, 9, 7]), Some(9));
    assert_eq!(latest_slot(&vec![9, 9, 1]), Some(9));
}

#[test]
fn classify_source_kinds() {
    assert!(matches!(
        classify_source(b"http://example.invalid/snap.tar", false),
        SourceKind::Url
    ));
    assert!(matches!(
        classify_source(b"https://example.invalid/snap.tar", false),
        SourceKind::Url
    ));
    assert!(matches!(
        classify_source(b"/tmp/snapshot", true),
        SourceKind::UnpackedDir
    ));
    assert!(matches!(
        classify_source(b"/tmp/snapshot.tar", false),
        SourceKind::ArchiveFile
    ));
    assert!(matches!(
        classify_source(b"httpx://not-a-scheme", false),
        SourceKind::ArchiveFile
    ));
}
