use roastr_core::config_record::{decode_federation, encode_federation, open_existing, OpenError};
use roastr_core::federation::{
    parse_peer_id, prepare_admin_join, AdminJoin, ConfigError, FederationDescriptor, GuardianPeer,
    JoinError, JoinPlan,
};

fn directory() -> FederationDescriptor {
    FederationDescriptor {
        federation_id: vec![0xf0, 0x0d],
        guardians: vec![
            GuardianPeer { peer_id: 1, public_share: vec![0x21] },
            GuardianPeer { peer_id: 0x0304, public_share: vec![0x22, 0x23] },
        ],
        threshold: 2,
        group_public_key: vec![0x99],
    }
}

#[test]
fn peer_id_parsing_follows_u16_from_str() {
    assert_eq!(parse_peer_id("0"), Some(0));
    assert_eq!(parse_peer_id("3"), Some(3));
    assert_eq!(parse_peer_id("007"), Some(7));
    assert_eq!(parse_peer_id("+12"), Some(12));
    assert_eq!(parse_peer_id("65535"), Some(65535));
    assert_eq!(parse_peer_id("65536"), None);
    assert_eq!(parse_peer_id("100000"), None);
    assert_eq!(parse_peer_id(""), None);
    assert_eq!(parse_peer_id("+"), None);
    assert_eq!(parse_peer_id("-1"), None);
    assert_eq!(parse_peer_id("1a"), None);
    assert_eq!(parse_peer_id(" 1"), None);
    for s in ["0", "9", "+42", "65535", "65536", "-0", "x", "", "12345678901234567890"] {
        assert_eq!(parse_peer_id(s), s.parse::<u16>().ok(), "{}", s);
    }
}

#[test]
fn admin_join_checks_peer_id_and_prefers_local_state() {
    assert_eq!(
        prepare_admin_join("2", true),
        Ok(AdminJoin { peer_id: 2, plan: JoinPlan::OpenExisting })
    );
    assert_eq!(
        prepare_admin_join("2", false),
        Ok(AdminJoin { peer_id: 2, plan: JoinPlan::DownloadAndJoin })
    );
    assert_eq!(prepare_admin_join("guardian", false), Err(JoinError::InvalidPeerId));
}

#[test]
fn federation_record_layout_and_round_trip() {
    let f = directory();
    let bytes = encode_federation(&f);
    let mut expected: Vec<u8> = vec![2, 0, 0, 0, 0, 0, 0, 0, 0xf0, 0x0d];
    expected.extend_from_slice(&[2, 0, 0, 0, 0, 0, 0, 0]);
    expected.extend_from_slice(&[2, 0, 0, 0, 0, 0, 0, 0]);
    expected.extend_from_slice(&[1, 0, 1, 0, 0, 0, 0, 0, 0, 0, 0x21]);
    expected.extend_from_slice(&[0x04, 0x03, 2, 0, 0, 0, 0, 0, 0, 0, 0x22, 0x23]);
    expected.extend_from_slice(&[1, 0, 0, 0, 0, 0, 0, 0, 0x99]);
    assert_eq!(bytes, expected);
    let back = decode_federation(&bytes).unwrap();
    assert_eq!(back.federation_id, f.federation_id);
    assert_eq!(back.threshold, 2);
    assert_eq!(back.guardians.len(), 2);
    assert_eq!(back.guardians[1].peer_id, 0x0304);
    assert_eq!(back.guardians[1].public_share, vec![0x22, 0x23]);
    assert_eq!(back.group_public_key, vec![0x99]);
}

#[test]
fn open_existing_outcomes() {
    assert!(matches!(open_existing(None), Err(OpenError::NotInitialized)));
    assert!(matches!(open_existing(Some(vec![1, 2])), Err(OpenError::CorruptRecord)));
    let mut trailing = encode_federation(&directory());
    trailing.push(7);
    assert!(matches!(open_existing(Some(trailing)), Err(OpenError::CorruptRecord)));
    let opened = open_existing(Some(encode_federation(&directory()))).unwrap();
    assert_eq!(opened.threshold, 2);
    assert!(opened.validate().is_ok());
    let mut bad = directory();
    bad.threshold = 3;
    assert!(matches!(
        open_existing(Some(encode_federation(&bad))),
        Err(OpenError::Config(ConfigError::ThresholdOutOfRange))
    ));
}
