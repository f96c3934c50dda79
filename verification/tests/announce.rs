use nomad_core::announce::{
    announce_app_data, announce_header, announce_plan, announce_result, clamp_announce_name,
    keeps_announcing, AnnounceContext, AnnounceDestination, AnnounceHeaderType, AnnouncePacket,
    AnnounceTransport, SendEvent,
};
use nomad_core::{
    build_nomad_announce_packet, NomadError, NomadNodeConfig, MAX_ANNOUNCE_NAME_BYTES,
};

/// A packet whose announce is nothing but its app data.
fn packet(name: Option<&str>) -> Vec<u8> {
    let data = announce_app_data(name).unwrap_or_default();
    build_nomad_announce_packet(vec![1, 0], Ok(data)).unwrap()
}

#[test]
fn announce_name_is_length_capped() {
    let huge = "n".repeat(MAX_ANNOUNCE_NAME_BYTES + 100);
    let raw = packet(Some(&huge));
    let short = packet(Some(&"n".repeat(MAX_ANNOUNCE_NAME_BYTES)));
    assert_eq!(raw.len(), short.len());
}

#[test]
fn names_are_trimmed_and_cut_at_a_character() {
    assert_eq!(clamp_announce_name("  Demo Node \n"), "Demo Node");
    // 85 characters of three bytes are 255 bytes; one more would not fit.
    let wide = "€".repeat(100);
    assert_eq!(clamp_announce_name(&wide), "€".repeat(85));
    assert_eq!(clamp_announce_name(&"n".repeat(256)), "n".repeat(256));
}

#[test]
fn app_data_is_the_raw_name() {
    assert_eq!(announce_app_data(Some("Demo Node")), Some(b"Demo Node".to_vec()));
    assert_eq!(announce_app_data(Some("é")), Some(vec![0xc3, 0xa9]));
    assert_eq!(announce_app_data(Some("   ")), None);
    assert_eq!(announce_app_data(Some("")), None);
    assert_eq!(announce_app_data(None), None);
}

#[test]
fn a_packet_is_its_header_and_its_announce() {
    let raw = build_nomad_announce_packet(vec![1, 2], Ok(vec![3, 4, 5])).unwrap();
    assert_eq!(raw, [1, 2, 3, 4, 5]);
    match build_nomad_announce_packet(vec![1, 2], Err("no private key".to_string())) {
        Err(NomadError::Message(why)) => assert_eq!(why, "no private key"),
        other => panic!("unexpected {other:?}"),
    }
}

fn told(event: SendEvent) -> String {
    announce_result(event).unwrap_err().describe()
}

#[test]
fn failures_to_send_are_told() {
    assert!(announce_result(SendEvent::Sent).is_ok());
    assert_eq!(told(SendEvent::Closed), "transport channel closed");
    assert_eq!(told(SendEvent::TimedOut), "announce send timed out");
    assert_eq!(told(SendEvent::NotBuilt(NomadError::message("why"))), "why");
}

#[test]
fn only_a_closed_transport_ends_the_periodic_announce() {
    assert!(keeps_announcing(SendEvent::Sent));
    assert!(keeps_announcing(SendEvent::TimedOut));
    assert!(!keeps_announcing(SendEvent::Closed));
    assert!(keeps_announcing(SendEvent::NotBuilt(NomadError::message("no key"))));
    assert!(!keeps_announcing(SendEvent::NotBuilt(NomadError::message(
        "late: transport channel closed"
    ))));
}

#[test]
fn an_announce_is_a_broadcast_of_a_single_destination() {
    let header = announce_header([0xab; 16]);
    assert_eq!(header.header_type, AnnounceHeaderType::Header1);
    assert!(!header.context_flag);
    assert_eq!(header.transport_type, AnnounceTransport::Broadcast);
    assert_eq!(header.destination_type, AnnounceDestination::Single);
    assert_eq!(header.packet_type, AnnouncePacket::Announce);
    assert_eq!(header.hops, 0);
    assert_eq!(header.transport_id, None);
    assert_eq!(header.destination_hash, [0xab; 16]);
    assert_eq!(header.context, AnnounceContext::Absent);
}

#[test]
fn periodic_announces_wait_a_whole_interval() {
    let plan = announce_plan(&NomadNodeConfig::default());
    assert!(plan.at_start);
    let (first, next) = (plan.first_after.unwrap(), plan.then_every.unwrap());
    assert_eq!((first.secs, first.nanos), (3600, 0));
    assert_eq!((next.secs, next.nanos), (3600, 0));
    let quiet = NomadNodeConfig {
        announce_at_start: false,
        announce_interval: None,
        ..NomadNodeConfig::default()
    };
    let plan = announce_plan(&quiet);
    assert!(!plan.at_start);
    assert!(plan.first_after.is_none());
    assert!(plan.then_every.is_none());
}
