use blocklist::cache::BlockCache;
use blocklist::command::FirewallCommand;
use blocklist::ingest::{clip, decode, ingest, Ingest};

fn add_rule(address: &str) -> FirewallCommand {
    FirewallCommand::AddRule { address: address.to_string() }
}

#[test]
fn a_new_address_gets_one_rule_and_one_entry() {
    let mut cache = BlockCache::new();
    cache.insert_or_renew("10.0.0.1", 5);
    let outcome = ingest(&mut cache, b"10.0.0.5", 70);
    assert_eq!(outcome, Ingest::Blocked { command: add_rule("10.0.0.5"), renewed: false });
    assert_eq!(cache.len(), 2);
    assert_eq!(cache.get("10.0.0.5"), Some(70));
    assert_eq!(cache.get("10.0.0.1"), Some(5));
    assert_eq!(cache.addresses(), vec!["10.0.0.1", "10.0.0.5"]);
}

#[test]
fn a_cached_address_is_renewed_and_gets_one_more_rule() {
    let mut cache = BlockCache::new();
    ingest(&mut cache, b"10.0.0.5", 70);
    ingest(&mut cache, b"10.0.0.6", 80);
    let outcome = ingest(&mut cache, b"10.0.0.5", 90);
    assert_eq!(outcome, Ingest::Blocked { command: add_rule("10.0.0.5"), renewed: true });
    assert_eq!(cache.len(), 2);
    assert_eq!(cache.get("10.0.0.5"), Some(90));
    assert_eq!(cache.get("10.0.0.6"), Some(80));
    assert_eq!(cache.addresses(), vec!["10.0.0.5", "10.0.0.6"]);
}

#[test]
fn an_expired_but_unswept_address_is_renewed_too() {
    let mut cache = BlockCache::new();
    ingest(&mut cache, b"10.0.0.5", 0);
    let outcome = ingest(&mut cache, b"10.0.0.5", 1_000_000);
    assert_eq!(outcome, Ingest::Blocked { command: add_rule("10.0.0.5"), renewed: true });
    assert!(cache.expired(1_000_000, 300).is_empty());
}

#[test]
fn a_payload_that_is_not_utf8_is_dropped() {
    let mut cache = BlockCache::new();
    ingest(&mut cache, b"10.0.0.5", 70);
    for payload in [&[0xff][..], &[0x31, 0x30, 0x80][..], &[0xc3][..], &[0xed, 0xa0, 0x80][..], &[0xc0, 0xaf][..], &[0xf4, 0x90, 0x80, 0x80][..]] {
        assert_eq!(ingest(&mut cache, payload, 99), Ingest::Rejected);
    }
    assert_eq!(cache.len(), 1);
    assert_eq!(cache.get("10.0.0.5"), Some(70));
}

#[test]
fn the_payload_is_taken_as_it_is() {
    let mut cache = BlockCache::new();
    assert_eq!(
        ingest(&mut cache, b"10.0.0.5\n", 1),
        Ingest::Blocked { command: add_rule("10.0.0.5\n"), renewed: false }
    );
    assert_eq!(
        ingest(&mut cache, b"not an address", 2),
        Ingest::Blocked { command: add_rule("not an address"), renewed: false }
    );
    assert_eq!(ingest(&mut cache, b"", 3), Ingest::Blocked { command: add_rule(""), renewed: false });
    assert_eq!(cache.addresses(), vec!["10.0.0.5\n", "not an address", ""]);
}

#[test]
fn decode_reads_text_of_any_script() {
    assert_eq!(decode(b"10.0.0.5"), Some("10.0.0.5".to_string()));
    assert_eq!(decode("caf\u{e9} \u{4e2d}\u{6587} \u{1f600}".as_bytes()), Some("caf\u{e9} \u{4e2d}\u{6587} \u{1f600}".to_string()));
    assert_eq!(decode(&[]), Some(String::new()));
    assert_eq!(decode(&[0x80]), None);
    assert_eq!(decode(&[0xe4, 0xb8]), None);
}

#[test]
fn a_datagram_is_cut_to_the_buffer() {
    let datagram = [b'7'; 1030];
    assert_eq!(clip(&datagram, 1024), &datagram[..1024]);
    assert_eq!(clip(&datagram, 1030), &datagram[..]);
    assert_eq!(clip(&datagram, 2000), &datagram[..]);
    assert_eq!(clip(&datagram, 0), &datagram[..0]);
    assert_eq!(clip(b"10.0.0.5", 1024), b"10.0.0.5");
    assert_eq!(clip(b"", 1024), b"");
}

#[test]
fn an_oversized_datagram_blocks_its_first_kilobyte() {
    let mut cache = BlockCache::new();
    let datagram = [b'7'; 1030];
    let outcome = ingest(&mut cache, clip(&datagram, 1024), 1);
    let expected = "7".repeat(1024);
    assert_eq!(outcome, Ingest::Blocked { command: add_rule(&expected), renewed: false });
    assert_eq!(cache.get(&expected), Some(1));
}

#[test]
fn a_datagram_cut_inside_a_character_is_dropped() {
    let mut cache = BlockCache::new();
    let text = "ab\u{e9}";
    assert_eq!(text.len(), 4);
    assert_eq!(ingest(&mut cache, clip(text.as_bytes(), 3), 1), Ingest::Rejected);
    assert!(cache.is_empty());
}

#[test]
fn distinct_addresses_all_land_in_any_order() {
    let addresses: Vec<String> = (0..50).map(|i| format!("10.1.{}.{}", i / 7, i)).collect();
    let mut forward = BlockCache::new();
    let mut commands = 0;
    for (i, a) in addresses.iter().enumerate() {
        match ingest(&mut forward, a.as_bytes(), i as u64) {
            Ingest::Blocked { command, renewed } => {
                assert_eq!(command, add_rule(a));
                assert!(!renewed);
                commands += 1;
            }
            Ingest::Rejected => panic!("a readable payload was dropped"),
        }
    }
    assert_eq!(commands, 50);
    assert_eq!(forward.len(), 50);
    let mut backward = BlockCache::new();
    for (i, a) in addresses.iter().enumerate().rev() {
        ingest(&mut backward, a.as_bytes(), i as u64);
    }
    assert_eq!(backward.len(), 50);
    for (i, a) in addresses.iter().enumerate() {
        assert_eq!(forward.get(a), Some(i as u64));
        assert_eq!(backward.get(a), Some(i as u64));
    }
}
