use mycelium::metric::Metric;
use mycelium::sequence_number::SeqNo;

#[test]
fn metric_addition_saturates() {
    assert_eq!(Metric::new(0xFFF0).add(Metric::new(0x20)), Metric::infinite());
    assert_eq!(Metric::new(10).add(Metric::new(5)), Metric::new(15));
    assert!(Metric::infinite().add(Metric::new(0)).is_infinite());
}

#[test]
fn seqno_wraps_around() {
    assert!(SeqNo::new(0xFFFF).lt(&SeqNo::new(0)));
    assert!(!SeqNo::new(0).lt(&SeqNo::new(0xFFFF)));
}

#[test]
fn peer_addresses_are_built() {
    assert_eq!(
        mycelium::admin::peers_url("127.0.0.1:8989"),
        "http://127.0.0.1:8989/api/v1/admin/peers"
    );
    assert_eq!(
        mycelium::admin::peer_url("127.0.0.1:8989", "tcp://[2001:db8::1]:9651"),
        "http://127.0.0.1:8989/api/v1/admin/peers/tcp%3A%2F%2F%5B2001%3Adb8%3A%3A1%5D%3A9651"
    );
    assert_eq!(
        mycelium::admin::encoded_peer_url("host", "a%20b"),
        "http://host/api/v1/admin/peers/a%20b"
    );
}
