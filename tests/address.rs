use node_net::address::{SocketAddress, COMPACT_LEN};

fn addr(a: u8, b: u8, c: u8, d: u8, port: u16) -> SocketAddress {
    SocketAddress { a, b, c, d, port }
}

#[test]
fn compact_form_is_host_then_port_big_endian() {
    let x = addr(192, 168, 1, 20, 8080);
    assert_eq!(x.encode_compact(), vec![192, 168, 1, 20, 0x1f, 0x90]);
    assert_eq!(x.encode_compact().len(), COMPACT_LEN);
}

#[test]
fn compact_round_trip() {
    for x in [addr(0, 0, 0, 0, 0), addr(255, 255, 255, 255, 65535), addr(10, 0, 3, 7, 256), addr(127, 0, 0, 1, 255)] {
        assert_eq!(SocketAddress::decode_compact(&x.encode_compact()), Some(x));
    }
}

#[test]
fn compact_rejects_wrong_length() {
    assert_eq!(SocketAddress::decode_compact(&[]), None);
    assert_eq!(SocketAddress::decode_compact(&[1, 2, 3, 4, 5]), None);
    assert_eq!(SocketAddress::decode_compact(&[1, 2, 3, 4, 5, 6, 7]), None);
    assert_eq!(SocketAddress::decode_compact(&[1, 2, 3, 4, 5, 6]), Some(addr(1, 2, 3, 4, 0x0506)));
}

#[test]
fn text_form_is_dotted_host_and_port() {
    assert_eq!(addr(192, 168, 1, 20, 8080).encode_text(), b"192.168.1.20:8080".to_vec());
    assert_eq!(addr(0, 0, 0, 0, 0).encode_text(), b"0.0.0.0:0".to_vec());
    assert_eq!(addr(255, 255, 255, 255, 65535).encode_text(), b"255.255.255.255:65535".to_vec());
}

#[test]
fn text_round_trip() {
    for x in [addr(0, 0, 0, 0, 0), addr(255, 255, 255, 255, 65535), addr(10, 0, 3, 7, 256), addr(1, 22, 103, 9, 10)] {
        assert_eq!(SocketAddress::decode_text(&x.encode_text()), Some(x));
    }
}

#[test]
fn text_decodes_written_form() {
    assert_eq!(SocketAddress::decode_text(b"127.0.0.1:443"), Some(addr(127, 0, 0, 1, 443)));
}

#[test]
fn text_rejects_malformed() {
    for bad in [
        &b""[..],
        b"1.2.3.4",
        b"1.2.3:4",
        b"256.0.0.1:80",
        b"1.2.3.4:65536",
        b"01.2.3.4:80",
        b"1.2.3.4:080",
        b"1.2.3.4:80 ",
        b" 1.2.3.4:80",
        b"1.2.3.4.5:80",
        b"1..3.4:80",
        b"1.2.3.4:",
        b"99999999999.1.1.1:1",
    ] {
        assert_eq!(SocketAddress::decode_text(bad), None, "{:?}", bad);
    }
}
