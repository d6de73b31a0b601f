use ring_dht::addr::Addr;
use ring_dht::error::DhtError;
use ring_dht::wire::{make_envelope, parse_addr, parse_envelope, parse_message, Message, Side};

fn addr(ip: &str, port: u32) -> Addr {
    Addr { ip: String::from(ip), port }
}

#[test]
fn parses_init_connect_envelope() {
    let e = parse_envelope(b"SRC:127.0.0.1:9000;MSG:INIT CONNECT").unwrap();
    assert_eq!(e.source, addr("127.0.0.1", 9000));
    assert_eq!(e.message, Message::InitConnect);
}

#[test]
fn parses_each_command() {
    let j = parse_envelope(b"SRC:1.2.3.4:5;MSG:JOIN:LFT:127.0.0.1:8001").unwrap();
    assert_eq!(j.source, addr("1.2.3.4", 5));
    assert_eq!(j.message, Message::Join(Side::Left, addr("127.0.0.1", 8001)));
    let r = parse_message(b"REQINS:RGT:10.0.0.1:70").unwrap();
    assert_eq!(r, Message::ReqIns(Side::Right, addr("10.0.0.1", 70)));
    let i = parse_message(b"INS:LFT:h:0").unwrap();
    assert_eq!(i, Message::Ins(Side::Left, addr("h", 0)));
}

#[test]
fn address_port_follows_the_last_colon() {
    assert_eq!(parse_addr(b"::1:8000"), Some(addr("::1", 8000)));
    assert_eq!(parse_addr(b"127.0.0.1:0042"), Some(addr("127.0.0.1", 42)));
    assert_eq!(parse_addr(b"h:4294967295"), Some(addr("h", 4294967295)));
}

#[test]
fn rejects_bad_addresses() {
    assert_eq!(parse_addr(b"127.0.0.1"), None);
    assert_eq!(parse_addr(b":8000"), None);
    assert_eq!(parse_addr(b"127.0.0.1:"), None);
    assert_eq!(parse_addr(b"127.0.0.1:80a"), None);
    assert_eq!(parse_addr(b"h:4294967296"), None);
    assert_eq!(parse_addr(b"\xff\xfe:80"), None);
}

#[test]
fn rejects_bad_envelopes() {
    assert_eq!(parse_envelope(b"").unwrap_err(), DhtError::Decode);
    assert_eq!(parse_envelope(b"SRC:1.2.3.4:5").unwrap_err(), DhtError::Decode);
    assert_eq!(parse_envelope(b"SRX:1.2.3.4:5;MSG:INIT CONNECT").unwrap_err(), DhtError::Decode);
    assert_eq!(parse_envelope(b"SRC:1.2.3.4:5;MSX:INIT CONNECT").unwrap_err(), DhtError::Decode);
    assert_eq!(parse_envelope(b"SRC:1.2.3.4;MSG:INIT CONNECT").unwrap_err(), DhtError::Decode);
}

#[test]
fn rejects_bad_payloads() {
    assert_eq!(parse_message(b"INIT  CONNECT").unwrap_err(), DhtError::Decode);
    assert_eq!(parse_message(b"HELLO:LFT:h:1").unwrap_err(), DhtError::Decode);
    assert_eq!(parse_message(b"JOIN:UP:h:1").unwrap_err(), DhtError::Decode);
    assert_eq!(parse_message(b"JOIN:LFT").unwrap_err(), DhtError::Decode);
    assert_eq!(parse_message(b"JOIN:LFTxh:1").unwrap_err(), DhtError::Decode);
    assert_eq!(parse_message(b"INS:RGT:h:port").unwrap_err(), DhtError::Decode);
    assert_eq!(parse_message(b"").unwrap_err(), DhtError::Decode);
}

#[test]
fn encodes_messages() {
    assert_eq!(Message::InitConnect.encode(), b"INIT CONNECT".to_vec());
    assert_eq!(
        Message::Join(Side::Left, addr("127.0.0.1", 8000)).encode(),
        b"JOIN:LFT:127.0.0.1:8000".to_vec()
    );
    assert_eq!(
        Message::ReqIns(Side::Right, addr("h", 7)).encode(),
        b"REQINS:RGT:h:7".to_vec()
    );
    assert_eq!(Message::Ins(Side::Right, addr("h", 7)).encode(), b"INS:RGT:h:7".to_vec());
}

#[test]
fn envelope_round_trip() {
    let m = Message::ReqIns(Side::Left, addr("10.1.2.3", 65000));
    let b = make_envelope(&addr("127.0.0.1", 8000), &m.encode());
    assert_eq!(b, b"SRC:127.0.0.1:8000;MSG:REQINS:LFT:10.1.2.3:65000".to_vec());
    let e = parse_envelope(&b).unwrap();
    assert_eq!(e.source, addr("127.0.0.1", 8000));
    assert_eq!(e.message, m);
}
