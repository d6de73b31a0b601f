use ring_dht::addr::{calculate_hash, Addr};

fn addr(ip: &str, port: u32) -> Addr {
    Addr { ip: String::from(ip), port }
}

#[test]
fn to_string_writes_ip_colon_port() {
    assert_eq!(addr("127.0.0.1", 8000).to_string(), "127.0.0.1:8000");
    assert_eq!(addr("10.0.0.7", 65535).to_string(), "10.0.0.7:65535");
    assert_eq!(addr("h", 0).to_string(), "h:0");
    assert_eq!(addr("h", 4294967295).to_string(), "h:4294967295");
}

#[test]
fn text_is_the_wire_form() {
    assert_eq!(addr("127.0.0.1", 8000).text(), b"127.0.0.1:8000".to_vec());
    assert_eq!(addr("h", 90).text(), b"h:90".to_vec());
}

#[test]
fn hash_is_fnv1a_of_the_text() {
    assert_eq!(calculate_hash(&addr("127.0.0.1", 8000)), 2077807245346581316);
    assert_eq!(calculate_hash(&addr("127.0.0.1", 8001)), 2077808344858209527);
    assert_eq!(calculate_hash(&addr("10.0.0.7", 65535)), 15360733696608159401);
}

#[test]
fn hash_of_equal_addresses_is_equal() {
    let a = addr("192.168.1.20", 4000);
    let b = addr("192.168.1.20", 4000);
    assert_eq!(calculate_hash(&a), calculate_hash(&b));
    assert_eq!(calculate_hash(&a), calculate_hash(&a));
    assert_ne!(calculate_hash(&a), calculate_hash(&addr("192.168.1.20", 4001)));
}

#[test]
fn fnv1a_of_nothing_is_the_offset_basis() {
    assert_eq!(ring_dht::addr::fnv1a_bytes(&[]), 14695981039346656037);
}
