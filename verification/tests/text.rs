use proxy::text::{decimal_string, endpoint_string};

#[test]
fn decimal_of_zero_is_one_digit() {
    assert_eq!(decimal_string(0), "0");
}

#[test]
fn decimal_has_no_leading_zero() {
    assert_eq!(decimal_string(7), "7");
    assert_eq!(decimal_string(10), "10");
    assert_eq!(decimal_string(8332), "8332");
    assert_eq!(decimal_string(65535), "65535");
}

#[test]
fn endpoint_joins_host_and_port_with_a_colon() {
    assert_eq!(endpoint_string(&String::from("127.0.0.1"), 8332), "127.0.0.1:8332");
    assert_eq!(endpoint_string(&String::from("node.example"), 0), "node.example:0");
}
