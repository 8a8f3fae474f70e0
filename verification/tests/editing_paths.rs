use bit_string::BitString;

fn pattern(len: usize) -> BitString {
    let mut bits = BitString::new();
    for i in 0..len {
        bits.push(i % 3 == 0 || i % 7 == 1);
    }
    bits
}

fn expected_insert(host: &BitString, index: usize, rhs: &BitString) -> String {
    let text = host.to_string();
    format!("{}{}{}", &text[..index], rhs.to_string(), &text[index..])
}

#[test]
fn insert_bit_string_long_insert_into_spare_capacity() {
    for (host_len, index, rhs_len) in [(200, 5, 70), (130, 64, 64), (257, 100, 130), (300, 0, 65)] {
        let mut bits = pattern(host_len);
        let host = bits.clone();
        let rhs = pattern(rhs_len).not();
        bits.insert_bit_string(index, &rhs);
        assert_eq!(bits.to_string(), expected_insert(&host, index, &rhs), "host={host_len}");
        assert_eq!(bits.words().len(), (host_len + rhs_len + 63) / 64);
    }
}

#[test]
fn insert_bit_string_short_insert_reallocates() {
    let mut bits = pattern(150);
    let host = bits.clone();
    let rhs = BitString::try_from("0110").unwrap();
    bits.insert_bit_string(77, &rhs);
    assert_eq!(bits.to_string(), expected_insert(&host, 77, &rhs));
}

#[test]
fn push_bit_string_into_spare_capacity_and_fresh_buffer() {
    let mut grown = pattern(100);
    let rhs = pattern(90);
    let expected = format!("{}{}", grown.to_string(), rhs.to_string());
    grown.push_bit_string(&rhs);
    assert_eq!(grown.to_string(), expected);

    let mut fresh = BitString::ones(64);
    fresh.push_bit_string(&rhs);
    assert_eq!(fresh.to_string(), format!("{}{}", "1".repeat(64), rhs.to_string()));
}

#[test]
fn insert_and_remove_in_place_and_reallocating() {
    let mut bits = pattern(100);
    let host = bits.to_string();
    bits.insert(50, true);
    assert_eq!(bits.to_string(), format!("{}1{}", &host[..50], &host[50..]));
    assert!(bits.remove(50));
    assert_eq!(bits.to_string(), host);

    let mut edge = pattern(128);
    let edge_text = edge.to_string();
    edge.insert(3, false);
    assert_eq!(edge.words().len(), 3);
    assert!(!edge.remove(3));
    assert_eq!(edge.words().len(), 2);
    assert_eq!(edge.to_string(), edge_text);
}

#[test]
fn reverse_bits_across_many_words() {
    let bits = pattern(200);
    let expected: String = bits.to_string().chars().rev().collect();
    assert_eq!(bits.reverse_bits().to_string(), expected);
}

#[test]
fn shifts_across_many_words() {
    let bits = pattern(150);
    let text = bits.to_string();
    assert_eq!(bits.shl(70).to_string(), format!("{}{}", "0".repeat(70), &text[..80]));
    let mut right = bits.clone();
    right.shr_assign(70);
    assert_eq!(right.to_string(), format!("{}{}", &text[70..], "0".repeat(70)));
}
