use bit_string::BitString;

fn pattern(len: usize) -> BitString {
    let mut bits = BitString::new();
    for i in 0..len {
        bits.push(i % 5 == 0 || i % 11 == 3);
    }
    bits
}

#[test]
fn from_bool_slice_keeps_order() {
    let values = [true, false, false, true, true];
    let bits = BitString::from(&values[..]);
    assert_eq!(bits.to_string(), "10011");
    assert_eq!(bits.bit_len(), 5);
}

#[test]
fn from_bool_array_keeps_order() {
    let bits = BitString::from([false, true, true]);
    assert_eq!(bits.to_string(), "011");
    let empty = BitString::from([false; 0]);
    assert!(empty.is_empty());
    assert_eq!(empty.words().len(), 0);
}

#[test]
fn from_bool_array_across_words_matches_pushes() {
    let mut values = [false; 130];
    for (i, v) in values.iter_mut().enumerate() {
        *v = i % 5 == 0 || i % 11 == 3;
    }
    let bits: BitString = values.into();
    assert_eq!(bits, pattern(130));
    assert_eq!(bits.words().len(), 3);
}

#[test]
fn in_place_insert_shifts_tail_across_several_words() {
    // 300 bits use 5 words; 301 still do, so the tail moves in place.
    let mut bits = pattern(300);
    let text = bits.to_string();
    bits.insert(7, true);
    assert_eq!(bits.to_string(), format!("{}1{}", &text[..7], &text[7..]));
    assert_eq!(bits.words().len(), 5);
    assert_eq!(bits.count_ones() + bits.count_zeros(), 301);
}

#[test]
fn in_place_remove_shifts_tail_across_several_words() {
    let mut bits = pattern(300);
    let text = bits.to_string();
    let expected_bit = text.as_bytes()[7] == b'1';
    assert_eq!(bits.remove(7), expected_bit);
    assert_eq!(bits.to_string(), format!("{}{}", &text[..7], &text[8..]));
    assert_eq!(bits.words().len(), 5);
    // The vacated top bit is clear in storage.
    let last = *bits.words().last().unwrap();
    assert_eq!(last >> (299 % 64), 0);
}

#[test]
fn remove_last_bit_in_place() {
    let mut bits = pattern(70);
    let text = bits.to_string();
    let expected_bit = text.as_bytes()[69] == b'1';
    assert_eq!(bits.remove(69), expected_bit);
    assert_eq!(bits.to_string(), text[..69].to_string());
}

#[test]
fn reverse_twice_is_same_value_and_assign_matches() {
    let bits = pattern(200);
    assert_eq!(bits.reverse_bits().reverse_bits(), bits);
    let mut in_place = bits.clone();
    in_place.reverse_bits_assign();
    assert_eq!(in_place, bits.reverse_bits());
    assert_eq!(in_place.words(), bits.reverse_bits().words());
}
