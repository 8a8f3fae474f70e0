use bit_string::{BitString, Interval};

fn bits(text: &str) -> BitString {
    BitString::try_from(text).unwrap()
}

#[test]
fn law_reverse_twice_gives_back_input() {
    let x = bits("1101000111010");
    assert_eq!(x.reverse_bits().reverse_bits(), x);
    assert_eq!(x.reverse_bits().count_ones(), x.count_ones());
}

#[test]
fn law_not_twice_gives_back_input() {
    let x = bits("1101000111010110011");
    assert_eq!(x.not().not(), x);
    assert_eq!(x.not().to_string(), "0010111000101001100");
}

#[test]
fn law_push_then_pop_gives_back_bit_and_input() {
    for value in [false, true] {
        let x = BitString::ones(64);
        let mut y = x.clone();
        y.push(value);
        assert_eq!(y.pop(), Some(value));
        assert_eq!(y, x);
    }
}

#[test]
fn law_insert_then_remove_gives_back_bit_and_input() {
    let x = bits("10011");
    for index in [0, 2, 5, 9] {
        let mut y = x.clone();
        y.insert(index, true);
        assert!(y.remove(index.min(x.bit_len())));
        assert_eq!(y, x);
    }
}

#[test]
fn law_split_off_then_push_bit_string_gives_back_input() {
    let x = bits("1011001110001");
    for at in [0, 1, 6, 13, 20] {
        let mut left = x.clone();
        let right = left.split_off(at);
        left.push_bit_string(&right);
        assert_eq!(left, x);
    }
}

#[test]
fn law_insert_bit_string_at_end_is_push_bit_string() {
    let x = bits("101");
    let rhs = bits("0011");
    let mut a = x.clone();
    a.insert_bit_string(x.bit_len(), &rhs);
    let mut b = x.clone();
    b.push_bit_string(&rhs);
    assert_eq!(a, b);
    assert_eq!(a.to_string(), "1010011");
}

#[test]
fn law_replace_interval_with_own_slice_changes_nothing() {
    let x = bits("111000101011");
    for (start, end) in [(0, 3), (3, 9), (5, 12), (2, 40), (20, 30)] {
        let interval = Interval::try_new(start, end).unwrap();
        assert_eq!(x.replace_interval(interval, &x.slice(interval)), x);
    }
}

#[test]
fn law_drain_interval_is_replace_with_empty() {
    let x = bits("111000101011");
    for (start, end) in [(0, 3), (3, 9), (5, 12), (2, 40), (20, 30)] {
        let interval = Interval::try_new(start, end).unwrap();
        let drained = x.drain_interval(interval);
        assert_eq!(drained, x.replace_interval(interval, &BitString::new()));
        assert_eq!(drained.bit_len() + x.slice(interval).bit_len(), x.bit_len());
    }
}

#[test]
fn law_replace_same_length_keeps_length() {
    let x = bits("00111100");
    let interval = Interval::try_new(1, 4).unwrap();
    let y = x.replace_interval(interval, &bits("010"));
    assert_eq!(y.bit_len(), x.bit_len());
    assert_eq!(y.to_string(), "00101100");
}

#[test]
fn law_retain_all_or_none() {
    let x = bits("0110101");
    let mut all = x.clone();
    all.retain(|_| true);
    assert_eq!(all, x);
    let mut none = x.clone();
    none.retain(|_| false);
    assert!(none.is_empty());
}

#[test]
fn law_count_ones_plus_count_zeros_is_len() {
    for text in ["", "0", "1", "1011001", "11111111111111111111111111111111111111111111111111111111111111110"] {
        let x = bits(text);
        assert_eq!(x.count_ones() + x.count_zeros(), x.bit_len());
        assert_eq!(x.count_ones() + x.not().count_ones(), x.bit_len());
    }
}

#[test]
fn law_from_words_rebuilds_from_own_words() {
    let x = BitString::ones(130);
    assert_eq!(BitString::from_words(x.words(), x.bit_len()).unwrap(), x);
}

#[test]
fn law_parse_of_display_gives_back_input() {
    let x = bits("0100110110000111");
    let text = x.to_string();
    assert_eq!(BitString::try_from(text.as_str()).unwrap(), x);
}
