use bit_string::{BitString, WORD_BITS};

fn collect_bits(bits: &BitString) -> Vec<bool> {
    let mut out = Vec::new();
    let mut iter = bits.iter();
    while let Some(value) = iter.next() {
        out.push(value);
    }
    out
}

#[test]
fn builds_empty_bit_string_from_empty_iter() {
    let bits = BitString::from_bool_iter(&[]);

    assert_eq!(bits.bit_len(), 0);
    assert!(bits.is_empty());
    assert_eq!(bits.to_string(), "");
    assert_eq!(bits.count_ones(), 0);
    assert_eq!(bits.count_zeros(), 0);
}

#[test]
fn builds_single_partial_word() {
    let bits = BitString::from_bool_iter(&[true, false, true, true, false]);

    assert_eq!(bits.bit_len(), 5);
    assert_eq!(bits.to_string(), "10110");
    assert_eq!(bits.count_ones(), 3);
    assert_eq!(bits.count_zeros(), 2);

    assert_eq!(bits.get(0), Some(true));
    assert_eq!(bits.get(1), Some(false));
    assert_eq!(bits.get(2), Some(true));
    assert_eq!(bits.get(3), Some(true));
    assert_eq!(bits.get(4), Some(false));
    assert_eq!(bits.get(5), None);
}

#[test]
fn builds_exactly_one_full_word() {
    let values: Vec<bool> = (0..WORD_BITS).map(|index| index % 2 == 0).collect();
    let bits = BitString::from_bool_iter(&values);

    assert_eq!(bits.bit_len(), WORD_BITS);
    assert_eq!(bits.count_ones(), WORD_BITS / 2);
    assert_eq!(bits.count_zeros(), WORD_BITS / 2);

    for index in 0..WORD_BITS {
        assert_eq!(bits.get(index), Some(index % 2 == 0), "index={index}");
    }
}

#[test]
fn builds_across_word_boundary() {
    let len = WORD_BITS + 3;
    let values: Vec<bool> = (0..len).map(|index| matches!(index, 0 | 63 | 64 | 66)).collect();
    let bits = BitString::from_bool_iter(&values);

    assert_eq!(bits.bit_len(), len);
    assert_eq!(bits.count_ones(), 4);

    assert_eq!(bits.get(0), Some(true));
    assert_eq!(bits.get(63), Some(true));
    assert_eq!(bits.get(64), Some(true));
    assert_eq!(bits.get(65), Some(false));
    assert_eq!(bits.get(66), Some(true));
    assert_eq!(bits.get(67), None);
}

#[test]
fn preserves_iteration_order() {
    let values = [
        false, true, false, false, true, true, false, true, true, false,
    ];

    let bits = BitString::from_bool_iter(&values);

    assert_eq!(collect_bits(&bits), values);
    assert_eq!(bits.to_string(), "0100110110");
}

#[test]
fn leaves_unused_tail_bits_zero() {
    let bits = BitString::from_bool_iter(&[true]);

    assert_eq!(bits.bit_len(), 1);
    assert_eq!(bits.words(), &[1]);
}

#[test]
fn iterates_from_both_ends() {
    let bits = BitString::try_from("1100").unwrap();
    let mut iter = bits.iter();

    assert_eq!(iter.size_hint(), (4, Some(4)));
    assert_eq!(iter.next(), Some(true));
    assert_eq!(iter.next_back(), Some(false));
    assert_eq!(iter.size_hint(), (2, Some(2)));
    assert_eq!(iter.next_back(), Some(false));
    assert_eq!(iter.next(), Some(true));
    assert_eq!(iter.next(), None);
    assert_eq!(iter.next_back(), None);
    assert_eq!(iter.size_hint(), (0, Some(0)));
}
