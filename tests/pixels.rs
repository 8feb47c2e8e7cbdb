use gouache::pixels::{flip, nearest_pow_2};

#[test]
fn nearest_pow_2_rounds_up() {
    assert_eq!(nearest_pow_2(1), 1);
    assert_eq!(nearest_pow_2(2), 2);
    assert_eq!(nearest_pow_2(3), 4);
    assert_eq!(nearest_pow_2(5), 8);
    assert_eq!(nearest_pow_2(16), 16);
    assert_eq!(nearest_pow_2(17), 32);
    assert_eq!(nearest_pow_2(1000), 1024);
    assert_eq!(nearest_pow_2(0x8000_0000), 0x8000_0000);
    assert_eq!(nearest_pow_2(0x4000_0001), 0x8000_0000);
}

#[test]
fn flip_reverses_rows() {
    assert_eq!(flip(&[1, 2, 3, 4, 5, 6], 2), vec![5, 6, 3, 4, 1, 2]);
    assert_eq!(flip(&[1, 2, 3, 4, 5, 6], 3), vec![4, 5, 6, 1, 2, 3]);
    assert_eq!(flip(&[1, 2, 3, 4, 5, 6], 6), vec![1, 2, 3, 4, 5, 6]);
}

#[test]
fn flip_short_first_row() {
    assert_eq!(flip(&[1, 2, 3, 4, 5, 6], 4), vec![3, 4, 5, 6, 1, 2]);
    assert_eq!(flip(&[], 4), Vec::<u8>::new());
}
