use rust_macro::utils::Compress;
use rust_macro::{fmt_bitvec, fmt_u2bit, is_palindrome, to_base};

#[test]
fn test_is_palindrome() {
    assert!(is_palindrome(vec![1, 2, 3, 2, 1]));
    assert!(is_palindrome(vec![1, 2, 2, 1]));
    assert!(is_palindrome(vec![5]));
    assert!(is_palindrome(Vec::<i32>::new()));
    assert!(!is_palindrome(vec![1, 2, 3, 4]));
    assert!(is_palindrome("racecar".chars().collect()));
    assert!(!is_palindrome("hello".chars().collect()));
}

#[test]
fn test_to_base() {
    assert_eq!(to_base(0, 2), vec![0]);
    assert_eq!(to_base(10, 2), vec![1, 0, 1, 0]);
    assert_eq!(to_base(255, 16), vec![15, 15]);
    assert_eq!(to_base(8, 3), vec![2, 2]);
    assert_eq!(to_base(27, 3), vec![1, 0, 0, 0]);
    assert_eq!(to_base(123, 10), vec![1, 2, 3]);
}

#[test]
fn test_to_base_digits_are_in_range_and_denote_the_number() {
    for base in 2..12usize {
        for n in 0..300usize {
            let digits = to_base(n, base);
            assert!(digits.iter().all(|&d| d < base));
            assert_eq!(digits.iter().fold(0, |acc, &d| acc * base + d), n);
            assert!(n == 0 || digits[0] != 0);
        }
    }
    assert_eq!(to_base(usize::MAX, 2).len(), usize::BITS as usize);
}

#[test]
fn test_fmt_u2bit() {
    assert_eq!(fmt_u2bit(0), "0".repeat(30));
    assert_eq!(fmt_u2bit(5), format!("{}101", "0".repeat(27)));
    assert_eq!(fmt_u2bit((1 << 30) | 1), format!("{}1", "0".repeat(29)));
    assert_eq!(fmt_u2bit((1 << 29) | 2), format!("1{}10", "0".repeat(27)));
}

#[test]
fn test_fmt_bitvec() {
    assert_eq!(fmt_bitvec(&[true, false, false, true]), "1001");
    assert_eq!(fmt_bitvec(&[]), "");
}

#[test]
fn test_compress_numbers_distinct_values_in_order() {
    let c = Compress::new(vec![100, 200, 100, 300]);
    assert_eq!(c.get(&100), 0);
    assert_eq!(c.get(&200), 1);
    assert_eq!(c.get(&300), 2);
    assert_eq!(c.size(), 3);
    assert_eq!(*c.rev(0), 100);
    assert_eq!(*c.rev(2), 300);
}

#[test]
fn test_compress_round_trips_every_value() {
    let values = vec![-5i64, 9, 9, 0, -5, 3, 1 << 40, 3];
    let c = Compress::new(values.clone());
    assert_eq!(c.size(), 5);
    for v in &values {
        assert_eq!(c.rev(c.get(v)), v);
    }
    for i in 1..c.size() {
        assert!(c.rev(i - 1) < c.rev(i));
    }
    assert_eq!(Compress::<u8>::new(vec![]).size(), 0);
    let words = Compress::new(vec!["pear".to_string(), "apple".to_string(), "pear".to_string()]);
    assert_eq!(words.get(&"apple".to_string()), 0);
    assert_eq!(words.get(&"pear".to_string()), 1);
}
