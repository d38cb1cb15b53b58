use rust_macro::dp::digit_dp::MOD;
use rust_macro::dp::{DigitDP, DigitDPRules};

struct CountAll;

impl DigitDPRules for CountAll {
    type State = ();
    fn init(&self) -> Self::State {
        ()
    }
    fn transition(
        &self,
        _i: usize,
        _tight: bool,
        _state: &Self::State,
        lim: u32,
    ) -> Vec<(u32, Self::State)> {
        (0..=lim).map(|d| (d, ())).collect()
    }
    fn is_accept(&self, _state: &Self::State) -> bool {
        true
    }
}

#[test]
fn test_count_all_numbers() {
    assert_eq!(DigitDP::solve("99", &CountAll), 100);
}

struct LastDigitEven;

impl DigitDPRules for LastDigitEven {
    type State = bool;
    fn init(&self) -> Self::State {
        false
    }
    fn transition(
        &self,
        _i: usize,
        _tight: bool,
        _state: &Self::State,
        lim: u32,
    ) -> Vec<(u32, Self::State)> {
        (0..=lim).map(|d| (d, d % 2 == 0)).collect()
    }
    fn is_accept(&self, &is_even: &Self::State) -> bool {
        is_even
    }
}

#[test]
fn test_count_even_numbers() {
    assert_eq!(DigitDP::solve("10", &LastDigitEven), 6);
}

#[test]
fn test_single_digit() {
    assert_eq!(DigitDP::solve("5", &CountAll), 6);
}

struct DigitSum {
    target_sum: u32,
}

impl DigitDPRules for DigitSum {
    type State = u32;
    fn init(&self) -> Self::State {
        0
    }
    fn transition(
        &self,
        _i: usize,
        _tight: bool,
        &sum: &Self::State,
        lim: u32,
    ) -> Vec<(u32, Self::State)> {
        (0..=lim).map(|d| (d, sum + d)).collect()
    }
    fn is_accept(&self, &sum: &Self::State) -> bool {
        sum == self.target_sum
    }
}

#[test]
fn test_digit_sum_equals_target() {
    assert_eq!(DigitDP::solve("99", &DigitSum { target_sum: 9 }), 10);
}

struct NoRepeat;

impl DigitDPRules for NoRepeat {
    type State = (bool, u32);
    fn init(&self) -> Self::State {
        (true, 0)
    }
    fn transition(
        &self,
        _i: usize,
        _tight: bool,
        &(is_first, last_digit): &Self::State,
        lim: u32,
    ) -> Vec<(u32, Self::State)> {
        if is_first {
            (1..=lim).map(|d| (d, (false, d))).collect()
        } else {
            (0..=lim)
                .filter(|&d| d != last_digit)
                .map(|d| (d, (false, d)))
                .collect()
        }
    }
    fn is_accept(&self, _state: &Self::State) -> bool {
        true
    }
}

#[test]
fn test_no_consecutive_same_digits() {
    assert_eq!(DigitDP::solve("99", &NoRepeat), 81);
}

struct HasSeven;

impl DigitDPRules for HasSeven {
    type State = bool;
    fn init(&self) -> Self::State {
        false
    }
    fn transition(
        &self,
        _i: usize,
        _tight: bool,
        &has_seven: &Self::State,
        lim: u32,
    ) -> Vec<(u32, Self::State)> {
        (0..=lim).map(|d| (d, has_seven || d == 7)).collect()
    }
    fn is_accept(&self, &has_seven: &Self::State) -> bool {
        has_seven
    }
}

#[test]
fn test_contains_digit_7() {
    assert_eq!(DigitDP::solve("20", &HasSeven), 2);
}

struct Ascending;

impl DigitDPRules for Ascending {
    type State = (bool, u32);
    fn init(&self) -> Self::State {
        (true, 0)
    }
    fn transition(
        &self,
        _i: usize,
        _tight: bool,
        &(is_first, last_digit): &Self::State,
        lim: u32,
    ) -> Vec<(u32, Self::State)> {
        if is_first {
            (1..=lim).map(|d| (d, (false, d))).collect()
        } else {
            (last_digit..=lim).map(|d| (d, (false, d))).collect()
        }
    }
    fn is_accept(&self, _state: &Self::State) -> bool {
        true
    }
}

#[test]
fn test_ascending_digits() {
    assert_eq!(DigitDP::solve("999", &Ascending), 165);
}

struct Palindromes;

impl DigitDPRules for Palindromes {
    type State = Vec<u32>;
    fn init(&self) -> Self::State {
        Vec::new()
    }
    fn transition(
        &self,
        _i: usize,
        _tight: bool,
        digits: &Self::State,
        lim: u32,
    ) -> Vec<(u32, Self::State)> {
        (0..=lim)
            .map(|d| {
                let mut new_digits = digits.clone();
                new_digits.push(d);
                (d, new_digits)
            })
            .collect()
    }
    fn is_accept(&self, digits: &Self::State) -> bool {
        if digits.is_empty() {
            return false;
        }
        let s: String = digits
            .iter()
            .map(|&d| char::from_digit(d, 10).unwrap())
            .collect();
        let rev: String = s.chars().rev().collect();
        s == rev
    }
}

#[test]
fn test_palindrome_check() {
    assert_eq!(DigitDP::solve("99", &Palindromes), 10);
}

#[test]
fn test_zero_case() {
    assert_eq!(DigitDP::solve("0", &CountAll), 1);
}

#[test]
fn test_large_number() {
    assert_eq!(DigitDP::solve("1000", &CountAll), 1001);
}

#[test]
fn test_count_all_wraps_at_the_modulus() {
    assert_eq!(MOD, 1_000_000_007);
    assert_eq!(DigitDP::solve("1000000006", &CountAll), 0);
    assert_eq!(DigitDP::solve("1000000007", &CountAll), 1);
    assert_eq!(DigitDP::solve("999999999", &CountAll), 1_000_000_000);
}

#[test]
fn test_empty_numeral_counts_the_initial_state() {
    assert_eq!(DigitDP::solve("", &CountAll), 1);
    assert_eq!(DigitDP::solve("", &HasSeven), 0);
}

#[test]
fn test_leading_zeros_do_not_change_the_count() {
    assert_eq!(DigitDP::solve("0099", &CountAll), 100);
}
