use claudiofsr_lib::options::combine_with;
use claudiofsr_lib::options::combine_with_div;
use claudiofsr_lib::options::combine_with_mul;
use claudiofsr_lib::options::combine_with_sub;
use claudiofsr_lib::options::combine_with_sum;
use claudiofsr_lib::options::OptionExtension;

#[test]
fn retain_only_digits_empty_string() {
    let opt_str: Option<&str> = None;
    assert_eq!(opt_str.retain_only_digits(), None);
}

#[test]
fn retain_only_digits_non_digit_characters() {
    let opt_str: Option<&str> = Some("abc123-def;!456@ ");
    assert_eq!(opt_str.retain_only_digits(), Some("123456".to_string()));
}

#[test]
fn retain_only_digits_all_digits() {
    let opt_str: Option<String> = Some("0123456789".to_string());
    assert_eq!(opt_str.retain_only_digits(), Some("0123456789".to_string()));
}

#[test]
fn retain_only_digits_no_digits() {
    let opt_str: Option<&str> = Some("abcdefg");
    assert_eq!(opt_str.retain_only_digits(), None);
}

#[test]
fn combining_two_options() {
    let a: Option<u64> = Some(50);
    let b: Option<u64> = Some(10);
    let none: Option<u64> = None;

    assert_eq!(combine_with_sum(a, b), Some(60));
    assert_eq!(combine_with_sub(a, b), Some(40));
    assert_eq!(combine_with_mul(a, b), Some(500));
    assert_eq!(combine_with_div(a, b), Some(5));
    assert_eq!(combine_with_sum(a, none), None);
    assert_eq!(combine_with_div(none, b), None);

    let concat = combine_with(Some(5u64), Some(10u64), |x: u64, y: u64| x * 100 + y);
    assert_eq!(concat, Some(510));
}
