use snippets::gcd;
use snippets::gcd_list;
use snippets::lcm;

#[test]
fn test_ok() {
    assert_eq!(7, 1 + 2 * 3);
}

#[test]
fn test_gcd() {
    assert_eq!(gcd(57, 3), 3);
}

#[test]
fn test_lcm() {
    assert_eq!(lcm(3, 19), 57);
}

#[test]
fn gcd_handles_zero() {
    assert_eq!(gcd(0, 5), 5);
    assert_eq!(gcd(5, 0), 5);
    assert_eq!(gcd(0, 0), 0);
}

#[test]
fn gcd_of_coprime_values() {
    assert_eq!(gcd(35, 64), 1);
}

#[test]
fn lcm_exact_values() {
    assert_eq!(lcm(4, 6), 12);
    assert_eq!(lcm(7, 7), 7);
    assert_eq!(lcm(0, 9), 0);
}

#[test]
fn gcd_list_of_several() {
    assert_eq!(gcd_list(&[12, 18, 30]), 6);
}

#[test]
fn gcd_list_of_one() {
    assert_eq!(gcd_list(&[42]), 42);
}
