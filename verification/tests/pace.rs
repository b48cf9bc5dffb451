use bulls_and_cows::play::players::remaining_delay;

#[test]
fn remaining_delay_is_what_is_left_of_the_turn() {
    assert_eq!(750, remaining_delay(750, 0));
    assert_eq!(500, remaining_delay(750, 250));
    assert_eq!(1, remaining_delay(750, 749));
    assert_eq!(0, remaining_delay(750, 750));
    assert_eq!(0, remaining_delay(750, 751));
    assert_eq!(0, remaining_delay(0, 0));
    assert_eq!(0, remaining_delay(750, u128::MAX));
    assert_eq!(u64::MAX, remaining_delay(u64::MAX, 0));
}
