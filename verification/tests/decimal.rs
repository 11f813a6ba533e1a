use ray_tracer::decimal::push_decimal;

#[test]
fn decimal_of_small_and_large_numbers() {
    let cases: [(usize, &str); 9] = [
        (0, "0"),
        (7, "7"),
        (9, "9"),
        (10, "10"),
        (99, "99"),
        (100, "100"),
        (255, "255"),
        (1000, "1000"),
        (1234567890, "1234567890"),
    ];
    for (n, expected) in cases {
        let mut text = String::new();
        push_decimal(&mut text, n);
        assert_eq!(text, expected);
    }
}

#[test]
fn decimal_of_the_largest_number() {
    let mut text = String::new();
    push_decimal(&mut text, usize::MAX);
    assert_eq!(text, usize::MAX.to_string());
}

#[test]
fn decimal_is_appended_to_what_is_there() {
    let mut text = String::from("n = ");
    push_decimal(&mut text, 42);
    push_decimal(&mut text, 0);
    assert_eq!(text, "n = 420");
}
