use tchunk_pdf::text::{decimal_width, push_decimal, push_right_aligned, push_spaces, push_zero_padded};

#[test]
fn numbers_as_text() {
    for n in [0u64, 7, 10, 99, 100, 4294967295, u64::MAX] {
        let mut out = "x".to_string();
        push_decimal(&mut out, n);
        assert_eq!(out, format!("x{n}"));
        assert_eq!(decimal_width(n), n.to_string().len());
    }
}

#[test]
fn numbers_padded() {
    let mut out = String::new();
    push_right_aligned(&mut out, 42, 5);
    push_zero_padded(&mut out, 42, 5);
    push_zero_padded(&mut out, 123456, 3);
    push_spaces(&mut out, 2);
    assert_eq!(out, "   4200042123456  ");
}

#[test]
fn padded_numbers_stand_in_dictionary_order() {
    let mut names: Vec<String> = Vec::new();
    for n in [1u64, 2, 9, 10, 11, 99, 100, 999] {
        let mut name = String::new();
        push_zero_padded(&mut name, n, 3);
        names.push(name);
    }
    let mut sorted = names.clone();
    sorted.sort();
    assert_eq!(names, sorted);
}
