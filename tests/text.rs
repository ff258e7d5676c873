use smpl_vm::text::{push_decimal, text};

#[test]
fn push_decimal_writes_digits_without_leading_zeros() {
    let mut s = text("n=");
    push_decimal(&mut s, 0);
    assert_eq!(s, "n=0");
    let mut s = String::new();
    push_decimal(&mut s, 1203);
    assert_eq!(s, "1203");
    let mut s = String::new();
    push_decimal(&mut s, usize::MAX);
    assert_eq!(s, usize::MAX.to_string());
}
