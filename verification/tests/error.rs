use qhyper::error::{decimal, HvError, HvErrorNum};

#[test]
fn report_without_message() {
    let e = HvError::new(HvErrorNum::ENOMEM, "src/mem/heap.rs", 120, 9, None);
    assert_eq!(e.report(), "[src/mem/heap.rs:120:9] Out of memory");
}

#[test]
fn report_with_message() {
    let e = HvError::new(
        HvErrorNum::EINVAL,
        "src/cell.rs",
        7,
        33,
        Some(String::from("cell id 5 is taken")),
    );
    assert_eq!(e.report(), "[src/cell.rs:7:33] Invalid argument: cell id 5 is taken");
    let empty = HvError::new(HvErrorNum::EIO, "", 0, 0, Some(String::new()));
    assert_eq!(empty.report(), "[:0:0] I/O error: ");
}

#[test]
fn decimal_has_no_leading_zeros() {
    assert_eq!(decimal(0), "0");
    assert_eq!(decimal(7), "7");
    assert_eq!(decimal(10), "10");
    assert_eq!(decimal(1234567890), "1234567890");
    assert_eq!(decimal(100), "100");
    assert_eq!(decimal(u32::MAX), "4294967295");
}

#[test]
fn code_is_the_negative_number() {
    assert_eq!(HvError::new(HvErrorNum::EPERM, "f", 1, 1, None).code(), -1);
    assert_eq!(HvError::new(HvErrorNum::ENOSYS, "f", 1, 1, None).code(), -38);
}
