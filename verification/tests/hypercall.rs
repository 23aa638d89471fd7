use qhyper::error::{HvError, HvErrorNum};
use qhyper::hypercall::{HyperCall, HyperCallID, PerCpu};

#[test]
fn call_numbers_stand_for_their_calls() {
    let all = [
        (0u64, HyperCallID::VirtioInit),
        (1, HyperCallID::VirtioInjectIrq),
        (2, HyperCallID::CellStart),
        (3, HyperCallID::CellOff),
        (4, HyperCallID::CellList),
        (20, HyperCallID::ClearInjectIrq),
        (5, HyperCallID::IvcInfo),
    ];
    for (number, id) in all {
        assert_eq!(HyperCallID::try_from(number), Ok(id));
        assert_eq!(u64::from(id), number);
        let back: u64 = id.into();
        assert_eq!(back, number);
    }
    for number in [6u64, 7, 19, 21, 100, u64::MAX] {
        assert_eq!(HyperCallID::try_from(number), Err(number));
    }
}

#[test]
fn every_call_returns_zero_for_now() {
    let mut cpu = PerCpu { id: 3 };
    let mut calls = HyperCall::new(&mut cpu);
    for id in [0u64, 1, 2, 3, 4, 5, 20] {
        assert!(matches!(calls.hypercall(id, 0x1000, 0x2000), Ok(0)));
    }
    assert!(matches!(calls.hv_virtio_init(0x4000_0000), Ok(0)));
}

#[test]
fn unknown_call_is_no_error() {
    let mut cpu = PerCpu { id: 0 };
    let mut calls = HyperCall::new(&mut cpu);
    for id in [6u64, 21, 0xdead_beef, u64::MAX] {
        assert!(matches!(calls.hypercall(id, 1, 2), Ok(0)));
    }
}

#[test]
fn error_numbers_are_posix() {
    let all = [
        (HvErrorNum::EPERM, 1, "Operation not permitted"),
        (HvErrorNum::ENOENT, 2, "No such file or directory"),
        (HvErrorNum::EIO, 5, "I/O error"),
        (HvErrorNum::E2BIG, 7, "Argument list too long"),
        (HvErrorNum::ENOMEM, 12, "Out of memory"),
        (HvErrorNum::EFAULT, 14, "Bad address"),
        (HvErrorNum::EBUSY, 16, "Device or resource busy"),
        (HvErrorNum::EEXIST, 17, "File exists"),
        (HvErrorNum::ENODEV, 19, "No such device"),
        (HvErrorNum::EINVAL, 22, "Invalid argument"),
        (HvErrorNum::ERANGE, 34, "Math result not representable"),
        (HvErrorNum::ENOSYS, 38, "Function not implemented"),
    ];
    for (num, number, text) in all {
        assert_eq!(num.number(), number);
        assert_eq!(num.as_str(), text);
        let e = HvError::new(num, "src/cell.rs", 10, 4, None);
        assert_eq!(e.code(), -(number as isize));
    }
}

#[test]
fn error_carries_where_it_was_raised() {
    let e = HvError::new(HvErrorNum::EINVAL, "src/cell.rs", 42, 7, Some(String::from("bad id")));
    assert_eq!(e.num, HvErrorNum::EINVAL);
    assert_eq!(e.loc_file, "src/cell.rs");
    assert_eq!(e.loc_line, 42);
    assert_eq!(e.loc_col, 7);
    assert_eq!(e.msg.as_deref(), Some("bad id"));
    assert_eq!(e.code(), -22);
}
