use gfx::win_except::WinResult;

#[test]
fn zero_reports_failure() {
    assert!(0i8.is_error());
    assert!(0i16.is_error());
    assert!(0i32.is_error());
    assert!(0i64.is_error());
    assert!(0i128.is_error());
    assert!(0isize.is_error());
    assert!(0u8.is_error());
    assert!(0u16.is_error());
    assert!(0u32.is_error());
    assert!(0u64.is_error());
    assert!(0u128.is_error());
    assert!(0usize.is_error());
}

#[test]
fn anything_else_reports_success() {
    assert!(!1i8.is_error());
    assert!(!(-1i16).is_error());
    assert!(!i32::MIN.is_error());
    assert!(!i64::MAX.is_error());
    assert!(!(-7i128).is_error());
    assert!(!1isize.is_error());
    assert!(!255u8.is_error());
    assert!(!1u16.is_error());
    assert!(!0x8000_0000u32.is_error());
    assert!(!u64::MAX.is_error());
    assert!(!1u128.is_error());
    assert!(!usize::MAX.is_error());
}
