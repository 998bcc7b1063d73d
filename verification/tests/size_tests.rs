use fdroid_catalog::size::parse_size;
use fdroid_catalog::types::Error;

#[test]
fn plain_bytes_pass_through() {
    assert_eq!(parse_size("123 B"), Ok(123));
}

#[test]
fn kib_scales_by_1024() {
    assert_eq!(parse_size("1 KiB"), Ok(1024));
    assert_eq!(parse_size("3 KiB"), Ok(3072));
}

#[test]
fn mib_scales_by_1048576() {
    assert_eq!(parse_size("2 MiB"), Ok(2097152));
    assert_eq!(parse_size("2.5 MiB"), Ok(2621440));
}

#[test]
fn gib_scales_by_1073741824() {
    assert_eq!(parse_size("1 GiB"), Ok(1073741824));
    assert_eq!(parse_size("1.5 GiB"), Ok(1610612736));
}

#[test]
fn kib_and_mib_agree_at_1024() {
    assert_eq!(parse_size("1024 KiB"), parse_size("1 MiB"));
}

#[test]
fn units_are_case_insensitive() {
    assert_eq!(parse_size("1 kib"), Ok(1024));
    assert_eq!(parse_size("1 KIB"), Ok(1024));
    assert_eq!(parse_size("1 mIb"), Ok(1048576));
}

#[test]
fn fractional_values_truncate_toward_zero() {
    // 2.7 KiB = 2764.8 bytes exactly
    assert_eq!(parse_size("2.7 KiB"), Ok(2764));
    assert_eq!(parse_size("0.5 KiB"), Ok(512));
    assert_eq!(parse_size("0.001 KiB"), Ok(1));
}

#[test]
fn unrecognized_unit_is_a_no_op_multiplier() {
    assert_eq!(parse_size("12 floppies"), Ok(12));
    assert_eq!(parse_size("7.9 XB"), Ok(7));
}

#[test]
fn missing_space_is_malformed() {
    assert_eq!(parse_size("12MiB"), Err(Error::MalformedSize));
    assert_eq!(parse_size(""), Err(Error::MalformedSize));
}

#[test]
fn non_numeric_portion_is_malformed() {
    assert_eq!(parse_size("x MiB"), Err(Error::MalformedSize));
    assert_eq!(parse_size("1.2.3 MiB"), Err(Error::MalformedSize));
    assert_eq!(parse_size("-5 MiB"), Err(Error::MalformedSize));
    assert_eq!(parse_size(". KiB"), Err(Error::MalformedSize));
    assert_eq!(parse_size(" MiB"), Err(Error::MalformedSize));
}

#[test]
fn dot_alone_splits_into_empty_digit_runs() {
    assert_eq!(parse_size("5. KiB"), Ok(5120));
    assert_eq!(parse_size(".5 KiB"), Ok(512));
}

#[test]
fn too_many_digits_is_malformed() {
    assert_eq!(parse_size("99999999999999999999 B"), Err(Error::MalformedSize));
}

#[test]
fn overflowing_result_is_malformed() {
    // 9999999999999999999 GiB is far beyond u64::MAX bytes
    assert_eq!(parse_size("9999999999999999999 GiB"), Err(Error::MalformedSize));
}
