use uf2_tool::cli::{
    check_payload_size, input_file_valid, log_level, output_file_valid, payload_size_in_range, LogLevel,
};

#[test]
fn payload_size_decimal_and_hex() {
    assert_eq!(payload_size_in_range("256").unwrap(), 256);
    assert_eq!(payload_size_in_range("0x100").unwrap(), 256);
    assert_eq!(payload_size_in_range("0X1DC").unwrap(), 476);
    assert_eq!(payload_size_in_range("4").unwrap(), 4);
}

#[test]
fn payload_size_out_of_range() {
    for s in ["0", "477", "0x200"] {
        assert_eq!(
            payload_size_in_range(s).unwrap_err(),
            "payload size must be between 1 and 476"
        );
    }
}

#[test]
fn payload_size_not_multiple_of_four() {
    assert_eq!(payload_size_in_range("6").unwrap_err(), "payload size must be a multiple of 4");
    assert_eq!(payload_size_in_range("0x1D").unwrap_err(), "payload size must be a multiple of 4");
}

#[test]
fn payload_size_not_a_number() {
    assert_eq!(payload_size_in_range("abc").unwrap_err(), "invalid digit found in string");
    assert_eq!(payload_size_in_range("0x").unwrap_err(), "cannot parse integer from empty string");
}

#[test]
fn check_payload_size_passes_parse_errors_on() {
    assert_eq!(check_payload_size(Err("bad".to_string())).unwrap_err(), "bad");
    assert_eq!(check_payload_size(Ok(8)).unwrap(), 8);
}

#[test]
fn input_path_checks() {
    assert!(input_file_valid(true, true, Some("elf")).is_ok());
    assert_eq!(input_file_valid(false, false, Some("elf")).unwrap_err(), "input file does not exist");
    assert_eq!(input_file_valid(true, false, Some("elf")).unwrap_err(), "input path is not a file");
    assert_eq!(input_file_valid(true, true, Some("uf2")).unwrap_err(), "input file must have .elf extension");
    assert_eq!(input_file_valid(true, true, None).unwrap_err(), "input file must have .elf extension");
    assert_eq!(input_file_valid(true, true, Some("elf2")).unwrap_err(), "input file must have .elf extension");
}

#[test]
fn output_path_checks() {
    assert!(output_file_valid(true, true, Some("uf2")).is_ok());
    assert_eq!(output_file_valid(false, true, Some("uf2")).unwrap_err(), "output directory does not exist");
    assert_eq!(output_file_valid(true, false, Some("uf2")).unwrap_err(), "output parent is not a directory");
    assert_eq!(output_file_valid(true, true, Some("UF2")).unwrap_err(), "output file must have .uf2 extension");
    assert_eq!(output_file_valid(true, true, None).unwrap_err(), "output file must have .uf2 extension");
}

#[test]
fn verbosity_levels() {
    assert_eq!(log_level(0), LogLevel::Warn);
    assert_eq!(log_level(1), LogLevel::Info);
    assert_eq!(log_level(2), LogLevel::Debug);
    assert_eq!(log_level(3), LogLevel::Trace);
    assert_eq!(log_level(255), LogLevel::Trace);
}
