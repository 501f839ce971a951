use fw_env::config::{Config, ConfigLine};
use fw_env::error::FwError;

#[test]
fn test_config_from_file() {
    let text = "/dev/mmcblk1 0x180000 0x20000\n/dev/mmcblk1 0x1A0000 0x20000\n";
    let config = Config::from_text(text);
    assert_eq!(
        config.unwrap(),
        Config {
            line1: ConfigLine {
                devname: "/dev/mmcblk1".to_string(),
                start: 0x180000,
                size: 0x20000
            },
            line2: Some(ConfigLine {
                devname: "/dev/mmcblk1".to_string(),
                start: 0x1A0000,
                size: 0x20000
            })
        }
    );
}

#[test]
fn two_lines_redundant() {
    let config = Config::from_text("/dev/sda 0x10 0x20\n/dev/sdb 0x30 0x40\n").unwrap();
    assert!(config.is_redundant());
    assert_eq!(config.line1.devname, "/dev/sda");
    assert_eq!(config.line1.start, 0x10);
    assert_eq!(config.line1.size, 0x20);
    let backup = config.line2.as_ref().unwrap();
    assert_eq!(backup.devname, "/dev/sdb");
    assert_eq!(backup.start, 0x30);
    assert_eq!(backup.size, 0x40);
}

#[test]
fn single_line_no_backup() {
    let config = Config::from_text("/dev/mmcblk1 0x180000 0x20000\n").unwrap();
    assert!(!config.is_redundant());
    assert_eq!(config.line1.devname, "/dev/mmcblk1");
    assert_eq!(config.line1.start, 0x180000);
    assert_eq!(config.line1.size, 0x20000);
    assert!(config.line2.is_none());
}

#[test]
fn empty_source_wrong_count_zero() {
    assert!(matches!(Config::from_text(""), Err(FwError::WrongDevNum(0))));
}

#[test]
fn comments_only_wrong_count_zero() {
    let text = "# primary region\n\n# backup region\n";
    assert!(matches!(
        Config::from_text(text),
        Err(FwError::WrongDevNum(0))
    ));
}

#[test]
fn three_lines_wrong_count() {
    let text = "/dev/a 0x1 0x2\n/dev/b 0x3 0x4\n/dev/c 0x5 0x6\n";
    assert!(matches!(
        Config::from_text(text),
        Err(FwError::WrongDevNum(3))
    ));
}

#[test]
fn comment_and_blank_lines_ignored() {
    let text = "# layout\n\n/dev/mtd2 0x0 0x4000\n\n# end\n";
    let config = Config::from_text(text).unwrap();
    assert!(!config.is_redundant());
    assert_eq!(config.line1.devname, "/dev/mtd2");
    assert_eq!(config.line1.start, 0x0);
    assert_eq!(config.line1.size, 0x4000);
}

#[test]
fn crlf_line_endings() {
    let text = "/dev/a 0x1 0x2\r\n/dev/b 0x3 0x4\r\n";
    let config = Config::from_text(text).unwrap();
    assert!(config.is_redundant());
    assert_eq!(config.line2.unwrap().size, 0x4);
}

#[test]
fn missing_offset_token_reports_line() {
    assert!(matches!(
        Config::from_text("/dev/mmcblk1\n"),
        Err(FwError::ParseStart(line)) if line == "/dev/mmcblk1"
    ));
}

#[test]
fn missing_size_token_reports_line() {
    assert!(matches!(
        Config::from_text("/dev/mmcblk1 0x180000\n"),
        Err(FwError::ParseSize(line)) if line == "/dev/mmcblk1 0x180000"
    ));
}

#[test]
fn whitespace_only_line_has_no_device() {
    assert!(matches!(
        Config::from_text("   \n"),
        Err(FwError::ParseDevname(line)) if line == "   "
    ));
}

#[test]
fn offset_without_hex_prefix_reports_token() {
    assert!(matches!(
        Config::from_text("/dev/mmcblk1 180000 0x20000\n"),
        Err(FwError::ParseStart(tok)) if tok == "180000"
    ));
}

#[test]
fn size_without_hex_prefix_reports_token() {
    assert!(matches!(
        Config::from_text("/dev/mmcblk1 0x180000 20000\n"),
        Err(FwError::ParseSize(tok)) if tok == "20000"
    ));
}

#[test]
fn offset_with_non_hex_digits_reports_token() {
    assert!(matches!(
        Config::from_text("/dev/mmcblk1 0xZZ 0x20000\n"),
        Err(FwError::ParseStart(tok)) if tok == "0xZZ"
    ));
}

#[test]
fn value_too_large_for_usize_reports_token() {
    let text = "/dev/mmcblk1 0x1ffffffffffffffff0 0x20000\n";
    assert!(matches!(
        Config::from_text(text),
        Err(FwError::ParseInt(tok)) if tok == "0x1ffffffffffffffff0"
    ));
}

#[test]
fn mixed_case_hex_digits() {
    let config = Config::from_text("/dev/x 0xaB 0xCd\n").unwrap();
    assert_eq!(config.line1.start, 0xab);
    assert_eq!(config.line1.size, 0xcd);
}

#[test]
fn tabs_separate_tokens() {
    let config = Config::from_text("/dev/x\t0x10\t0x20\n").unwrap();
    assert_eq!(config.line1.start, 0x10);
    assert_eq!(config.line1.size, 0x20);
}

#[test]
fn tokens_after_size_are_ignored() {
    let config = Config::from_text("/dev/x 0x10 0x20 0x1000 4\n").unwrap();
    assert_eq!(config.line1.start, 0x10);
    assert_eq!(config.line1.size, 0x20);
}
