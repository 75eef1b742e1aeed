use ffmpeg_install::install::{
    content_length, ends_with, install_dir, parse_u64, select_executables, url_file_name,
    LengthError, DEFAULT_DIR, DOWNLOAD_URL, EXE_SUFFIX,
};

fn strings(items: &[&str]) -> Vec<String> {
    items.iter().map(|s| s.to_string()).collect()
}

#[test]
fn install_dir_trims_the_answer() {
    assert_eq!(install_dir("  D:\\tools\\ffmpeg \r\n", DEFAULT_DIR), "D:\\tools\\ffmpeg");
    assert_eq!(install_dir("\tE:\\my apps\n", DEFAULT_DIR), "E:\\my apps");
}

#[test]
fn install_dir_blank_answer_gives_default() {
    assert_eq!(install_dir("", DEFAULT_DIR), "C:\\ffmpeg");
    assert_eq!(install_dir("\r\n", DEFAULT_DIR), "C:\\ffmpeg");
    assert_eq!(install_dir(" \t\u{3000}\u{85}\n", "X:\\y"), "X:\\y");
}

#[test]
fn url_file_name_takes_last_piece() {
    assert_eq!(url_file_name(DOWNLOAD_URL), "ffmpeg-release-essentials.zip");
    assert_eq!(url_file_name("https://example.com/a/b/"), "");
    assert_eq!(url_file_name("plain.zip"), "plain.zip");
    assert_eq!(url_file_name(""), "");
}

#[test]
fn content_length_missing_header_is_zero() {
    assert_eq!(content_length(None), Ok(0));
}

#[test]
fn content_length_reads_digits() {
    assert_eq!(content_length(Some("12345")), Ok(12345));
    assert_eq!(content_length(Some("+7")), Ok(7));
    assert_eq!(content_length(Some("0007")), Ok(7));
    assert_eq!(content_length(Some("18446744073709551615")), Ok(u64::MAX));
}

#[test]
fn content_length_errors() {
    assert_eq!(content_length(Some("")), Err(LengthError::Empty));
    assert_eq!(content_length(Some("+")), Err(LengthError::InvalidDigit));
    assert_eq!(content_length(Some("-")), Err(LengthError::InvalidDigit));
    assert_eq!(content_length(Some("-1")), Err(LengthError::InvalidDigit));
    assert_eq!(content_length(Some("12a")), Err(LengthError::InvalidDigit));
    assert_eq!(content_length(Some(" 5")), Err(LengthError::InvalidDigit));
    assert_eq!(content_length(Some("18446744073709551616")), Err(LengthError::Overflow));
    assert_eq!(content_length(Some("99999999999999999999x")), Err(LengthError::Overflow));
}

#[test]
fn parse_u64_agrees_with_std() {
    for s in ["", "+", "-", "0", "+0", "42", "-3", "4x2", "18446744073709551615",
        "18446744073709551616", "++1", "1 ", "\u{665}"] {
        assert_eq!(parse_u64(s).ok(), s.parse::<u64>().ok(), "{s:?}");
    }
}

#[test]
fn ends_with_checks_suffix() {
    assert!(ends_with("bin/ffmpeg.exe", EXE_SUFFIX));
    assert!(ends_with(".exe", EXE_SUFFIX));
    assert!(!ends_with("exe", EXE_SUFFIX));
    assert!(!ends_with("ffplay.EXE", EXE_SUFFIX));
    assert!(ends_with("anything", ""));
}

#[test]
fn select_executables_keeps_exe_entries_in_order() {
    let names = strings(&[
        "ffmpeg-7.1-essentials_build/bin/ffmpeg.exe",
        "ffmpeg-7.1-essentials_build/bin/",
        "ffmpeg-7.1-essentials_build/README.txt",
        "ffmpeg-7.1-essentials_build/bin/ffplay.EXE",
        "ffmpeg-7.1-essentials_build/bin/ffprobe.exe",
    ]);
    assert_eq!(
        select_executables(&names),
        strings(&[
            "ffmpeg-7.1-essentials_build/bin/ffmpeg.exe",
            "ffmpeg-7.1-essentials_build/bin/ffprobe.exe",
        ])
    );
    assert!(select_executables(&Vec::new()).is_empty());
}
