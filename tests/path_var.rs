use ffmpeg_install::path_var::{
    backup_script, join_entries, path_entries, updated_path, BACKUP_SCRIPT_NAME,
};
use ffmpeg_install::text::{split, trimmed, white_space};

fn strings(items: &[&str]) -> Vec<String> {
    items.iter().map(|s| s.to_string()).collect()
}

#[test]
fn split_keeps_empty_pieces() {
    assert_eq!(split("a;;b", ';'), strings(&["a", "", "b"]));
    assert_eq!(split("", ';'), strings(&[""]));
    assert_eq!(split(";", ';'), strings(&["", ""]));
    assert_eq!(split("héllo/wörld", '/'), strings(&["héllo", "wörld"]));
}

#[test]
fn trimmed_removes_unicode_white_space() {
    assert_eq!(trimmed("  a b \t"), "a b");
    assert_eq!(trimmed("\u{2003}x\u{205F}"), "x");
    assert_eq!(trimmed("   "), "");
    assert_eq!(trimmed("\u{200B}x"), "\u{200B}x");
}

#[test]
fn white_space_matches_std() {
    for c in ['\t', '\n', '\u{b}', '\u{c}', '\r', ' ', '\u{85}', '\u{a0}', '\u{1680}', '\u{2000}',
        '\u{200a}', '\u{2028}', '\u{2029}', '\u{202f}', '\u{205f}', '\u{3000}', 'a', '\u{200b}',
        '\u{feff}', '\u{180e}', '0', '\u{1f}'] {
        assert_eq!(white_space(c), c.is_whitespace(), "{c:?}");
    }
}

#[test]
fn path_entries_skip_empty_pieces() {
    assert_eq!(path_entries("C:\\a;;C:\\b;"), strings(&["C:\\a", "C:\\b"]));
    assert!(path_entries("").is_empty());
    assert!(path_entries(";;").is_empty());
}

#[test]
fn join_entries_puts_separator_between() {
    assert_eq!(join_entries(&strings(&["C:\\a", "C:\\b"])), "C:\\a;C:\\b");
    assert_eq!(join_entries(&strings(&["C:\\a"])), "C:\\a");
    assert_eq!(join_entries(&Vec::new()), "");
}

#[test]
fn updated_path_prepends_missing_dir() {
    assert_eq!(
        updated_path("C:\\Windows;C:\\tools", "C:\\ffmpeg"),
        Some("C:\\ffmpeg;C:\\Windows;C:\\tools".to_string())
    );
    assert_eq!(updated_path("", "C:\\ffmpeg"), Some("C:\\ffmpeg".to_string()));
    assert_eq!(updated_path(";;C:\\a;", "C:\\ffmpeg"), Some("C:\\ffmpeg;C:\\a".to_string()));
}

#[test]
fn updated_path_leaves_listed_dir() {
    assert_eq!(updated_path("C:\\a;C:\\ffmpeg;C:\\b", "C:\\ffmpeg"), None);
    assert_eq!(updated_path("C:\\ffmpeg;", "C:\\ffmpeg"), None);
    assert_eq!(
        updated_path("C:\\ffmpeg\\bin", "C:\\ffmpeg"),
        Some("C:\\ffmpeg;C:\\ffmpeg\\bin".to_string())
    );
}

#[test]
fn registering_twice_lists_dir_once() {
    let first = updated_path("C:\\a;;C:\\b", "D:\\ff").unwrap();
    assert_eq!(updated_path(&first, "D:\\ff"), None);
    let entries = path_entries(&first);
    assert_eq!(entries.iter().filter(|e| e.as_str() == "D:\\ff").count(), 1);
    assert_eq!(entries, strings(&["D:\\ff", "C:\\a", "C:\\b"]));
}

#[test]
fn backup_script_embeds_saved_path() {
    assert_eq!(
        backup_script("C:\\a;C:\\b"),
        "@echo off\nreg add \"HKEY_CURRENT_USER\\Environment\" /v Path /t REG_EXPAND_SZ /d \"C:\\a;C:\\b\" /f\necho Path user environment variable restored.\npause"
    );
    assert_eq!(BACKUP_SCRIPT_NAME, "HKCU.Env.Path.backup.bat");
}
