use multiboot::platform::{library_search_path, is_wayland_session, should_refresh_decorations, should_relaunch_with_system_webkit};
use multiboot::text::{chars_of, is_blank_text, push_decimal, string_equals, trim_text};

#[test]
fn trimming_removes_unicode_white_space_at_both_ends() {
    assert_eq!(trim_text("  a b \n"), "a b");
    assert_eq!(trim_text("\u{3000}\u{2003}标题\u{a0}"), "标题");
    assert_eq!(trim_text(" \t\r\n"), "");
    assert_eq!(trim_text("x"), "x");
    assert_eq!(trim_text("\u{200b}x"), "\u{200b}x");
}

#[test]
fn blank_texts_have_only_white_space() {
    assert!(is_blank_text(""));
    assert!(is_blank_text(" \u{85}\u{2028}\u{205f}"));
    assert!(!is_blank_text(" . "));
    assert!(!is_blank_text("\u{200b}"));
}

#[test]
fn decimal_numbers_have_no_leading_zeros() {
    let mut s = String::from("n=");
    push_decimal(&mut s, 0);
    assert_eq!(s, "n=0");
    let mut s = String::new();
    push_decimal(&mut s, 18446744073709551615);
    assert_eq!(s, "18446744073709551615");
    let mut s = String::new();
    push_decimal(&mut s, 1040);
    assert_eq!(s, "1040");
}

#[test]
fn characters_round_trip() {
    let chars = chars_of("a中b");
    assert_eq!(chars, vec!['a', '中', 'b']);
    assert!(string_equals("设置", "设置"));
    assert!(!string_equals("设置", "设置…"));
}

#[test]
fn wayland_decisions_follow_the_environment() {
    assert!(is_wayland_session(true, &None));
    assert!(is_wayland_session(false, &Some("wayland".to_string())));
    assert!(!is_wayland_session(false, &Some("x11".to_string())));
    assert!(!is_wayland_session(false, &None));
    assert!(should_refresh_decorations(true, &None));
    assert!(!should_refresh_decorations(true, &Some("x11".to_string())));
    assert!(should_refresh_decorations(true, &Some("wayland".to_string())));
    assert!(!should_refresh_decorations(false, &None));
    assert!(should_relaunch_with_system_webkit(true, true, false));
    assert!(!should_relaunch_with_system_webkit(true, true, true));
    assert!(!should_relaunch_with_system_webkit(false, true, false));
    assert!(!should_relaunch_with_system_webkit(true, false, false));
}

fn components(path: &str) -> Vec<Vec<u8>> {
    let mut out = Vec::new();
    if path.starts_with('/') {
        out.push(b"/".to_vec());
    }
    for part in path.split('/').filter(|part| !part.is_empty()) {
        out.push(part.as_bytes().to_vec());
    }
    out
}

#[test]
fn library_search_path_drops_appimage_dirs_and_repeats() {
    let candidates: Vec<Vec<Vec<u8>>> = [
        "/tmp/.mount_app/usr/lib",
        "/opt/extra",
        "/usr/lib",
        "/tmp/.mount_app",
        "/tmp/.mount_application/lib",
        "/usr/lib",
        "/lib",
        "/opt/extra",
    ]
    .iter()
    .map(|path| components(path))
    .collect();
    let kept = library_search_path(&candidates, 5, &components("/tmp/.mount_app"));
    assert_eq!(kept, vec![1, 2, 4, 6]);
}

#[test]
fn system_dirs_are_kept_even_inside_the_app_dir() {
    let candidates: Vec<Vec<Vec<u8>>> = ["/app/lib", "/app/lib"].iter().map(|path| components(path)).collect();
    assert_eq!(library_search_path(&candidates, 1, &components("/app")), vec![1]);
    assert_eq!(library_search_path(&candidates, 0, &components("/app")), vec![0]);
}
