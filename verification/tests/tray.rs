use multiboot::config::{AppConfig, CommandItem, Settings, CONFIG_VERSION};
use multiboot::entries::execute_entry;
use multiboot::tray::{build_menu, command_notification_title, menu_action, MenuAction, MenuEntry};

fn item(id: u128, title: &str, order: u32, enabled: bool) -> CommandItem {
    CommandItem {
        id,
        title: title.to_string(),
        command: format!("echo {title}"),
        enabled,
        order,
        icon: None,
    }
}

fn config(items: Vec<CommandItem>) -> AppConfig {
    AppConfig {
        version: CONFIG_VERSION,
        settings: Settings::default(),
        items,
    }
}

#[test]
fn menu_lists_enabled_entries_in_order_then_settings_and_quit() {
    let c = config(vec![
        item(1, "b", 2, true),
        item(2, "hidden", 0, false),
        item(3, "a", 1, true),
    ]);
    let menu = build_menu(&c);
    assert_eq!(menu.len(), 5);
    match &menu[0] {
        MenuEntry::Command { menu_id, title, icon } => {
            assert_eq!(menu_id, "entry:00000000-0000-0000-0000-000000000003");
            assert_eq!(title, "a");
            assert!(icon.is_none());
        }
        _ => panic!("expected a command entry"),
    }
    match &menu[1] {
        MenuEntry::Command { title, .. } => assert_eq!(title, "b"),
        _ => panic!("expected a command entry"),
    }
    assert!(matches!(menu[2], MenuEntry::Separator));
    match &menu[3] {
        MenuEntry::Settings { menu_id, label } => {
            assert_eq!(menu_id, "settings");
            assert_eq!(label, "设置…");
        }
        _ => panic!("expected the settings item"),
    }
    match &menu[4] {
        MenuEntry::Quit { menu_id, label } => {
            assert_eq!(menu_id, "quit");
            assert_eq!(label, "退出");
        }
        _ => panic!("expected the quit item"),
    }
}

#[test]
fn an_empty_menu_has_no_separator() {
    let menu = build_menu(&config(vec![item(1, "off", 0, false)]));
    assert_eq!(menu.len(), 2);
    assert!(matches!(menu[0], MenuEntry::Settings { .. }));
    assert!(matches!(menu[1], MenuEntry::Quit { .. }));
}

#[test]
fn a_broken_icon_is_reported_and_left_out() {
    let mut entry = item(1, "a", 0, true);
    entry.icon = Some("no data url".to_string());
    let menu = build_menu(&config(vec![entry]));
    match &menu[0] {
        MenuEntry::Command { icon: Some(Err(reason)), .. } => assert_eq!(reason, "图标必须是 Data URL"),
        _ => panic!("expected a refused icon"),
    }
}

#[test]
fn menu_clicks_are_understood() {
    assert!(matches!(menu_action("settings"), MenuAction::ShowSettings));
    assert!(matches!(menu_action("quit"), MenuAction::Quit));
    assert!(matches!(menu_action("other"), MenuAction::Ignore));
    match menu_action("entry:abc") {
        MenuAction::RunEntry(id) => assert_eq!(id, "abc"),
        _ => panic!("expected an entry"),
    }
}

#[test]
fn clicking_an_entry_runs_that_entry() {
    let id = 0x0123_4567_89ab_cdef_0123_4567_89ab_cdefu128;
    let c = config(vec![item(5, "x", 0, true), item(id, "y", 1, true)]);
    let menu = build_menu(&c);
    let menu_id = match &menu[1] {
        MenuEntry::Command { menu_id, .. } => menu_id.clone(),
        _ => panic!("expected a command entry"),
    };
    match menu_action(&menu_id) {
        MenuAction::RunEntry(text) => {
            let entry = execute_entry(&c, &text).unwrap();
            assert_eq!(entry.id, id);
            assert_eq!(entry.title, "y");
        }
        _ => panic!("expected an entry"),
    }
}

#[test]
fn notifications_tell_success_from_failure() {
    assert_eq!(command_notification_title(true), "命令执行成功");
    assert_eq!(command_notification_title(false), "命令执行失败");
}
