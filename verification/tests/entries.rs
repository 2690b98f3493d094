use multiboot::config::{AppConfig, CommandItem, Settings, CONFIG_VERSION};
use multiboot::entries::{
    delete_entry, execute_entry, finish_update, import_items, move_entry, save_entry, set_entry_enabled,
    ItemInput,
};

fn item(id: u128, title: &str, order: u32) -> CommandItem {
    CommandItem {
        id,
        title: title.to_string(),
        command: format!("echo {title}"),
        enabled: true,
        order,
        icon: None,
    }
}

fn config(items: Vec<CommandItem>) -> AppConfig {
    AppConfig {
        version: CONFIG_VERSION,
        settings: Settings::default(),
        items,
    }
}

fn titles(config: &AppConfig) -> Vec<String> {
    config.items.iter().map(|item| item.title.clone()).collect()
}

fn orders(config: &AppConfig) -> Vec<u32> {
    config.items.iter().map(|item| item.order).collect()
}

fn input(id: Option<u128>, title: &str, command: &str) -> ItemInput {
    ItemInput {
        id,
        title: title.to_string(),
        command: command.to_string(),
        enabled: true,
        icon: None,
    }
}

#[test]
fn saving_a_new_entry_trims_it_and_appends_it() {
    let mut c = config(vec![item(1, "a", 0)]);
    assert_eq!(save_entry(&mut c, input(None, "  新条目 \n", "\techo new  ")), Ok(()));
    assert_eq!(c.items.len(), 2);
    assert_eq!(c.items[1].title, "新条目");
    assert_eq!(c.items[1].command, "echo new");
    assert_eq!(c.items[1].order, 1);
    assert_ne!(c.items[1].id, 1);
    assert_eq!(c.items[1].icon, None);
    assert_eq!((c.items[1].id >> 76) & 0xf, 4);
    assert_eq!((c.items[1].id >> 62) & 0x3, 2);
}

#[test]
fn saving_an_existing_entry_edits_it_in_place() {
    let mut c = config(vec![item(1, "a", 0), item(2, "b", 1)]);
    let mut edit = input(Some(1), "A", "echo A");
    edit.enabled = false;
    edit.icon = Some(String::new());
    assert_eq!(save_entry(&mut c, edit), Ok(()));
    assert_eq!(titles(&c), vec!["A", "b"]);
    assert!(!c.items[0].enabled);
    assert_eq!(c.items[0].id, 1);
}

#[test]
fn saving_an_unknown_entry_or_a_broken_icon_changes_nothing() {
    let mut c = config(vec![item(1, "a", 0)]);
    let before = c.clone();
    assert_eq!(
        save_entry(&mut c, input(Some(5), "x", "y")),
        Err("未找到命令条目：00000000-0000-0000-0000-000000000005".to_string())
    );
    assert_eq!(c, before);
    let mut broken = input(None, "x", "y");
    broken.icon = Some("data:image/png;base64,@@@@".to_string());
    let error = save_entry(&mut c, broken).unwrap_err();
    assert!(error.starts_with("Base64 解码失败："), "{error}");
    assert_eq!(c, before);
}

#[test]
fn saving_a_blank_title_is_refused_by_validation() {
    let mut c = config(vec![item(1, "a", 0)]);
    let error = save_entry(&mut c, input(Some(1), "   ", "echo")).unwrap_err();
    assert_eq!(error, "条目 00000000-0000-0000-0000-000000000001 的标题不能为空");
}

#[test]
fn deleting_removes_the_entry_and_renumbers() {
    let mut c = config(vec![item(1, "a", 0), item(2, "b", 1), item(3, "c", 2)]);
    assert_eq!(delete_entry(&mut c, 2), Ok(()));
    assert_eq!(titles(&c), vec!["a", "c"]);
    assert_eq!(orders(&c), vec![0, 1]);
    let before = c.clone();
    assert_eq!(
        delete_entry(&mut c, 2),
        Err("未找到命令条目：00000000-0000-0000-0000-000000000002".to_string())
    );
    assert_eq!(c, before);
}

#[test]
fn moving_swaps_with_the_neighbour() {
    let mut c = config(vec![item(1, "a", 0), item(2, "b", 1), item(3, "c", 2)]);
    assert_eq!(move_entry(&mut c, 3, "up"), Ok(()));
    assert_eq!(titles(&c), vec!["a", "c", "b"]);
    assert_eq!(orders(&c), vec![0, 1, 2]);
    assert_eq!(move_entry(&mut c, 1, "down"), Ok(()));
    assert_eq!(titles(&c), vec!["c", "a", "b"]);
    assert_eq!(move_entry(&mut c, 3, "up"), Ok(()));
    assert_eq!(titles(&c), vec!["c", "a", "b"]);
    assert_eq!(move_entry(&mut c, 2, "down"), Ok(()));
    assert_eq!(titles(&c), vec!["c", "a", "b"]);
}

#[test]
fn moving_up_then_down_restores_the_order() {
    let mut c = config(vec![item(1, "a", 0), item(2, "b", 1), item(3, "c", 2)]);
    let before = c.clone();
    assert_eq!(move_entry(&mut c, 2, "up"), Ok(()));
    assert_eq!(move_entry(&mut c, 2, "down"), Ok(()));
    assert_eq!(c, before);
}

#[test]
fn moving_is_refused_for_a_bad_direction_or_an_unknown_entry() {
    let mut c = config(vec![item(1, "a", 4), item(2, "b", 2)]);
    assert_eq!(
        move_entry(&mut c, 1, "left"),
        Err("排序方向必须是 up 或 down".to_string())
    );
    // The entries were sorted before the direction was read.
    assert_eq!(titles(&c), vec!["b", "a"]);
    assert_eq!(orders(&c), vec![2, 4]);
    assert_eq!(
        move_entry(&mut c, 9, "up"),
        Err("未找到命令条目：00000000-0000-0000-0000-000000000009".to_string())
    );
}

#[test]
fn switching_an_entry_off_keeps_everything_else() {
    let mut c = config(vec![item(1, "a", 0), item(2, "b", 1)]);
    assert_eq!(set_entry_enabled(&mut c, 2, false), Ok(()));
    assert!(c.items[0].enabled);
    assert!(!c.items[1].enabled);
    let before = c.clone();
    assert!(set_entry_enabled(&mut c, 3, true).is_err());
    assert_eq!(c, before);
}

#[test]
fn importing_appends_or_replaces() {
    let mut c = config(vec![item(1, "a", 0)]);
    assert_eq!(import_items(&mut c, "append", vec![item(1, "b", 7), item(2, "c", 0)]), Ok(()));
    assert_eq!(titles(&c), vec!["a", "b", "c"]);
    assert_eq!(orders(&c), vec![0, 1, 2]);
    assert_ne!(c.items[1].id, 1);
    assert_eq!(import_items(&mut c, "replace", vec![item(5, "z", 3), item(6, "y", 1)]), Ok(()));
    assert_eq!(titles(&c), vec!["y", "z"]);
    let before = c.clone();
    assert_eq!(
        import_items(&mut c, "merge", Vec::new()),
        Err("导入模式必须是 append 或 replace".to_string())
    );
    assert_eq!(c, before);
}

#[test]
fn finishing_sorts_renumbers_and_validates() {
    let mut c = config(vec![item(1, "a", 5), item(2, "b", 5), item(3, "c", 1)]);
    assert_eq!(finish_update(&mut c), Ok(()));
    assert_eq!(titles(&c), vec!["c", "a", "b"]);
    assert_eq!(orders(&c), vec![0, 1, 2]);
    c.version = 2;
    assert!(finish_update(&mut c).is_err());
}

#[test]
fn entries_are_found_by_the_text_of_their_id() {
    let id = 0x67e55044_10b1_426f_9247_bb680e5fe0c8u128;
    let c = config(vec![item(1, "a", 0), item(id, "b", 1)]);
    let found = execute_entry(&c, "67e55044-10b1-426f-9247-bb680e5fe0c8").unwrap();
    assert_eq!(found.title, "b");
    assert_eq!(
        execute_entry(&c, "67E55044-10B1-426F-9247-BB680E5FE0C8"),
        Err("未找到命令条目：67E55044-10B1-426F-9247-BB680E5FE0C8".to_string())
    );
}
