use multiboot::config::{
    corrupt_backup_file_name, default_enabled, parse_resilient, recovered_config, validate, AppConfig, CommandItem, Settings, StoredConfig,
    StoredEntry, StoredItem, CONFIG_VERSION,
};
use uuid::Uuid;

fn item(id: u128, title: &str, command: &str) -> CommandItem {
    CommandItem {
        id,
        title: title.to_string(),
        command: command.to_string(),
        enabled: true,
        order: 0,
        icon: None,
    }
}

fn ordered(id: u128, title: &str, order: u32) -> CommandItem {
    CommandItem {
        order,
        ..item(id, title, "echo ok")
    }
}

fn stored(items: Vec<StoredItem>) -> StoredConfig {
    StoredConfig {
        version: Some(1),
        settings: None,
        items: Some(items),
    }
}

#[test]
fn default_config_has_no_business_items() {
    assert_eq!(AppConfig::default().items, Vec::new());
}

#[test]
fn rejects_duplicate_ids() {
    let id = Uuid::new_v4().as_u128();
    let config = AppConfig {
        version: CONFIG_VERSION,
        settings: Settings::default(),
        items: vec![item(id, "一", "echo 1"), item(id, "二", "echo 2")],
    };
    assert!(validate(&config).unwrap_err().contains("ID 重复"));
}

#[test]
fn rejects_blank_title_or_command() {
    let blank_title = AppConfig {
        version: CONFIG_VERSION,
        settings: Settings::default(),
        items: vec![item(Uuid::new_v4().as_u128(), " ", "echo ok")],
    };
    assert!(validate(&blank_title).is_err());

    let blank_command = AppConfig {
        version: CONFIG_VERSION,
        settings: Settings::default(),
        items: vec![item(Uuid::new_v4().as_u128(), "测试", "\n")],
    };
    assert!(validate(&blank_command).is_err());
}

#[test]
fn resilient_parser_skips_bad_items_and_keeps_good_items() {
    let id = Uuid::new_v4().as_u128();
    // The first stored entry has the id "bad", which is no UUID: the JSON
    // reader hands it over as unreadable.
    let document = stored(vec![
        StoredItem::Unreadable("UUID parsing failed: invalid length".to_string()),
        StoredItem::Read(StoredEntry::from_item(item(id, "好", "echo ok"))),
    ]);
    let (config, warnings) = parse_resilient(Ok(document)).unwrap();
    assert_eq!(config.items.len(), 1);
    assert_eq!(config.items[0].id, id);
    assert_eq!(warnings.len(), 1);
}

#[test]
fn default_settings_turn_autostart_on() {
    assert!(default_enabled());
    assert!(Settings::default().autostart);
    let config = AppConfig::default();
    assert_eq!(config.version, 1);
    assert!(config.settings.autostart);
    assert!(validate(&config).is_ok());
}

#[test]
fn validate_names_the_problem_and_the_entry() {
    let id = 0x67e55044_10b1_426f_9247_bb680e5fe0c8u128;
    let mut config = AppConfig {
        version: CONFIG_VERSION,
        settings: Settings::default(),
        items: vec![item(id, "\t", "echo ok")],
    };
    assert_eq!(
        validate(&config),
        Err("条目 67e55044-10b1-426f-9247-bb680e5fe0c8 的标题不能为空".to_string())
    );
    config.items[0].title = "标题".to_string();
    config.items[0].command = " \u{3000} ".to_string();
    assert_eq!(
        validate(&config),
        Err("条目 67e55044-10b1-426f-9247-bb680e5fe0c8 的命令不能为空".to_string())
    );
    config.items[0].command = "echo ok".to_string();
    config.items.push(item(id, "另一个", "echo 2"));
    assert_eq!(
        validate(&config),
        Err("条目 ID 重复：67e55044-10b1-426f-9247-bb680e5fe0c8".to_string())
    );
    config.items.pop();
    assert_eq!(validate(&config), Ok(()));
    config.version = 12;
    assert_eq!(
        validate(&config),
        Err("不支持的配置版本 12，当前仅支持版本 1".to_string())
    );
}

#[test]
fn validate_reports_the_first_problem() {
    let config = AppConfig {
        version: CONFIG_VERSION,
        settings: Settings::default(),
        items: vec![item(1, "a", " "), item(2, "", "echo")],
    };
    assert_eq!(
        validate(&config),
        Err("条目 00000000-0000-0000-0000-000000000001 的命令不能为空".to_string())
    );
}

#[test]
fn resilient_parser_sorts_renumbers_and_warns() {
    let document = stored(vec![
        StoredItem::Read(StoredEntry::from_item(ordered(1, "c", 9))),
        StoredItem::Read(StoredEntry::from_item(ordered(2, "a", 3))),
        StoredItem::Read(StoredEntry::from_item(ordered(1, "duplicate", 0))),
        StoredItem::Read(StoredEntry::from_item(ordered(3, "  ", 1))),
        StoredItem::Read(StoredEntry::from_item(ordered(4, "b", 3))),
        StoredItem::Unreadable("missing field `title`".to_string()),
    ]);
    let (config, warnings) = parse_resilient(Ok(document)).unwrap();
    let ids: Vec<u128> = config.items.iter().map(|item| item.id).collect();
    assert_eq!(ids, vec![2, 4, 1]);
    let orders: Vec<u32> = config.items.iter().map(|item| item.order).collect();
    assert_eq!(orders, vec![0, 1, 2]);
    assert!(config.settings.autostart);
    assert_eq!(
        warnings,
        vec![
            "已跳过无效或重复条目：00000000-0000-0000-0000-000000000001".to_string(),
            "已跳过无效或重复条目：00000000-0000-0000-0000-000000000003".to_string(),
            "已跳过第 6 个无效条目：missing field `title`".to_string(),
        ]
    );
    assert!(validate(&config).is_ok());
}

#[test]
fn resilient_parser_refuses_what_it_cannot_recover() {
    assert_eq!(
        parse_resilient(Err("expected value at line 1 column 1".to_string())),
        Err("JSON 解析失败：expected value at line 1 column 1".to_string())
    );
    let mut document = stored(Vec::new());
    document.version = None;
    assert_eq!(
        parse_resilient(Ok(document.clone())),
        Err("缺少有效的 version".to_string())
    );
    document.version = Some(2);
    assert_eq!(
        parse_resilient(Ok(document.clone())),
        Err("不支持的配置版本 2".to_string())
    );
    document.version = Some(1);
    document.settings = Some(Err("invalid type: string \"x\"".to_string()));
    assert_eq!(
        parse_resilient(Ok(document.clone())),
        Err("settings 字段无效：invalid type: string \"x\"".to_string())
    );
    document.settings = Some(Ok(Settings { autostart: false }));
    document.items = None;
    assert_eq!(
        parse_resilient(Ok(document.clone())),
        Err("缺少有效的 items 数组".to_string())
    );
    document.items = Some(Vec::new());
    let (config, warnings) = parse_resilient(Ok(document)).unwrap();
    assert!(!config.settings.autostart);
    assert!(config.items.is_empty());
    assert!(warnings.is_empty());
}

#[test]
fn resilient_parser_compares_the_low_32_bits_of_the_version() {
    // The stored version is narrowed to 32 bits before it is compared.
    let mut document = stored(Vec::new());
    document.version = Some((1u64 << 32) + 1);
    assert!(parse_resilient(Ok(document.clone())).is_ok());
    document.version = Some(1u64 << 32);
    assert_eq!(
        parse_resilient(Ok(document)),
        Err("不支持的配置版本 0".to_string())
    );
}

#[test]
fn an_unreadable_configuration_is_replaced_by_the_default() {
    assert_eq!(corrupt_backup_file_name(1725029869), "config.corrupt-1725029869.json");
    let (config, warnings) = recovered_config("缺少有效的 version", "/cfg/config.corrupt-1.json");
    assert_eq!(config, AppConfig::default());
    assert_eq!(
        warnings,
        vec!["配置无法读取（缺少有效的 version），已备份到 /cfg/config.corrupt-1.json 并恢复默认配置。".to_string()]
    );
}

#[test]
fn a_stored_configuration_loads_back_unchanged() {
    let config = AppConfig {
        version: CONFIG_VERSION,
        settings: Settings { autostart: false },
        items: vec![ordered(10, "a", 0), ordered(20, "b", 1), ordered(30, "c", 2)],
    };
    let document = StoredConfig {
        version: Some(1),
        settings: Some(Ok(config.settings)),
        items: Some(config.items.iter().cloned().map(|item| StoredItem::Read(StoredEntry::from_item(item))).collect()),
    };
    let (loaded, warnings) = parse_resilient(Ok(document)).unwrap();
    assert_eq!(loaded, config);
    assert!(warnings.is_empty());
}

#[test]
fn older_items_receive_phase_two_defaults() {
    let id = Uuid::new_v4();
    let document = StoredConfig {
        version: Some(1),
        settings: None,
        items: Some(vec![StoredItem::Read(StoredEntry {
            id: id.as_u128(),
            title: "测试".to_string(),
            command: "echo ok".to_string(),
            enabled: None,
            order: None,
            icon: None,
        })]),
    };
    let (config, _) = parse_resilient(Ok(document)).unwrap();
    assert!(config.settings.autostart);
    assert!(config.items[0].enabled);
    assert_eq!(config.items[0].order, 0);
}
