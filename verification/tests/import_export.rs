use std::io::Cursor;

use base64::{engine::general_purpose::STANDARD, Engine as _};
use image::{DynamicImage, ImageBuffer, ImageFormat, Rgba};
use multiboot::config::{validate, AppConfig, CommandItem, Settings, CONFIG_VERSION};
use multiboot::import_export::{check_import_size, export_document, merge, parse, ExportFile, MAX_IMPORT_BYTES};
use uuid::Uuid;

fn item(id: Uuid, order: u32) -> CommandItem {
    CommandItem {
        id: id.as_u128(),
        title: format!("条目 {order}"),
        command: format!("echo {order}"),
        enabled: true,
        order,
        icon: None,
    }
}

fn file(format: &str, version: u32, items: Vec<CommandItem>) -> ExportFile {
    ExportFile {
        format: format.to_string(),
        version,
        items,
    }
}

#[test]
fn rejects_wrong_format_and_version() {
    assert!(parse(Ok(file("other", 1, Vec::new()))).is_err());
    assert!(parse(Ok(file("tray-command-launcher", 2, Vec::new()))).is_err());
}

#[test]
fn append_regenerates_conflicting_uuid_and_preserves_existing() {
    let id = Uuid::new_v4();
    let merged = merge(&[item(id, 0)], vec![item(id, 8)]).unwrap();
    assert_eq!(merged.len(), 2);
    assert_eq!(merged[0].id, id.as_u128());
    assert_ne!(merged[1].id, id.as_u128());
    assert_eq!(merged[1].order, 1);
}

#[test]
fn parsing_never_executes_imported_command() {
    let marker = format!("/tmp/multiboot-import-{}", Uuid::new_v4());
    let id = Uuid::new_v4();
    let imported = CommandItem {
        id: id.as_u128(),
        title: "安全测试".to_string(),
        command: format!("touch {marker}"),
        enabled: true,
        order: 0,
        icon: None,
    };
    let parsed = parse(Ok(file("tray-command-launcher", 1, vec![imported]))).unwrap();
    assert_eq!(parsed.len(), 1);
    assert!(!std::path::Path::new(&marker).exists());
}

#[test]
fn import_errors_name_the_problem() {
    assert_eq!(
        parse(Err("EOF while parsing a value".to_string())),
        Err("JSON 解析失败：EOF while parsing a value".to_string())
    );
    assert_eq!(
        parse(Ok(file("other", 1, Vec::new()))),
        Err("不支持的导入格式：other".to_string())
    );
    assert_eq!(
        parse(Ok(file("tray-command-launcher", 2, Vec::new()))),
        Err("不支持的导入版本：2".to_string())
    );
    let id = Uuid::from_u128(5);
    let mut blank = item(id, 0);
    blank.command = "  ".to_string();
    assert_eq!(
        parse(Ok(file("tray-command-launcher", 1, vec![blank]))),
        Err("条目 00000000-0000-0000-0000-000000000005 的标题和命令不能为空".to_string())
    );
    assert_eq!(
        parse(Ok(file("tray-command-launcher", 1, vec![item(id, 0), item(id, 1)]))),
        Err("导入文件包含重复 UUID：00000000-0000-0000-0000-000000000005".to_string())
    );
}

#[test]
fn import_sorts_by_order_and_keeps_the_orders() {
    let a = item(Uuid::from_u128(1), 5);
    let b = item(Uuid::from_u128(2), 1);
    let c = item(Uuid::from_u128(3), 5);
    let parsed = parse(Ok(file("tray-command-launcher", 1, vec![a.clone(), b.clone(), c.clone()]))).unwrap();
    assert_eq!(parsed, vec![b, a, c]);
}

#[test]
fn import_normalizes_icons_and_refuses_broken_ones() {
    let image = DynamicImage::ImageRgba8(ImageBuffer::from_pixel(64, 64, Rgba([1, 2, 3, 255])));
    let mut bytes = Cursor::new(Vec::new());
    image.write_to(&mut bytes, ImageFormat::Png).unwrap();
    let url = format!("data:image/png;base64,{}", STANDARD.encode(bytes.into_inner()));
    let mut with_icon = item(Uuid::from_u128(9), 0);
    with_icon.icon = Some(url);
    let parsed = parse(Ok(file("tray-command-launcher", 1, vec![with_icon]))).unwrap();
    let icon = parsed[0].icon.clone().unwrap();
    assert!(icon.starts_with("data:image/png;base64,"));
    let decoded = multiboot::icon::decode(&icon).unwrap();
    assert_eq!((decoded.width(), decoded.height()), (32, 32));

    let mut broken = item(Uuid::from_u128(10), 0);
    broken.icon = Some("not a data url".to_string());
    assert_eq!(
        parse(Ok(file("tray-command-launcher", 1, vec![broken]))),
        Err("图标必须是 Data URL".to_string())
    );
}

#[test]
fn export_then_import_gives_back_the_entries() {
    let config = AppConfig {
        version: CONFIG_VERSION,
        settings: Settings::default(),
        items: vec![item(Uuid::from_u128(7), 0), item(Uuid::from_u128(8), 1)],
    };
    let document = export_document(&config);
    assert_eq!(document.format, "tray-command-launcher");
    assert_eq!(document.version, 1);
    assert_eq!(parse(Ok(document)).unwrap(), config.items);
}

#[test]
fn merge_keeps_ids_distinct_and_numbers_appended_entries() {
    let a = Uuid::from_u128(1);
    let b = Uuid::from_u128(2);
    let existing = vec![item(a, 0), item(b, 1)];
    let merged = merge(&existing, vec![item(a, 3), item(Uuid::from_u128(3), 4), item(Uuid::from_u128(3), 0)]).unwrap();
    assert_eq!(merged.len(), 5);
    assert_eq!(&merged[..2], &existing[..]);
    assert_eq!(merged[3].id, 3);
    let mut ids: Vec<u128> = merged.iter().map(|item| item.id).collect();
    ids.sort();
    ids.dedup();
    assert_eq!(ids.len(), 5);
    let orders: Vec<u32> = merged[2..].iter().map(|item| item.order).collect();
    assert_eq!(orders, vec![2, 3, 4]);
    let replacement = Uuid::from_u128(merged[2].id);
    assert_eq!(replacement.get_version_num(), 4);
    assert_eq!(merged[2].title, "条目 3");
    let config = AppConfig {
        version: CONFIG_VERSION,
        settings: Settings::default(),
        items: merged,
    };
    assert!(validate(&config).is_ok());
}

#[test]
fn imports_larger_than_64_mib_are_refused() {
    assert_eq!(check_import_size(MAX_IMPORT_BYTES), Ok(()));
    assert_eq!(
        check_import_size(MAX_IMPORT_BYTES + 1),
        Err("导入文件不能超过 64 MiB".to_string())
    );
}

#[test]
fn merge_without_conflicts_keeps_every_id() {
    let existing = vec![item(Uuid::from_u128(1), 0)];
    let merged = merge(&existing, vec![item(Uuid::from_u128(2), 7), item(Uuid::from_u128(3), 1)]).unwrap();
    let ids: Vec<u128> = merged.iter().map(|item| item.id).collect();
    assert_eq!(ids, vec![1, 2, 3]);
    let orders: Vec<u32> = merged.iter().map(|item| item.order).collect();
    assert_eq!(orders, vec![0, 1, 2]);
}

#[test]
fn random_ids_are_version_four_uuids() {
    let id = multiboot::import_export::random_id().unwrap();
    assert_eq!(Uuid::from_u128(id).get_version_num(), 4);
    assert_eq!((id >> 62) & 0x3, 2);
    assert_ne!(id, multiboot::import_export::random_id().unwrap());
}
