use botw_utils::hashes::is_yaz0;
use botw_utils::{get_hash_table, Platform, StockHashTable};

fn xxh(data: &[u8]) -> u64 {
    twox_hash::XxHash64::oneshot(0, data)
}

fn dataset(entries: &[(&str, Vec<u64>)]) -> String {
    let mut doc = String::from("{");
    for (i, (path, hashes)) in entries.iter().enumerate() {
        if i > 0 {
            doc.push(',');
        }
        let list: Vec<String> = hashes.iter().map(|h| h.to_string()).collect();
        doc.push_str(&format!("\"{}\":[{}]", path, list.join(",")));
    }
    doc.push('}');
    doc
}

fn yaz0_bytes() -> Vec<u8> {
    let mut data = b"Yaz0".to_vec();
    data.extend_from_slice(&[0u8; 20]);
    data
}

#[test]
fn cst_hash_table() {
    let doc = dataset(&[("Actor/Pack/Link.bactorpack", vec![1, 2])]);
    assert!(get_hash_table(&doc).is_some());
    assert!(StockHashTable::new(&Platform::WiiU, &doc).is_some());
    assert!(StockHashTable::new(&Platform::Switch, &doc).is_some());
}

#[test]
fn check_val() {
    let doc = dataset(&[
        ("Actor/ModelList/DgnMrgPrt_Dungeon023.bmodellist", vec![3_305_211_212_481_695_363_u64, 6_042_644_272_755_124_234_u64]),
        ("Actor/Pack/Link.bactorpack", vec![7]),
    ]);
    let (paths, hashes) = get_hash_table(&doc).unwrap();
    let i = paths
        .iter()
        .position(|p| p == "Actor/ModelList/DgnMrgPrt_Dungeon023.bmodellist")
        .unwrap();
    assert_eq!(
        &hashes[i],
        &vec![3_305_211_212_481_695_363_u64, 6_042_644_272_755_124_234_u64]
    )
}

#[test]
fn is_file_modded() {
    let doc = dataset(&[("Actor/Physics/FldObj_MountainSheikerWall_A_06.bphysics", vec![1])]);
    let tbl = StockHashTable::new(&Platform::Switch, &doc).unwrap();
    assert!(tbl.is_file_modded(
        "Actor/Physics/FldObj_MountainSheikerWall_A_06.bphysics",
        b"Random data",
        None,
        true
    ))
}

#[test]
fn print_files() {
    let doc = dataset(&[("Actor/Pack/Link.bactorpack", vec![1]), ("Pack/Bootup.pack", vec![2])]);
    let tbl = StockHashTable::new(&Platform::WiiU, &doc).unwrap();
    for file in tbl.get_stock_files() {
        println!("{}", file)
    }
}

#[test]
fn malformed_dataset_is_refused() {
    assert!(get_hash_table("{\"a\": [1, -2]}").is_none());
    assert!(get_hash_table("[1, 2]").is_none());
    assert!(StockHashTable::new(&Platform::WiiU, "not json").is_none());
}

#[test]
fn stock_files_are_listed_in_key_order() {
    let doc = dataset(&[("b/x.pack", vec![1]), ("a/y.pack", vec![2])]);
    let tbl = StockHashTable::new(&Platform::Switch, &doc).unwrap();
    assert_eq!(tbl.list_stock_files(), vec!["a/y.pack".to_string(), "b/x.pack".to_string()]);
    assert_eq!(tbl.get_stock_files().len(), 2);
    assert_eq!(tbl.platform(), Platform::Switch);
}

#[test]
fn dataset_paths_are_known() {
    let doc = dataset(&[("Actor/Pack/Link.bactorpack", vec![1]), ("Pack/Bootup.pack", vec![2])]);
    let tbl = StockHashTable::new(&Platform::WiiU, &doc).unwrap();
    for file in tbl.list_stock_files() {
        assert!(!tbl.is_file_new(&file));
    }
    assert!(tbl.is_file_new("Pack/Other.pack"));
}

#[test]
fn unknown_path_follows_flag() {
    let doc = dataset(&[("Pack/Bootup.pack", vec![xxh(b"abc")])]);
    let tbl = StockHashTable::new(&Platform::WiiU, &doc).unwrap();
    assert!(tbl.is_file_modded("Pack/New.pack", b"abc", None, true));
    assert!(!tbl.is_file_modded("Pack/New.pack", b"abc", None, false));
    assert!(!tbl.is_file_modded("Pack/New.pack", &yaz0_bytes(), None, false));
}

#[test]
fn reference_content_is_unmodified() {
    let doc = dataset(&[("Pack/Bootup.pack", vec![5, xxh(b"stock bytes")])]);
    let tbl = StockHashTable::new(&Platform::WiiU, &doc).unwrap();
    assert!(!tbl.is_file_modded("Pack/Bootup.pack", b"stock bytes", None, true));
    assert!(!tbl.is_file_modded("Pack/Bootup.pack", b"stock bytes", None, false));
}

#[test]
fn unpacked_reference_content_is_unmodified() {
    let doc = dataset(&[("Pack/Bootup.pack", vec![xxh(b"payload")])]);
    let tbl = StockHashTable::new(&Platform::WiiU, &doc).unwrap();
    let packed = yaz0_bytes();
    assert!(!tbl.is_file_modded("Pack/Bootup.pack", &packed, Some(b"payload"), true));
    assert!(tbl.is_file_modded("Pack/Bootup.pack", &packed, Some(b"other payload"), false));
}

#[test]
fn foreign_content_is_modded() {
    let doc = dataset(&[("Pack/Bootup.pack", vec![xxh(b"stock bytes")])]);
    let tbl = StockHashTable::new(&Platform::WiiU, &doc).unwrap();
    assert!(tbl.is_file_modded("Pack/Bootup.pack", b"changed bytes", None, false));
}

#[test]
fn unreadable_container_is_modded() {
    let doc = dataset(&[("Pack/Bootup.pack", vec![xxh(&yaz0_bytes())])]);
    let tbl = StockHashTable::new(&Platform::WiiU, &doc).unwrap();
    assert!(tbl.is_file_modded("Pack/Bootup.pack", &yaz0_bytes(), None, true));
    assert!(tbl.is_file_modded("Pack/Bootup.pack", &yaz0_bytes(), None, false));
}

#[test]
fn empty_content_is_hashed_as_is() {
    assert_eq!(xxh(b""), 17241709254077376921);
    let doc = dataset(&[("Pack/Empty.pack", vec![17241709254077376921])]);
    let tbl = StockHashTable::new(&Platform::WiiU, &doc).unwrap();
    assert!(!tbl.is_file_modded("Pack/Empty.pack", b"", None, false));
    assert!(!tbl.is_file_modded("Pack/Empty.pack", b"", Some(b"ignored"), true));
}

#[test]
fn fingerprint_verdicts() {
    let doc = dataset(&[("Pack/Bootup.pack", vec![10, 20])]);
    let tbl = StockHashTable::new(&Platform::WiiU, &doc).unwrap();
    assert!(!tbl.is_fingerprint_modded("Pack/Bootup.pack", Some(20), true));
    assert!(tbl.is_fingerprint_modded("Pack/Bootup.pack", Some(30), false));
    assert!(tbl.is_fingerprint_modded("Pack/Bootup.pack", None, false));
    assert!(!tbl.is_fingerprint_modded("Pack/Other.pack", None, false));
}

#[test]
fn yaz0_magic_detection() {
    assert!(is_yaz0(b"Yaz0"));
    assert!(is_yaz0(&yaz0_bytes()));
    assert!(!is_yaz0(b"Yaz"));
    assert!(!is_yaz0(b""));
    assert!(!is_yaz0(b"yaz0 data"));
}

#[test]
fn listed_paths_are_distinct_and_tables_compare() {
    let doc = "{\"b/x.pack\":[1],\"a/y.pack\":[2],\"b/x.pack\":[3]}";
    let tbl = StockHashTable::new(&Platform::WiiU, doc).unwrap();
    assert_eq!(tbl.list_stock_files(), vec!["a/y.pack".to_string(), "b/x.pack".to_string()]);
    let again = StockHashTable::new(&Platform::WiiU, doc).unwrap();
    assert_eq!(tbl, again);
    let other = StockHashTable::new(&Platform::Switch, doc).unwrap();
    assert_ne!(tbl, other);
}
