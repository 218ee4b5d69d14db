use kataribe::asset::{is_valid_asset_id, AssetKind};
use kataribe::package::is_campaign_entry;
use kataribe::site::{
    check_package_zip, dir_candidate, env_is_truthy, normalize, normalize_path, normalize_site_url, top_name_is_safe, use_tools_setting,
    ZipEntryInfo,
};

#[test]
fn asset_id_validation_blocks_traversal() {
    assert!(is_valid_asset_id("gate.png"));
    assert!(is_valid_asset_id("moka_icon-01.webp"));
    assert!(!is_valid_asset_id(".."), "親ディレクトリ参照を遮断");
    assert!(!is_valid_asset_id("."), "カレント参照を遮断");
    assert!(!is_valid_asset_id("../secret.png"), "/ を含む = 遮断 (charset 外)");
    assert!(!is_valid_asset_id("a/b.png"), "サブパスを遮断");
    assert!(!is_valid_asset_id(""), "空を遮断");
    assert!(!is_valid_asset_id(&"x".repeat(65)), "65 文字は遮断");
    assert!(is_valid_asset_id(&"x".repeat(64)), "64 文字は許可");
}

#[test]
fn asset_kinds_map_to_folders() {
    assert_eq!(AssetKind::Images.dir(), "images");
    assert_eq!(AssetKind::Audios.dir(), "audios");
    assert!(!is_valid_asset_id("画像.png"), "ASCII のみ");
}

#[test]
fn normalize_path_collapses_parent_dirs() {
    let p = "/home/u/proj/app/src-tauri/../../packages/houkago";
    let want = "/home/u/proj/packages/houkago";
    let got = normalize_path(p);
    assert_eq!(got, want, ".. が畳まれ '..' を含まない");
    assert!(!got.contains(".."), "結果に '..' が残らない");
}

#[test]
fn normalize_path_edge_cases() {
    assert_eq!(normalize_path("/../a/./b//c/.."), "/a/b");
    assert_eq!(normalize_path("../x"), "x");
    assert_eq!(normalize_path("/"), "/");
    assert_eq!(normalize_path(""), "");
}

fn entry(name: &str) -> ZipEntryInfo {
    ZipEntryInfo { name: name.into(), encrypted: false, enclosed: true, size: 10, is_dir: name.ends_with('/') }
}

#[test]
fn zip_check_accepts_a_wrapped_package() {
    let es = vec![entry("MyPack/"), entry("MyPack/package.yaml"), entry("MyPack/scenarios/main.yaml")];
    assert_eq!(check_package_zip(&es), Ok("MyPack".to_string()));
}

#[test]
fn zip_check_refuses_each_kind_of_bad_zip() {
    let mut slip = entry("../evil.yaml");
    slip.enclosed = false;
    let err = check_package_zip(&vec![entry("MyPack/package.yaml"), slip]).unwrap_err();
    assert!(err.contains("不正なエントリパス"), "{err}");
    let err = check_package_zip(&vec![entry("package.yaml"), entry("scenarios/main.yaml")]).unwrap_err();
    assert!(err.contains("フォルダ包み形ではありません"), "{err}");
    let err = check_package_zip(&vec![entry("A/package.yaml"), entry("B/other.yaml")]).unwrap_err();
    assert!(err.contains("トップフォルダが 1 つではありません"), "{err}");
    for bad in ["MyPack/tool.exe", "MyPack/run.js", "MyPack/UPPER.EXE"] {
        let err = check_package_zip(&vec![entry("MyPack/package.yaml"), entry(bad)]).unwrap_err();
        assert!(err.contains("実行ファイル・スクリプト"), "{bad}: {err}");
    }
    let err = check_package_zip(&vec![entry("MyPack/scenarios/main.yaml")]).unwrap_err();
    assert!(err.contains("package.yaml が見つかりません"), "{err}");
    let mut enc = entry("MyPack/package.yaml");
    enc.encrypted = true;
    assert!(check_package_zip(&vec![enc]).unwrap_err().contains("暗号化"));
    let mut big = entry("MyPack/package.yaml");
    big.size = 600 * 1024 * 1024;
    assert!(check_package_zip(&vec![big]).unwrap_err().contains("500MB"));
    let err = check_package_zip(&vec![entry("bad:name/package.yaml")]).unwrap_err();
    assert!(err.contains("フォルダ名に使えない文字"), "{err}");
    let many: Vec<ZipEntryInfo> = (0..10001).map(|i| entry(&format!("P/{i}"))).collect();
    assert!(check_package_zip(&many).unwrap_err().contains("10000"));
}

#[test]
fn folder_names_and_candidates() {
    assert!(top_name_is_safe("MyPack"));
    assert!(!top_name_is_safe(""));
    assert!(!top_name_is_safe(".."));
    assert!(!top_name_is_safe("a?b"));
    assert!(!top_name_is_safe("a\u{7}b"));
    assert_eq!(dir_candidate("MyPack", 1), "MyPack");
    assert_eq!(dir_candidate("MyPack", 2), "MyPack_2");
    assert_eq!(dir_candidate("MyPack", 13), "MyPack_13");
}

#[test]
fn switches_urls_and_newlines() {
    for on in ["1", " TRUE ", "Yes", "on"] {
        assert!(env_is_truthy(on), "{on}");
    }
    for off in ["0", "", "no", "onn", "t rue"] {
        assert!(!env_is_truthy(off), "{off}");
    }
    assert_eq!(normalize_site_url(" https://example.org/// "), Ok("https://example.org".to_string()));
    assert_eq!(normalize_site_url("http://a"), Ok("http://a".to_string()));
    assert!(normalize_site_url("ftp://a").is_err());
    assert!(normalize_site_url("http:/").is_err());
    assert_eq!(normalize("一行目\\n二行目"), "一行目\n二行目");
    assert_eq!(normalize("\\"), "\\");
    assert!(is_campaign_entry("campaign.yaml"));
    assert!(!is_campaign_entry("scenarios/classroom.yaml"));
}

#[test]
fn use_tools_is_on_unless_switched_off() {
    assert!(use_tools_setting(None));
    assert!(use_tools_setting(Some("true")));
    assert!(use_tools_setting(Some("")));
    assert!(!use_tools_setting(Some(" OFF ")));
    assert!(!use_tools_setting(Some("0")));
    assert!(!use_tools_setting(Some("No")));
    assert!(!use_tools_setting(Some("false")));
}

#[test]
fn seed_setting_parses_like_u64() {
    for v in ["42", " 7 ", "+5", "", "+", "-1", "1e3", "18446744073709551615", "18446744073709551616", "00012", "４２"] {
        assert_eq!(kataribe::site::parse_seed(v), v.trim().parse::<u64>().ok(), "{v:?}");
    }
}
