use tethys::server::{ConfigHash, DnGameConfig, GameServer};

fn server_with_hashes(pairs: &[(&str, &str)]) -> GameServer {
    GameServer {
        id: 1,
        game: "dn".to_string(),
        short_name: "sea".to_string(),
        long_name: "Sea Server".to_string(),
        version: "41".to_string(),
        pre_version: None,
        server: 0,
        configuration: DnGameConfig {
            ip: vec!["10.0.0.1:200".to_string()],
            patch_config_list: "http://patch.example.test/manifest.xml".to_string(),
        },
        hotfix_hash: pairs
            .iter()
            .map(|(v, h)| ConfigHash { version: v.to_string(), hash: h.to_string() })
            .collect(),
    }
}

#[test]
fn hash_lookup_by_exact_version_string() {
    let s = server_with_hashes(&[("1", "aa"), ("2", "bb"), ("2", "cc")]);
    assert_eq!(s.get_hash_by_version("2").map(|h| h.hash.as_str()), Some("bb"));
    assert_eq!(s.get_hash_by_version("3").map(|h| h.hash.as_str()), None);
}

#[test]
fn hashes_rank_by_numeric_version_key_highest_first() {
    let s = server_with_hashes(&[("2", "aa"), ("10", "bb"), ("1", "cc")]);
    let all: Vec<&str> = s.get_all_hash().iter().map(|h| h.version.as_str()).collect();
    assert_eq!(all, vec!["10", "2", "1"]);
    assert_eq!(s.get_latest_hash().map(|h| h.hash.as_str()), Some("bb"));
    assert_eq!(s.get_hash_by_index(2).map(|h| h.version.as_str()), Some("1"));
    assert!(s.get_hash_by_index(3).is_none());
}

#[test]
fn version_key_ignores_non_digits() {
    let s = server_with_hashes(&[("v1.2", "aa"), ("v1.10", "bb")]);
    // Keys are 12 and 110, so "v1.10" ranks first.
    let all: Vec<&str> = s.get_all_hash().iter().map(|h| h.version.as_str()).collect();
    assert_eq!(all, vec!["v1.10", "v1.2"]);
}

#[test]
fn empty_hash_list_has_no_latest() {
    let s = server_with_hashes(&[]);
    assert!(s.get_latest_hash().is_none());
    assert!(s.get_all_hash().is_empty());
}
