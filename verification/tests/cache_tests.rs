use fritz::cache::build_cache;
use fritz::cache::canonical_prefix_for;
use fritz::cache::normalize_key;
use fritz::cache::parse_max_age;
use fritz::cache::plan_cache_load;
use fritz::cache::Cache;
use fritz::cache::CacheAction;
use fritz::cache::CacheEntry;
use fritz::nix_config::NixConfig;
use fritz::editor::ConfigDocument;
use fritz::app_config::AppConfig;

fn entry(desc: &str, pname: &str, version: &str) -> CacheEntry {
    CacheEntry {
        description: String::from(desc),
        pname: String::from(pname),
        version: String::from(version),
    }
}

fn empty_doc_config() -> NixConfig {
    NixConfig {
        app_config: AppConfig {
            package_config_file: String::new(),
            cache_file_path: String::new(),
            max_cache_age: String::from("1h"),
            num_print: 5,
            num_search_results: 5,
            commit_change: false,
            push_change: false,
            hm_switch: false,
        },
        current_packages: ConfigDocument {
            prefix: String::new(),
            nodes: Vec::new(),
            suffix: String::new(),
        },
    }
}

#[test]
fn resolution_prefers_exact_key() {
    let cache = Cache {
        nixpkgs: vec![
            (String::from("pkgs.foo"), entry("foo pkg", "foo", "1")),
            (String::from("bar"), entry("bar pkg", "bar", "1")),
        ],
    };
    let config = empty_doc_config();
    assert_eq!(
        config.get_full_package_name(&String::from("foo"), &cache),
        Some(String::from("pkgs.foo"))
    );
    assert_eq!(
        config.get_full_package_name(&String::from("bar"), &cache),
        Some(String::from("bar"))
    );
    assert_eq!(config.get_full_package_name(&String::from("baz"), &cache), None);
}

#[test]
fn freshness_boundary_is_inclusive() {
    assert_eq!(plan_cache_load(true, 3600, 3600), CacheAction::ReadStored);
    assert_eq!(plan_cache_load(true, 3601, 3600), CacheAction::Refresh);
    assert_eq!(plan_cache_load(true, 0, 3600), CacheAction::ReadStored);
    assert_eq!(plan_cache_load(false, 0, 3600), CacheAction::Refresh);
}

#[test]
fn max_age_parses_to_seconds() {
    assert_eq!(parse_max_age("12h"), Some(12 * 3600));
    assert_eq!(parse_max_age("90s"), Some(90));
    assert_eq!(parse_max_age("not a duration"), None);
    assert_eq!(parse_max_age(""), None);
}

#[test]
fn platform_prefix_mapping() {
    assert_eq!(
        canonical_prefix_for("x86_64-linux-gnu"),
        Some(String::from("legacyPackages.x86_64-linux"))
    );
    assert_eq!(
        canonical_prefix_for("arm64-darwin"),
        Some(String::from("legacyPackages.aarch64-darwin"))
    );
    assert_eq!(canonical_prefix_for("sparc-solaris"), None);
}

#[test]
fn normalize_key_rewrites_platform_prefix() {
    assert_eq!(
        normalize_key("legacyPackages.x86_64-linux.hello", "legacyPackages.x86_64-linux"),
        String::from("pkgs.hello")
    );
    assert_eq!(
        normalize_key("other.key", "legacyPackages.x86_64-linux"),
        String::from("other.key")
    );
}

#[test]
fn build_cache_normalizes_and_dedups() {
    let raw = vec![
        (String::from("legacyPackages.x86_64-linux.hello"), entry("greets", "hello", "1")),
        (String::from("pkgs.hello"), entry("duplicate", "hello", "2")),
        (String::from("pkgs.other"), entry("other", "other", "3")),
    ];
    let cache = build_cache(&raw, "legacyPackages.x86_64-linux");
    assert_eq!(cache.nixpkgs.len(), 2);
    assert_eq!(cache.nixpkgs[0].0, "pkgs.hello");
    assert_eq!(cache.nixpkgs[0].1.description, "greets");
    assert_eq!(cache.nixpkgs[1].0, "pkgs.other");
    assert!(cache.contains_key("pkgs.hello"));
    assert!(!cache.contains_key("legacyPackages.x86_64-linux.hello"));
}

#[test]
fn package_iter_exposes_all_pairs() {
    let cache = Cache { nixpkgs: vec![(String::from("pkgs.a"), entry("a", "a", "1"))] };
    let pairs = cache.package_iter();
    assert_eq!(pairs.len(), 1);
    assert_eq!(pairs[0].0, "pkgs.a");
}

#[test]
fn platform_string_is_canonical_when_supported() {
    match fritz::cache::get_platform_string() {
        Ok(s) => {
            assert!(
                s == "legacyPackages.x86_64-linux" || s == "legacyPackages.aarch64-darwin"
            );
        },
        Err(e) => {
            assert_eq!(e, fritz::FritzError::UnsupportedPlatform);
        },
    }
}
