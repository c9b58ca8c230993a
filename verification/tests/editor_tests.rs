use fritz::editor::ConfigDocument;
use fritz::nix_config::get_nix_config;
use fritz::nix_config::EditOutcome;
use fritz::app_config::AppConfig;
use fritz::cache::Cache;
use fritz::cache::CacheEntry;
use fritz::FritzError;

fn test_app_config() -> AppConfig {
    AppConfig {
        package_config_file: String::from("packages.nix"),
        cache_file_path: String::from("cache.bin"),
        max_cache_age: String::from("12h"),
        num_print: 10,
        num_search_results: 10,
        commit_change: false,
        push_change: false,
        hm_switch: false,
    }
}

fn entry(desc: &str, pname: &str, version: &str) -> CacheEntry {
    CacheEntry {
        description: String::from(desc),
        pname: String::from(pname),
        version: String::from(version),
    }
}

const DOC: &str = "{\n  home.packages = with pkgs; [\n    pkgs.alpha\n    pkgs.beta\n  ];\n}\n";

fn parse_doc(content: &str) -> ConfigDocument {
    fritz::parse::get_current_packages(content).expect("document should parse")
}

#[test]
fn parse_preserves_text_exactly() {
    let doc = parse_doc(DOC);
    assert_eq!(doc.render(), DOC);
}

#[test]
fn parse_preserves_text_with_scope_and_comments() {
    let content = "{ pkgs, ... }:\n{\n  # managed list\n  home.packages = with pkgs; [\n    alpha\n  ];\n  other = 3;\n}\n";
    let doc = parse_doc(content);
    assert_eq!(doc.render(), content);
}

#[test]
fn malformed_document_yields_parse_error() {
    assert!(fritz::parse::get_current_packages("{ other = 1; }").is_none());
    assert!(fritz::parse::get_current_packages("").is_none());
}

#[test]
fn attribute_set_shapes_are_rejected() {
    // An attribute-set value holds no target list, and the document-only
    // extension of the path holds none either; both parse to nothing.
    assert!(fritz::parse::get_current_packages("{ home.packages = { a = 1; }; }").is_none());
    assert!(fritz::parse::get_current_packages("{home.packages.a=1;}").is_none());
    // An attribute set whose binding has a single child once made the
    // outside lookup abort; it must simply count as not found.
    assert!(fritz::parse::get_current_packages("{ home.packages = { inherit a; }; }").is_none());
}

#[test]
fn nested_attribute_is_found() {
    let content = "{\n  home = {\n    packages = [\n      pkgs.alpha\n    ];\n  };\n}\n";
    let doc = parse_doc(content);
    assert_eq!(doc.render(), content);
    let keys = vec![String::from("pkgs.beta")];
    let edited = doc.insert(&keys).expect("insert should succeed");
    let expected =
        "{\n  home = {\n    packages = [\n      pkgs.alpha\n    pkgs.beta\n    ];\n  };\n}\n";
    assert_eq!(edited.render(), expected);
}

#[test]
fn document_without_list_yields_parse_error_on_insert() {
    let content = "{\n  home.packages = \"not-a-list\";\n}\n";
    let doc = parse_doc(content);
    let keys = vec![String::from("pkgs.gamma")];
    match doc.insert(&keys) {
        Err(FritzError::DocumentParse) => {},
        other => panic!("expected DocumentParse, got {:?}", other.is_ok()),
    }
}

#[test]
fn insert_adds_entry_before_closing_delimiter() {
    let doc = parse_doc(DOC);
    let keys = vec![String::from("pkgs.gamma")];
    let edited = doc.insert(&keys).expect("insert should succeed");
    let expected = "{\n  home.packages = with pkgs; [\n    pkgs.alpha\n    pkgs.beta\n    pkgs.gamma\n  ];\n}\n";
    assert_eq!(edited.render(), expected);
}

#[test]
fn insert_skips_present_entry() {
    let doc = parse_doc(DOC);
    let keys = vec![String::from("pkgs.alpha")];
    let edited = doc.insert(&keys).expect("insert should succeed");
    assert_eq!(edited.render(), DOC);
}

#[test]
fn remove_deletes_entry_and_preceding_newline() {
    let doc = parse_doc(DOC);
    let keys = vec![String::from("pkgs.beta")];
    let edited = doc.remove(&keys).expect("remove should succeed");
    let expected = "{\n  home.packages = with pkgs; [\n    pkgs.alpha\n  ];\n}\n";
    assert_eq!(edited.render(), expected);
}

#[test]
fn remove_then_insert_round_trip() {
    let doc = parse_doc(DOC);
    let keys = vec![String::from("pkgs.gamma"), String::from("pkgs.delta")];
    let edited = doc.insert(&keys).expect("insert should succeed");
    let back = edited.remove(&keys).expect("remove should succeed");
    assert_eq!(back.render(), DOC);
}

#[test]
fn round_trip_covers_delimiter_text_key() {
    // Even a requested key equal to the list's closing delimiter text goes
    // in and comes out again without a trace.
    let doc = parse_doc(DOC);
    let keys = vec![String::from("]"), String::from("pkgs.gamma")];
    let edited = doc.insert(&keys).expect("insert should succeed");
    let back = edited.remove(&keys).expect("remove should succeed");
    assert_eq!(back.render(), DOC);
}

#[test]
fn add_packages_idempotent_when_all_present() {
    let config = get_nix_config(test_app_config(), DOC).expect("parse");
    let cache = Cache {
        nixpkgs: vec![
            (String::from("pkgs.alpha"), entry("first", "alpha", "1")),
            (String::from("pkgs.beta"), entry("second", "beta", "2")),
        ],
    };
    let packages = vec![String::from("alpha"), String::from("beta")];
    let report = config.add_packages(&packages, &cache).expect("add should succeed");
    assert!(report.unresolved.is_empty());
    assert!(matches!(report.outcome, EditOutcome::Unchanged));
}

#[test]
fn add_packages_dedups_duplicate_requests() {
    let config = get_nix_config(test_app_config(), DOC).expect("parse");
    let cache = Cache {
        nixpkgs: vec![
            (String::from("pkgs.foo"), entry("foo pkg", "foo", "1")),
            (String::from("pkgs.bar"), entry("bar pkg", "bar", "1")),
        ],
    };
    let packages = vec![String::from("foo"), String::from("foo"), String::from("bar")];
    let report = config.add_packages(&packages, &cache).expect("add should succeed");
    assert!(report.unresolved.is_empty());
    let edited = match report.outcome {
        EditOutcome::Changed(d) => d,
        EditOutcome::Unchanged => panic!("expected a change"),
    };
    let rendered = edited.render();
    assert_eq!(rendered.matches("pkgs.foo").count(), 1);
    assert_eq!(rendered.matches("pkgs.bar").count(), 1);
}

#[test]
fn add_packages_reports_unresolved_names() {
    let config = get_nix_config(test_app_config(), DOC).expect("parse");
    let cache = Cache { nixpkgs: vec![(String::from("pkgs.foo"), entry("foo pkg", "foo", "1"))] };
    let packages = vec![String::from("foo"), String::from("nosuch")];
    let report = config.add_packages(&packages, &cache).expect("add should succeed");
    assert_eq!(report.unresolved, vec![String::from("nosuch")]);
    assert!(matches!(report.outcome, EditOutcome::Changed(_)));
}

#[test]
fn remove_packages_removes_by_short_name() {
    let config = get_nix_config(test_app_config(), DOC).expect("parse");
    let packages = vec![String::from("alpha")];
    let report = config.remove_packages(&packages);
    assert!(report.not_found.is_empty());
    let edited = match report.outcome {
        EditOutcome::Changed(d) => d,
        EditOutcome::Unchanged => panic!("expected a change"),
    };
    let expected = "{\n  home.packages = with pkgs; [\n    pkgs.beta\n  ];\n}\n";
    assert_eq!(edited.render(), expected);
}

#[test]
fn remove_packages_unchanged_when_nothing_resolves() {
    let config = get_nix_config(test_app_config(), DOC).expect("parse");
    let packages = vec![String::from("absent")];
    let report = config.remove_packages(&packages);
    assert_eq!(report.not_found, vec![String::from("absent")]);
    assert!(matches!(report.outcome, EditOutcome::Unchanged));
}

#[test]
fn list_current_packages_lists_elements() {
    let config = get_nix_config(test_app_config(), DOC).expect("parse");
    let listed = config.list_current_packages().expect("list should exist");
    assert_eq!(listed, vec![String::from("pkgs.alpha"), String::from("pkgs.beta")]);
}
