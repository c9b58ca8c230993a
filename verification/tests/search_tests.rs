use fritz::cache::Cache;
use fritz::cache::CacheEntry;
use fritz::search::score_result;
use fritz::search::search_cache;
use fritz::search::Score;

fn entry(desc: &str, pname: &str, version: &str) -> CacheEntry {
    CacheEntry {
        description: String::from(desc),
        pname: String::from(pname),
        version: String::from(version),
    }
}

fn score_value(s: Score) -> f32 {
    if s.hits > 0 && s.len > 0 {
        (s.hits as f32) / (s.len as f32)
    } else {
        0.0
    }
}

#[test]
fn key_score_dominates_description_score() {
    let a = entry("", "abc", "1");
    let b = entry("abc abc", "x", "1");
    let cache = Cache {
        nixpkgs: vec![(String::from("pkgs.a"), a), (String::from("pkgs.b"), b)],
    };
    let terms = vec![String::from("abc")];
    let results = search_cache(&terms, &cache);
    assert_eq!(results.len(), 2);
    assert_eq!(results[0].full_key, "pkgs.a");
    assert_eq!(score_value(results[0].key_score), 1.0);
    assert_eq!(score_value(results[1].key_score), 0.0);
    assert!(score_value(results[1].desc_score) > 0.0);
}

#[test]
fn score_result_counts_term_lengths() {
    let e = entry("a tool for things", "toolbox", "2");
    let terms = vec![String::from("tool"), String::from("box")];
    let r = score_result(&String::from("pkgs.toolbox"), &e, &terms).expect("should match");
    // "tool" occurs in both fields; "box" only in the name.
    assert_eq!(r.desc_score.hits, 4);
    assert_eq!(r.desc_score.len, 17);
    assert_eq!(r.key_score.hits, 7);
    assert_eq!(r.key_score.len, 7);
    assert_eq!(r.full_key, "pkgs.toolbox");
    assert_eq!(r.version, "2");
}

#[test]
fn score_result_none_without_hits() {
    let e = entry("nothing here", "quux", "1");
    let terms = vec![String::from("zzz")];
    assert!(score_result(&String::from("pkgs.quux"), &e, &terms).is_none());
}

#[test]
fn matching_is_case_folded() {
    let e = entry("A Greeter", "HELLO", "1");
    let terms = vec![String::from("hello"), String::from("greeter")];
    let r = score_result(&String::from("pkgs.hello"), &e, &terms).expect("should match");
    assert_eq!(r.key_score.hits, 5);
    assert_eq!(r.desc_score.hits, 7);
}

#[test]
fn uppercase_term_is_case_folded_too() {
    let e = entry("a greeter", "hello", "1");
    let terms = vec![String::from("HELLO"), String::from("Greeter")];
    let r = score_result(&String::from("pkgs.hello"), &e, &terms).expect("should match");
    assert_eq!(r.key_score.hits, 5);
    assert_eq!(r.desc_score.hits, 7);
}

#[test]
fn search_excludes_entries_without_hits() {
    let cache = Cache {
        nixpkgs: vec![
            (String::from("pkgs.one"), entry("matching text", "one", "1")),
            (String::from("pkgs.two"), entry("unrelated", "two", "1")),
        ],
    };
    let terms = vec![String::from("matching")];
    let results = search_cache(&terms, &cache);
    assert_eq!(results.len(), 1);
    assert_eq!(results[0].full_key, "pkgs.one");
}

#[test]
fn equal_key_scores_order_by_description_score() {
    // Both names miss the term; descriptions hit with different densities.
    let dense = entry("abc", "x1", "1");
    let sparse = entry("abc padded with much more text", "x2", "1");
    let cache = Cache {
        nixpkgs: vec![
            (String::from("pkgs.sparse"), sparse),
            (String::from("pkgs.dense"), dense),
        ],
    };
    let terms = vec![String::from("abc")];
    let results = search_cache(&terms, &cache);
    assert_eq!(results.len(), 2);
    assert_eq!(results[0].full_key, "pkgs.dense");
    assert_eq!(results[1].full_key, "pkgs.sparse");
}
