//! Plain settings records handed in by the surrounding command-line layer.

use vstd::prelude::*;

verus! {

/// Caller-supplied settings for one invocation: where the managed
/// configuration document and the package-index cache live, how old the cache
/// may grow, and which follow-up steps (apply, commit, push) are enabled.
#[derive(Debug)]
pub struct AppConfig {
    pub package_config_file: String,
    pub cache_file_path: String,
    pub max_cache_age: String,
    pub num_print: usize,
    pub num_search_results: usize,
    pub commit_change: bool,
    pub push_change: bool,
    pub hm_switch: bool,
}

impl Clone for AppConfig {
    fn clone(&self) -> (res: Self)
        ensures
            res == *self,
    {
        AppConfig {
            package_config_file: self.package_config_file.clone(),
            cache_file_path: self.cache_file_path.clone(),
            max_cache_age: self.max_cache_age.clone(),
            num_print: self.num_print,
            num_search_results: self.num_search_results,
            commit_change: self.commit_change,
            push_change: self.push_change,
            hm_switch: self.hm_switch,
        }
    }
}

/// Earlier, narrower settings record; kept for callers that still hand in
/// only the document path, cache location, cache age and print count.
#[derive(Debug)]
pub struct Config {
    pub hm_config_file: String,
    pub cache_file_path: String,
    pub max_cache_age: String,
    pub num_print: usize,
}

impl Clone for Config {
    fn clone(&self) -> (res: Self)
        ensures
            res == *self,
    {
        Config {
            hm_config_file: self.hm_config_file.clone(),
            cache_file_path: self.cache_file_path.clone(),
            max_cache_age: self.max_cache_age.clone(),
            num_print: self.num_print,
        }
    }
}

} // verus!
