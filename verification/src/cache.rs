//! The package-index cache model: entries keyed by canonical name, the
//! platform-prefix normalization applied at fetch time, and the freshness
//! decision that picks between refetching and reading the stored snapshot.

use vstd::prelude::*;

use crate::text;
use crate::FritzError;
use platform_info::PlatformInfoAPI;
use platform_info::UNameAPI;

verus! {

/// One installable package as the index describes it.
#[derive(Debug)]
pub struct CacheEntry {
    pub description: String,
    pub pname: String,
    pub version: String,
}

impl Clone for CacheEntry {
    fn clone(&self) -> (res: Self)
        ensures
            res == *self,
    {
        CacheEntry {
            description: self.description.clone(),
            pname: self.pname.clone(),
            version: self.version.clone(),
        }
    }
}

/// The package index: canonical key to entry, each key at most once.
#[derive(Debug)]
pub struct Cache {
    pub nixpkgs: Vec<(String, CacheEntry)>,
}

/// The mathematical contents of a pair list: each key as a character
/// sequence beside its entry.
pub open spec fn pairs_view(v: Seq<(String, CacheEntry)>) -> Seq<(Seq<char>, CacheEntry)> {
    v.map_values(|p: (String, CacheEntry)| (p.0@, p.1))
}

/// Some pair in `s` carries the key `k`.
pub open spec fn spec_pairs_contain(s: Seq<(Seq<char>, CacheEntry)>, k: Seq<char>) -> bool {
    exists|i: int| 0 <= i < s.len() && s[i].0 == k
}

impl Cache {
    /// The index contents as key/entry pairs over character sequences.
    pub open spec fn view_pairs(self) -> Seq<(Seq<char>, CacheEntry)> {
        pairs_view(self.nixpkgs@)
    }

    /// The canonical key `k` is present in the index.
    pub open spec fn spec_contains_key(self, k: Seq<char>) -> bool {
        spec_pairs_contain(self.view_pairs(), k)
    }

    /// Well-formed: no canonical key appears twice.
    pub open spec fn wf(self) -> bool {
        forall|i: int, j: int|
            0 <= i < j < self.nixpkgs@.len() ==> self.nixpkgs@[i].0@ != self.nixpkgs@[j].0@
    }

    /// Whether the canonical key `k` is in the index.
    pub fn contains_key(&self, k: &str) -> (r: bool)
        ensures
            r == self.spec_contains_key(k@),
    {
        let n: usize = self.nixpkgs.len();
        let mut i: usize = 0;
        while i < n
            invariant
                n == self.nixpkgs@.len(),
                i <= n,
                forall|j: int| 0 <= j < i ==> self.view_pairs()[j].0 != k@,
            decreases n - i,
        {
            if text::str_eq(self.nixpkgs[i].0.as_str(), k) {
                assert(self.view_pairs()[i as int].0 == k@);
                return true;
            }
            i = i + 1;
        }
        false
    }

    /// All key/entry pairs, for callers that walk the whole index.
    pub fn package_iter(&self) -> (r: &Vec<(String, CacheEntry)>)
        ensures
            r@ == self.nixpkgs@,
    {
        &self.nixpkgs
    }
}

/// The canonical prefix that replaces a recognized platform identifier, if
/// the platform is one of the supported variants.
pub open spec fn spec_canonical_prefix(platform: Seq<char>) -> Option<Seq<char>> {
    if platform == "x86_64-linux-gnu"@ {
        Some("legacyPackages.x86_64-linux"@)
    } else if platform == "arm64-darwin"@ {
        Some("legacyPackages.aarch64-darwin"@)
    } else {
        None
    }
}

/// Maps a detected platform identifier to the index's own key prefix for
/// that platform; `None` for an unsupported platform.
pub fn canonical_prefix_for(platform: &str) -> (r: Option<String>)
    ensures
        r is Some == spec_canonical_prefix(platform@) is Some,
        r matches Some(s) ==> spec_canonical_prefix(platform@) == Some(s@),
{
    if text::str_eq(platform, "x86_64-linux-gnu") {
        Some("legacyPackages.x86_64-linux".to_owned())
    } else if text::str_eq(platform, "arm64-darwin") {
        Some("legacyPackages.aarch64-darwin".to_owned())
    } else {
        None
    }
}

/// Relies on platform_info's uname query: reports the running machine as
/// "<machine>-<sysname>", lowercased. The answer depends on the machine the
/// process runs on, so nothing is promised of its value.
#[verifier::external_body]
fn current_platform() -> (r: Option<String>) {
    match platform_info::PlatformInfo::new() {
        Ok(info) => {
            let sys = info.sysname().to_string_lossy().to_lowercase();
            let arch = info.machine().to_string_lossy().to_lowercase();
            Some(format!("{}-{}", arch, sys))
        }
        Err(_) => None,
    }
}

/// Detects the running platform and yields the canonical key prefix used by
/// the index for it. Whatever the machine, a successful answer is the prefix
/// of one of the supported platform variants.
pub fn get_platform_string() -> (r: Result<String, FritzError>)
    ensures
        r matches Ok(s) ==> s@ == "legacyPackages.x86_64-linux"@ || s@
            == "legacyPackages.aarch64-darwin"@,
        r matches Err(e) ==> e == FritzError::UnsupportedPlatform,
{
    let plat = match current_platform() {
        Some(p) => p,
        None => {
            return Err(FritzError::UnsupportedPlatform);
        },
    };
    match canonical_prefix_for(plat.as_str()) {
        Some(prefix) => Ok(prefix),
        None => Err(FritzError::UnsupportedPlatform),
    }
}

/// A platform-qualified key with its prefix replaced by the fixed token;
/// any other key is left alone.
pub open spec fn spec_normalize_key(key: Seq<char>, plat: Seq<char>) -> Seq<char> {
    if plat.is_prefix_of(key) {
        "pkgs"@ + key.skip(plat.len() as int)
    } else {
        key
    }
}

/// Rewrites one fetched key to the platform-independent canonical scheme.
pub fn normalize_key(key: &str, plat: &str) -> (r: String)
    ensures
        r@ == spec_normalize_key(key@, plat@),
{
    if text::has_prefix(key, plat) {
        let klen = key.unicode_len();
        let plen = plat.unicode_len();
        let rest = key.substring_char(plen, klen);
        assert(rest@ =~= key@.skip(plat@.len() as int));
        text::concat_str("pkgs", rest)
    } else {
        key.to_owned()
    }
}

/// The index built from raw fetched pairs: every key normalized, the first
/// entry kept where two raw keys normalize to the same canonical key.
pub open spec fn spec_build_index(raw: Seq<(Seq<char>, CacheEntry)>, plat: Seq<char>) -> Seq<
    (Seq<char>, CacheEntry),
>
    decreases raw.len(),
{
    if raw.len() == 0 {
        Seq::empty()
    } else {
        let rest = spec_build_index(raw.drop_last(), plat);
        let k = spec_normalize_key(raw.last().0, plat);
        if spec_pairs_contain(rest, k) {
            rest
        } else {
            rest.push((k, raw.last().1))
        }
    }
}

/// Builds the platform-normalized index from raw fetched pairs.
pub fn build_cache(raw: &Vec<(String, CacheEntry)>, plat: &str) -> (r: Cache)
    ensures
        r.wf(),
        r.view_pairs() == spec_build_index(pairs_view(raw@), plat@),
{
    let n: usize = raw.len();
    let mut out: Vec<(String, CacheEntry)> = Vec::new();
    let mut i: usize = 0;
    while i < n
        invariant
            n == raw@.len(),
            i <= n,
            pairs_view(out@) =~= spec_build_index(pairs_view(raw@).subrange(0, i as int), plat@),
            forall|a: int, b: int| 0 <= a < b < out@.len() ==> out@[a].0@ != out@[b].0@,
        decreases n - i,
    {
        let ghost prefix = pairs_view(raw@).subrange(0, i as int);
        let ghost prefix1 = pairs_view(raw@).subrange(0, i + 1 as int);
        proof {
            assert(prefix1.drop_last() =~= prefix);
            assert(prefix1.last() == (raw@[i as int].0@, raw@[i as int].1));
        }
        let key = normalize_key(raw[i].0.as_str(), plat);
        let entry = raw[i].1.clone();
        let probe = Cache { nixpkgs: out };
        let present = probe.contains_key(key.as_str());
        out = probe.nixpkgs;
        if !present {
            proof {
                assert forall|a: int| 0 <= a < out@.len() implies out@[a].0@ != key@ by {
                    assert(pairs_view(out@)[a].0 == out@[a].0@);
                }
            }
            out.push((key, entry));
            proof {
                assert(pairs_view(out@) =~= pairs_view(out@.drop_last()).push(
                    (out@.last().0@, out@.last().1),
                ));
            }
        }
        i = i + 1;
    }
    proof {
        assert(pairs_view(raw@).subrange(0, n as int) =~= pairs_view(raw@));
    }
    Cache { nixpkgs: out }
}

/// The step the loader takes: refetch the index, or read the stored snapshot.
#[derive(Debug, Clone, Copy, PartialEq, Eq, Structural)]
pub enum CacheAction {
    /// Fetch a fresh index and persist it.
    Refresh,
    /// Deserialize and serve the stored snapshot.
    ReadStored,
}

/// Decides whether the cache must be refetched: a missing file always is, and
/// an existing one exactly when it is older than the allowed age. A file
/// exactly `max_age_secs` old is still fresh.
pub fn plan_cache_load(cache_exists: bool, age_secs: u64, max_age_secs: u64) -> (r: CacheAction)
    ensures
        r == CacheAction::Refresh <==> (!cache_exists || age_secs > max_age_secs),
{
    if !cache_exists {
        CacheAction::Refresh
    } else if age_secs > max_age_secs {
        CacheAction::Refresh
    } else {
        CacheAction::ReadStored
    }
}

/// The span of seconds that a duration literal denotes; it is a function of
/// the literal's characters alone.
pub uninterp spec fn duration_secs_of(s: Seq<char>) -> u64;

/// Relies on duration_string's parser: a valid duration literal denotes a
/// fixed span of time, reported here in whole seconds. Which literals the
/// grammar accepts is not restated here; of the failure side only the empty
/// input is pinned.
#[verifier::external_body]
pub fn parse_max_age(s: &str) -> (r: Option<u64>)
    ensures
        r matches Some(secs) ==> secs == duration_secs_of(s@),
        s@.len() == 0 ==> r is None,
{
    match s.parse::<duration_string::DurationString>() {
        Ok(d) => {
            let dur: std::time::Duration = d.into();
            Some(dur.as_secs())
        },
        Err(_) => None,
    }
}

} // verus!
