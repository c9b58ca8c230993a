//! Name resolution and the reconciliation controller: short names are
//! resolved to canonical keys against the index or the document, the minimal
//! edit is computed, and the outcome reports whether a change occurred.

use vstd::prelude::*;

use crate::app_config::AppConfig;
use crate::cache::Cache;
use crate::editor::ConfigDocument;
use crate::editor::NodeView;
use crate::editor::keys_contain;
use crate::editor::locate_items_v;
use crate::editor::spec_doc_has_element;
use crate::editor::spec_insert_doc;
use crate::editor::spec_remove_doc;
use crate::text;
use crate::FritzError;

verus! {

/// The reconciliation state for one invocation: the caller's settings and
/// the parsed configuration document.
pub struct NixConfig {
    pub app_config: AppConfig,
    pub current_packages: ConfigDocument,
}

/// Builds the reconciliation state from the caller's settings and the raw
/// text of the configuration document; succeeds exactly when the parse
/// locates the managed attribute in the text.
pub fn get_nix_config(app_config: AppConfig, content: &str) -> (r: Result<NixConfig, FritzError>)
    ensures
        r is Ok <==> crate::parse::finds_packages_attr(content@),
        r matches Ok(c) ==> c.current_packages.spec_render() == content@ && c.app_config
            == app_config,
        r matches Err(e) ==> e == FritzError::DocumentParse,
{
    match crate::parse::get_current_packages(content) {
        Some(doc) => Ok(NixConfig { app_config, current_packages: doc }),
        None => Err(FritzError::DocumentParse),
    }
}

/// A short name resolved against the index: the name verbatim if it is a
/// canonical key, else the name behind the fixed prefix, else nothing.
pub open spec fn spec_resolve_index(cache: Cache, name: Seq<char>) -> Option<Seq<char>> {
    if cache.spec_contains_key(name) {
        Some(name)
    } else if cache.spec_contains_key("pkgs."@ + name) {
        Some("pkgs."@ + name)
    } else {
        None
    }
}

/// A short name resolved against the document's list: the name verbatim if
/// some element carries it, else the name behind the fixed prefix, else
/// nothing.
pub open spec fn spec_resolve_doc(ns: Seq<NodeView>, name: Seq<char>) -> Option<Seq<char>> {
    if spec_doc_has_element(ns, name) {
        Some(name)
    } else if spec_doc_has_element(ns, "pkgs."@ + name) {
        Some("pkgs."@ + name)
    } else {
        None
    }
}

/// The canonical keys of the names the index resolves, in request order.
pub open spec fn spec_resolved_index_list(cache: Cache, names: Seq<Seq<char>>) -> Seq<Seq<char>>
    decreases names.len(),
{
    if names.len() == 0 {
        Seq::empty()
    } else {
        let rest = spec_resolved_index_list(cache, names.drop_last());
        match spec_resolve_index(cache, names.last()) {
            Some(c) => rest.push(c),
            None => rest,
        }
    }
}

/// The names the index does not resolve, in request order.
pub open spec fn spec_unresolved_index_list(cache: Cache, names: Seq<Seq<char>>) -> Seq<
    Seq<char>,
>
    decreases names.len(),
{
    if names.len() == 0 {
        Seq::empty()
    } else {
        let rest = spec_unresolved_index_list(cache, names.drop_last());
        match spec_resolve_index(cache, names.last()) {
            Some(_) => rest,
            None => rest.push(names.last()),
        }
    }
}

/// The canonical keys of the names the document resolves, in request order.
pub open spec fn spec_resolved_doc_list(ns: Seq<NodeView>, names: Seq<Seq<char>>) -> Seq<
    Seq<char>,
>
    decreases names.len(),
{
    if names.len() == 0 {
        Seq::empty()
    } else {
        let rest = spec_resolved_doc_list(ns, names.drop_last());
        match spec_resolve_doc(ns, names.last()) {
            Some(c) => rest.push(c),
            None => rest,
        }
    }
}

/// The names the document does not resolve, in request order.
pub open spec fn spec_unresolved_doc_list(ns: Seq<NodeView>, names: Seq<Seq<char>>) -> Seq<
    Seq<char>,
>
    decreases names.len(),
{
    if names.len() == 0 {
        Seq::empty()
    } else {
        let rest = spec_unresolved_doc_list(ns, names.drop_last());
        match spec_resolve_doc(ns, names.last()) {
            Some(_) => rest,
            None => rest.push(names.last()),
        }
    }
}

/// The sequence with each later duplicate dropped, keeping first occurrences
/// in order.
pub open spec fn spec_dedup(s: Seq<Seq<char>>) -> Seq<Seq<char>>
    decreases s.len(),
{
    if s.len() == 0 {
        Seq::empty()
    } else {
        let rest = spec_dedup(s.drop_last());
        if rest.contains(s.last()) {
            rest
        } else {
            rest.push(s.last())
        }
    }
}

/// The keys not yet textually present in the document's rendered text.
pub open spec fn spec_not_present(s: Seq<Seq<char>>, doc_text: Seq<char>) -> Seq<Seq<char>>
    decreases s.len(),
{
    if s.len() == 0 {
        Seq::empty()
    } else {
        let rest = spec_not_present(s.drop_last(), doc_text);
        if text::is_substring(s.last(), doc_text) {
            rest
        } else {
            rest.push(s.last())
        }
    }
}

/// What an add request asks the editor to insert: the resolved keys, each
/// distinct key once, restricted to those not already textually present.
pub open spec fn spec_to_insert(cache: Cache, names: Seq<Seq<char>>, doc: ConfigDocument) -> Seq<
    Seq<char>,
> {
    spec_not_present(spec_dedup(spec_resolved_index_list(cache, names)), doc.spec_render())
}

/// A name the document resolves witnesses that the document's list exists.
pub proof fn lemma_resolved_doc_nonempty_locate(ns: Seq<NodeView>, names: Seq<Seq<char>>)
    requires
        spec_resolved_doc_list(ns, names).len() > 0,
    ensures
        locate_items_v(ns) is Some,
    decreases names.len(),
{
    if names.len() > 0 {
        if spec_resolve_doc(ns, names.last()) is Some {
            assert(spec_doc_has_element(ns, names.last()) || spec_doc_has_element(
                ns,
                "pkgs."@ + names.last(),
            ));
        } else {
            lemma_resolved_doc_nonempty_locate(ns, names.drop_last());
        }
    }
}

/// Whether a reconciliation changed the document, and the changed document
/// when it did.
pub enum EditOutcome {
    /// Nothing needed doing; the document is untouched.
    Unchanged,
    /// The reconciled document; its text differs from the input.
    Changed(ConfigDocument),
}

/// The outcome of an add request, beside the names that did not resolve.
pub struct AddReport {
    pub unresolved: Vec<String>,
    pub outcome: EditOutcome,
}

/// The outcome of a remove request, beside the names that did not resolve.
pub struct RemoveReport {
    pub not_found: Vec<String>,
    pub outcome: EditOutcome,
}

impl NixConfig {
    /// Resolves one short name against the index, preferring the exact key.
    pub fn get_full_package_name(&self, short_name: &String, cache: &Cache) -> (r: Option<String>)
        ensures
            r matches Some(s) ==> spec_resolve_index(*cache, short_name@) == Some(s@),
            r is None ==> spec_resolve_index(*cache, short_name@) is None,
    {
        if cache.contains_key(short_name.as_str()) {
            Some(short_name.clone())
        } else {
            let test_str = text::concat_str("pkgs.", short_name.as_str());
            if cache.contains_key(test_str.as_str()) {
                Some(test_str)
            } else {
                None
            }
        }
    }

    /// Resolves one short name against the document's list, preferring the
    /// exact key.
    pub fn get_full_package_name_from_config(&self, short_name: &String) -> (r: Option<String>)
        ensures
            r matches Some(s) ==> spec_resolve_doc(
                self.current_packages.view_nodes(),
                short_name@,
            ) == Some(s@),
            r is None ==> spec_resolve_doc(self.current_packages.view_nodes(), short_name@)
                is None,
    {
        if self.current_packages.has_list_element(short_name.as_str()) {
            Some(short_name.clone())
        } else {
            let test_str = text::concat_str("pkgs.", short_name.as_str());
            if self.current_packages.has_list_element(test_str.as_str()) {
                Some(test_str)
            } else {
                None
            }
        }
    }

    /// The add flow: resolves the requested names against the index, keeps
    /// each distinct resolved key once, drops those already textually
    /// present, and reconciles the rest into the document. The report lists
    /// the names that did not resolve; its outcome is `Unchanged` exactly
    /// when nothing was left to insert.
    pub fn add_packages(&self, packages: &Vec<String>, cache: &Cache) -> (r: Result<
        AddReport,
        FritzError,
    >)
        ensures
            r matches Ok(rep) ==> rep.unresolved.deep_view() == spec_unresolved_index_list(
                *cache,
                packages.deep_view(),
            ),
            r matches Ok(rep) ==> (rep.outcome is Unchanged <==> spec_to_insert(
                *cache,
                packages.deep_view(),
                self.current_packages,
            ).len() == 0),
            r matches Ok(rep) ==> (rep.outcome matches EditOutcome::Changed(d2) ==> d2.prefix@
                == self.current_packages.prefix@ && d2.suffix@ == self.current_packages.suffix@
                && spec_insert_doc(
                self.current_packages.view_nodes(),
                spec_to_insert(*cache, packages.deep_view(), self.current_packages),
            ) == Ok::<Seq<NodeView>, FritzError>(d2.view_nodes())),
            r matches Err(e) ==> spec_to_insert(
                *cache,
                packages.deep_view(),
                self.current_packages,
            ).len() > 0 && spec_insert_doc(
                self.current_packages.view_nodes(),
                spec_to_insert(*cache, packages.deep_view(), self.current_packages),
            ) == Err::<Seq<NodeView>, FritzError>(e),
    {
        let ghost pd = packages.deep_view();
        let n = packages.len();
        let mut resolved: Vec<String> = Vec::new();
        let mut unresolved: Vec<String> = Vec::new();
        proof {
            assert(pd.subrange(0, 0) =~= Seq::<Seq<char>>::empty());
        }
        let mut i: usize = 0;
        while i < n
            invariant
                n == packages@.len(),
                pd == packages.deep_view(),
                pd.len() == n,
                i <= n,
                resolved.deep_view() =~= spec_resolved_index_list(
                    *cache,
                    pd.subrange(0, i as int),
                ),
                unresolved.deep_view() =~= spec_unresolved_index_list(
                    *cache,
                    pd.subrange(0, i as int),
                ),
            decreases n - i,
        {
            let ghost pre = pd.subrange(0, i as int);
            let ghost pre1 = pd.subrange(0, i + 1 as int);
            proof {
                assert(pre1.drop_last() =~= pre);
                assert(pre1.last() == pd[i as int]);
                assert(pd[i as int] == packages@[i as int]@);
            }
            match self.get_full_package_name(&packages[i], cache) {
                Some(full) => {
                    let ghost old_dv = resolved.deep_view();
                    resolved.push(full);
                    proof {
                        assert(resolved.deep_view() =~= old_dv.push(
                            resolved@[resolved@.len() - 1]@,
                        ));
                    }
                },
                None => {
                    let ghost old_dv = unresolved.deep_view();
                    unresolved.push(packages[i].clone());
                    proof {
                        assert(unresolved.deep_view() =~= old_dv.push(packages@[i as int]@));
                    }
                },
            }
            i = i + 1;
        }
        proof {
            assert(pd.subrange(0, n as int) =~= pd);
        }
        let ghost rd = resolved.deep_view();
        let nr = resolved.len();
        let mut deduped: Vec<String> = Vec::new();
        proof {
            assert(rd.subrange(0, 0) =~= Seq::<Seq<char>>::empty());
        }
        let mut j: usize = 0;
        while j < nr
            invariant
                nr == resolved@.len(),
                rd == resolved.deep_view(),
                rd.len() == nr,
                j <= nr,
                deduped.deep_view() =~= spec_dedup(rd.subrange(0, j as int)),
            decreases nr - j,
        {
            let ghost pre = rd.subrange(0, j as int);
            let ghost pre1 = rd.subrange(0, j + 1 as int);
            proof {
                assert(pre1.drop_last() =~= pre);
                assert(pre1.last() == rd[j as int]);
                assert(rd[j as int] == resolved@[j as int]@);
            }
            if !keys_contain(&deduped, resolved[j].as_str()) {
                let ghost old_dv = deduped.deep_view();
                deduped.push(resolved[j].clone());
                proof {
                    assert(deduped.deep_view() =~= old_dv.push(resolved@[j as int]@));
                }
            }
            j = j + 1;
        }
        proof {
            assert(rd.subrange(0, nr as int) =~= rd);
        }
        let rendered = self.current_packages.render();
        let ghost dd = deduped.deep_view();
        let nd = deduped.len();
        let mut to_insert: Vec<String> = Vec::new();
        proof {
            assert(dd.subrange(0, 0) =~= Seq::<Seq<char>>::empty());
        }
        let mut k: usize = 0;
        while k < nd
            invariant
                nd == deduped@.len(),
                dd == deduped.deep_view(),
                dd.len() == nd,
                k <= nd,
                rendered@ == self.current_packages.spec_render(),
                to_insert.deep_view() =~= spec_not_present(dd.subrange(0, k as int), rendered@),
            decreases nd - k,
        {
            let ghost pre = dd.subrange(0, k as int);
            let ghost pre1 = dd.subrange(0, k + 1 as int);
            proof {
                assert(pre1.drop_last() =~= pre);
                assert(pre1.last() == dd[k as int]);
                assert(dd[k as int] == deduped@[k as int]@);
            }
            if !text::contains_sub(rendered.as_str(), deduped[k].as_str()) {
                let ghost old_dv = to_insert.deep_view();
                to_insert.push(deduped[k].clone());
                proof {
                    assert(to_insert.deep_view() =~= old_dv.push(deduped@[k as int]@));
                }
            }
            k = k + 1;
        }
        proof {
            assert(dd.subrange(0, nd as int) =~= dd);
            assert(to_insert.deep_view() == spec_to_insert(*cache, pd, self.current_packages));
        }
        if to_insert.len() == 0 {
            Ok(AddReport { unresolved, outcome: EditOutcome::Unchanged })
        } else {
            match self.current_packages.insert(&to_insert) {
                Ok(d2) => Ok(AddReport { unresolved, outcome: EditOutcome::Changed(d2) }),
                Err(e) => Err(e),
            }
        }
    }

    /// The remove flow: resolves the requested names against the document's
    /// own list and removes the matches. The report lists the names with no
    /// match; its outcome is `Unchanged` exactly when nothing resolved.
    pub fn remove_packages(&self, packages: &Vec<String>) -> (r: RemoveReport)
        ensures
            r.not_found.deep_view() == spec_unresolved_doc_list(
                self.current_packages.view_nodes(),
                packages.deep_view(),
            ),
            r.outcome is Unchanged <==> spec_resolved_doc_list(
                self.current_packages.view_nodes(),
                packages.deep_view(),
            ).len() == 0,
            r.outcome matches EditOutcome::Changed(d2) ==> d2.prefix@
                == self.current_packages.prefix@ && d2.suffix@ == self.current_packages.suffix@
                && spec_remove_doc(
                self.current_packages.view_nodes(),
                spec_resolved_doc_list(
                    self.current_packages.view_nodes(),
                    packages.deep_view(),
                ),
            ) == Ok::<Seq<NodeView>, FritzError>(d2.view_nodes()),
    {
        let ghost ns = self.current_packages.view_nodes();
        let ghost pd = packages.deep_view();
        let n = packages.len();
        let mut found: Vec<String> = Vec::new();
        let mut not_found: Vec<String> = Vec::new();
        proof {
            assert(pd.subrange(0, 0) =~= Seq::<Seq<char>>::empty());
        }
        let mut i: usize = 0;
        while i < n
            invariant
                n == packages@.len(),
                pd == packages.deep_view(),
                pd.len() == n,
                ns == self.current_packages.view_nodes(),
                i <= n,
                found.deep_view() =~= spec_resolved_doc_list(ns, pd.subrange(0, i as int)),
                not_found.deep_view() =~= spec_unresolved_doc_list(ns, pd.subrange(0, i as int)),
            decreases n - i,
        {
            let ghost pre = pd.subrange(0, i as int);
            let ghost pre1 = pd.subrange(0, i + 1 as int);
            proof {
                assert(pre1.drop_last() =~= pre);
                assert(pre1.last() == pd[i as int]);
                assert(pd[i as int] == packages@[i as int]@);
            }
            match self.get_full_package_name_from_config(&packages[i]) {
                Some(full) => {
                    let ghost old_dv = found.deep_view();
                    found.push(full);
                    proof {
                        assert(found.deep_view() =~= old_dv.push(found@[found@.len() - 1]@));
                    }
                },
                None => {
                    let ghost old_dv = not_found.deep_view();
                    not_found.push(packages[i].clone());
                    proof {
                        assert(not_found.deep_view() =~= old_dv.push(packages@[i as int]@));
                    }
                },
            }
            i = i + 1;
        }
        proof {
            assert(pd.subrange(0, n as int) =~= pd);
        }
        if found.len() == 0 {
            return RemoveReport { not_found, outcome: EditOutcome::Unchanged };
        }
        proof {
            lemma_resolved_doc_nonempty_locate(ns, pd);
        }
        match self.current_packages.remove(&found) {
            Ok(d2) => RemoveReport { not_found, outcome: EditOutcome::Changed(d2) },
            Err(e) => {
                proof {
                    assert(spec_remove_doc(ns, found.deep_view()) == Err::<
                        Seq<NodeView>,
                        FritzError,
                    >(e));
                    assert(locate_items_v(ns) is Some);
                    assert(false);
                }
                RemoveReport { not_found, outcome: EditOutcome::Unchanged }
            },
        }
    }

    /// The texts of the document's list elements, in order; nothing when no
    /// list can be located.
    pub fn list_current_packages(&self) -> (r: Option<Vec<String>>)
        ensures
            r matches Some(v) ==> locate_items_v(self.current_packages.view_nodes()) matches Some(
                items,
            ) && v.deep_view() == crate::editor::spec_elements(items),
            r is None ==> locate_items_v(self.current_packages.view_nodes()) is None,
    {
        match crate::editor::find_list(&self.current_packages.nodes) {
            Some(items) => Some(crate::editor::element_texts(items)),
            None => None,
        }
    }
}

} // verus!
