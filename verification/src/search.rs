//! Relevance-ranked search over the package index: per-entry term scores as
//! exact ratios, and the ordering that ranks key relevance above description
//! relevance.

use vstd::prelude::*;

use crate::cache::Cache;
use crate::cache::CacheEntry;
use crate::text;
use vstd::multiset::Multiset;

verus! {

/// A relevance score as an exact ratio: `hits` characters of matched terms
/// against a field of `len` characters. Its value is zero when either part
/// is zero.
#[derive(Debug, Clone, Copy, PartialEq, Eq, Structural)]
pub struct Score {
    pub hits: usize,
    pub len: usize,
}

/// The numerator of the score's exact value.
pub open spec fn score_num(s: Score) -> int {
    if s.len > 0 {
        s.hits as int
    } else {
        0
    }
}

/// The denominator of the score's exact value; always positive.
pub open spec fn score_den(s: Score) -> int {
    if s.len > 0 {
        s.len as int
    } else {
        1
    }
}

/// `a`'s value is strictly below `b`'s.
pub open spec fn score_lt(a: Score, b: Score) -> bool {
    score_num(a) * score_den(b) < score_num(b) * score_den(a)
}

/// `a`'s value equals `b`'s.
pub open spec fn score_eq(a: Score, b: Score) -> bool {
    score_num(a) * score_den(b) == score_num(b) * score_den(a)
}

/// One ranked search answer: the entry's canonical key and fields beside its
/// two scores.
#[derive(Debug)]
pub struct SearchResult {
    pub full_key: String,
    pub description: String,
    pub pname: String,
    pub version: String,
    pub desc_score: Score,
    pub key_score: Score,
}

impl Clone for SearchResult {
    fn clone(&self) -> (res: Self)
        ensures
            res == *self,
    {
        SearchResult {
            full_key: self.full_key.clone(),
            description: self.description.clone(),
            pname: self.pname.clone(),
            version: self.version.clone(),
            desc_score: self.desc_score,
            key_score: self.key_score,
        }
    }
}

/// `x` may stand before `y`: a higher key score, or an equal key score and a
/// description score at least as high.
pub open spec fn ranked_ge(x: SearchResult, y: SearchResult) -> bool {
    score_lt(y.key_score, x.key_score) || (score_eq(x.key_score, y.key_score) && !score_lt(
        x.desc_score,
        y.desc_score,
    ))
}

/// The mathematical value of one search answer.
pub open spec fn result_view(r: SearchResult) -> (
    Seq<char>,
    Seq<char>,
    Seq<char>,
    Seq<char>,
    Score,
    Score,
) {
    (r.full_key@, r.description@, r.pname@, r.version@, r.desc_score, r.key_score)
}

/// The mathematical values of a sequence of search answers.
pub open spec fn results_view(s: Seq<SearchResult>) -> Seq<
    (Seq<char>, Seq<char>, Seq<char>, Seq<char>, Score, Score),
> {
    s.map_values(|r: SearchResult| result_view(r))
}

/// The combined character count of the search terms.
pub open spec fn spec_terms_total(terms: Seq<Seq<char>>) -> int
    decreases terms.len(),
{
    if terms.len() == 0 {
        0
    } else {
        spec_terms_total(terms.drop_last()) + terms.last().len()
    }
}

/// The description hits: each case-folded term that occurs in the
/// case-folded description contributes the term's length.
pub open spec fn spec_desc_hits(entry: CacheEntry, terms: Seq<Seq<char>>) -> int
    decreases terms.len(),
{
    if terms.len() == 0 {
        0
    } else {
        spec_desc_hits(entry, terms.drop_last()) + (if text::is_substring(
            text::lower_of(terms.last()),
            text::lower_of(entry.description@),
        ) {
            terms.last().len() as int
        } else {
            0
        })
    }
}

/// The short-name hits: each case-folded term that occurs in the case-folded
/// short name contributes the term's length.
pub open spec fn spec_key_hits(entry: CacheEntry, terms: Seq<Seq<char>>) -> int
    decreases terms.len(),
{
    if terms.len() == 0 {
        0
    } else {
        spec_key_hits(entry, terms.drop_last()) + (if text::is_substring(
            text::lower_of(terms.last()),
            text::lower_of(entry.pname@),
        ) {
            terms.last().len() as int
        } else {
            0
        })
    }
}

/// Hit counts lie between zero and the terms' combined length.
pub proof fn lemma_hits_bounds(entry: CacheEntry, terms: Seq<Seq<char>>)
    ensures
        0 <= spec_desc_hits(entry, terms) <= spec_terms_total(terms),
        0 <= spec_key_hits(entry, terms) <= spec_terms_total(terms),
    decreases terms.len(),
{
    if terms.len() > 0 {
        lemma_hits_bounds(entry, terms.drop_last());
    }
}

/// A prefix of the terms never has more combined length than the whole.
pub proof fn lemma_terms_total_prefix(terms: Seq<Seq<char>>, i: int)
    requires
        0 <= i <= terms.len(),
    ensures
        spec_terms_total(terms.subrange(0, i)) <= spec_terms_total(terms),
    decreases terms.len() - i,
{
    if i == terms.len() {
        assert(terms.subrange(0, i) =~= terms);
    } else {
        lemma_terms_total_prefix(terms, i + 1);
        assert(terms.subrange(0, i + 1).drop_last() =~= terms.subrange(0, i));
        assert(terms.subrange(0, i + 1).last() == terms[i]);
    }
}

/// Scores one index entry against the search terms: an answer exactly when
/// some term occurs in the case-folded description or short name.
pub fn score_result(key: &String, result: &CacheEntry, search_strings: &Vec<String>) -> (r: Option<
    SearchResult,
>)
    requires
        spec_terms_total(search_strings.deep_view()) <= usize::MAX,
    ensures
        r matches Some(res) ==> {
            &&& spec_desc_hits(*result, search_strings.deep_view()) + spec_key_hits(
                *result,
                search_strings.deep_view(),
            ) > 0
            &&& res.full_key@ == key@
            &&& res.description@ == result.description@
            &&& res.pname@ == result.pname@
            &&& res.version@ == result.version@
            &&& res.desc_score.hits as int == spec_desc_hits(*result, search_strings.deep_view())
            &&& res.desc_score.len == result.description@.len()
            &&& res.key_score.hits as int == spec_key_hits(*result, search_strings.deep_view())
            &&& res.key_score.len == result.pname@.len()
        },
        r is None ==> spec_desc_hits(*result, search_strings.deep_view()) + spec_key_hits(
            *result,
            search_strings.deep_view(),
        ) == 0,
{
    let ghost sd = search_strings.deep_view();
    let low_desc = text::lowercase(result.description.as_str());
    let low_name = text::lowercase(result.pname.as_str());
    let n = search_strings.len();
    let mut desc_hits: usize = 0;
    let mut key_hits: usize = 0;
    proof {
        assert(sd.subrange(0, 0) =~= Seq::<Seq<char>>::empty());
    }
    let mut i: usize = 0;
    while i < n
        invariant
            n == search_strings@.len(),
            sd == search_strings.deep_view(),
            sd.len() == n,
            spec_terms_total(sd) <= usize::MAX,
            i <= n,
            low_desc@ == text::lower_of(result.description@),
            low_name@ == text::lower_of(result.pname@),
            desc_hits as int == spec_desc_hits(*result, sd.subrange(0, i as int)),
            key_hits as int == spec_key_hits(*result, sd.subrange(0, i as int)),
        decreases n - i,
    {
        let ghost pre = sd.subrange(0, i as int);
        let ghost pre1 = sd.subrange(0, i + 1 as int);
        proof {
            assert(pre1.drop_last() =~= pre);
            assert(pre1.last() == sd[i as int]);
            assert(sd[i as int] == search_strings@[i as int]@);
            lemma_hits_bounds(*result, pre1);
            lemma_terms_total_prefix(sd, i + 1);
        }
        let term = &search_strings[i];
        let low_term = text::lowercase(term.as_str());
        let tl = term.as_str().unicode_len();
        if text::contains_sub(low_desc.as_str(), low_term.as_str()) {
            desc_hits = desc_hits + tl;
        }
        if text::contains_sub(low_name.as_str(), low_term.as_str()) {
            key_hits = key_hits + tl;
        }
        i = i + 1;
    }
    proof {
        assert(sd.subrange(0, n as int) =~= sd);
    }
    if desc_hits > 0 || key_hits > 0 {
        let dlen = result.description.as_str().unicode_len();
        let klen = result.pname.as_str().unicode_len();
        Some(
            SearchResult {
                full_key: key.clone(),
                description: result.description.clone(),
                pname: result.pname.clone(),
                version: result.version.clone(),
                desc_score: Score { hits: desc_hits, len: dlen },
                key_score: Score { hits: key_hits, len: klen },
            },
        )
    } else {
        None
    }
}

/// Strict fraction comparison is transitive.
proof fn lemma_frac_lt_lt(n1: int, d1: int, n2: int, d2: int, n3: int, d3: int)
    requires
        d1 > 0,
        d2 > 0,
        d3 > 0,
        n1 * d2 < n2 * d1,
        n2 * d3 < n3 * d2,
    ensures
        n1 * d3 < n3 * d1,
{
    assert(n1 * d3 < n3 * d1) by (nonlinear_arith)
        requires
            d1 > 0,
            d2 > 0,
            d3 > 0,
            n1 * d2 < n2 * d1,
            n2 * d3 < n3 * d2,
    ;
}

/// Fraction equality composes with strict comparison.
proof fn lemma_frac_eq_lt(n1: int, d1: int, n2: int, d2: int, n3: int, d3: int)
    requires
        d1 > 0,
        d2 > 0,
        d3 > 0,
        n1 * d2 == n2 * d1,
        n2 * d3 < n3 * d2,
    ensures
        n1 * d3 < n3 * d1,
{
    assert(n1 * d3 < n3 * d1) by (nonlinear_arith)
        requires
            d1 > 0,
            d2 > 0,
            d3 > 0,
            n1 * d2 == n2 * d1,
            n2 * d3 < n3 * d2,
    ;
}

/// Strict comparison composes with fraction equality.
proof fn lemma_frac_lt_eq(n1: int, d1: int, n2: int, d2: int, n3: int, d3: int)
    requires
        d1 > 0,
        d2 > 0,
        d3 > 0,
        n1 * d2 < n2 * d1,
        n2 * d3 == n3 * d2,
    ensures
        n1 * d3 < n3 * d1,
{
    assert(n1 * d3 < n3 * d1) by (nonlinear_arith)
        requires
            d1 > 0,
            d2 > 0,
            d3 > 0,
            n1 * d2 < n2 * d1,
            n2 * d3 == n3 * d2,
    ;
}

/// Fraction equality is transitive.
proof fn lemma_frac_eq_eq(n1: int, d1: int, n2: int, d2: int, n3: int, d3: int)
    requires
        d1 > 0,
        d2 > 0,
        d3 > 0,
        n1 * d2 == n2 * d1,
        n2 * d3 == n3 * d2,
    ensures
        n1 * d3 == n3 * d1,
{
    assert(n1 * d3 == n3 * d1) by (nonlinear_arith)
        requires
            d1 > 0,
            d2 > 0,
            d3 > 0,
            n1 * d2 == n2 * d1,
            n2 * d3 == n3 * d2,
    ;
}

/// The ranking is total: of any two answers, one may stand first.
pub proof fn lemma_ranked_total(x: SearchResult, y: SearchResult)
    ensures
        ranked_ge(x, y) || ranked_ge(y, x),
{
}

/// The ranking is transitive.
pub proof fn lemma_ranked_trans(x: SearchResult, y: SearchResult, z: SearchResult)
    requires
        ranked_ge(x, y),
        ranked_ge(y, z),
    ensures
        ranked_ge(x, z),
{
    let kx = x.key_score;
    let ky = y.key_score;
    let kz = z.key_score;
    if score_lt(ky, kx) && score_lt(kz, ky) {
        lemma_frac_lt_lt(
            score_num(kz),
            score_den(kz),
            score_num(ky),
            score_den(ky),
            score_num(kx),
            score_den(kx),
        );
    } else if score_lt(ky, kx) && score_eq(ky, kz) {
        lemma_frac_eq_lt(
            score_num(kz),
            score_den(kz),
            score_num(ky),
            score_den(ky),
            score_num(kx),
            score_den(kx),
        );
    } else if score_eq(kx, ky) && score_lt(kz, ky) {
        lemma_frac_lt_eq(
            score_num(kz),
            score_den(kz),
            score_num(ky),
            score_den(ky),
            score_num(kx),
            score_den(kx),
        );
    } else {
        assert(score_eq(kx, ky) && score_eq(ky, kz));
        lemma_frac_eq_eq(
            score_num(kx),
            score_den(kx),
            score_num(ky),
            score_den(ky),
            score_num(kz),
            score_den(kz),
        );
        let dx = x.desc_score;
        let dy = y.desc_score;
        let dz = z.desc_score;
        assert(!score_lt(dx, dy));
        assert(!score_lt(dy, dz));
        if score_lt(dx, dz) {
            if score_eq(dx, dy) {
                if score_eq(dy, dz) {
                    lemma_frac_eq_eq(
                        score_num(dx),
                        score_den(dx),
                        score_num(dy),
                        score_den(dy),
                        score_num(dz),
                        score_den(dz),
                    );
                } else {
                    lemma_frac_lt_eq(
                        score_num(dz),
                        score_den(dz),
                        score_num(dy),
                        score_den(dy),
                        score_num(dx),
                        score_den(dx),
                    );
                }
            } else {
                if score_eq(dy, dz) {
                    lemma_frac_eq_lt(
                        score_num(dz),
                        score_den(dz),
                        score_num(dy),
                        score_den(dy),
                        score_num(dx),
                        score_den(dx),
                    );
                } else {
                    lemma_frac_lt_lt(
                        score_num(dz),
                        score_den(dz),
                        score_num(dy),
                        score_den(dy),
                        score_num(dx),
                        score_den(dx),
                    );
                }
            }
            assert(false);
        }
    }
}

/// Turns one insertion into a multiset insertion.
pub proof fn lemma_insert_to_multiset<A>(s: Seq<A>, p: int, x: A)
    requires
        0 <= p <= s.len(),
    ensures
        s.insert(p, x).to_multiset() == s.to_multiset().insert(x),
{
    broadcast use vstd::seq_lib::group_to_multiset_ensures;

    let a = s.subrange(0, p);
    let b = s.subrange(p, s.len() as int);
    assert(s =~= a + b);
    vstd::seq_lib::lemma_multiset_commutative(a, b);
    assert(s.insert(p, x) =~= a + (seq![x] + b));
    vstd::seq_lib::lemma_multiset_commutative(seq![x], b);
    vstd::seq_lib::lemma_multiset_commutative(a, seq![x] + b);
    assert(seq![x] =~= Seq::<A>::empty().push(x));
    assert(Seq::<A>::empty().to_multiset() =~= Multiset::<A>::empty());
    assert(seq![x].to_multiset() =~= Multiset::<A>::empty().insert(x));
    assert(s.insert(p, x).to_multiset() =~= s.to_multiset().insert(x));
}

/// Exact comparison of two scores' values.
fn score_lt_exec(a: Score, b: Score) -> (r: bool)
    ensures
        r == score_lt(a, b),
{
    let na: u128 = if a.len > 0 {
        a.hits as u128
    } else {
        0u128
    };
    let da: u128 = if a.len > 0 {
        a.len as u128
    } else {
        1u128
    };
    let nb: u128 = if b.len > 0 {
        b.hits as u128
    } else {
        0u128
    };
    let db: u128 = if b.len > 0 {
        b.len as u128
    } else {
        1u128
    };
    proof {
        assert(na <= 0xffff_ffff_ffff_ffff);
        assert(da <= 0xffff_ffff_ffff_ffff);
        assert(nb <= 0xffff_ffff_ffff_ffff);
        assert(db <= 0xffff_ffff_ffff_ffff);
        assert(na * db <= 0xffff_ffff_ffff_ffff * 0xffff_ffff_ffff_ffff) by (nonlinear_arith)
            requires
                na <= 0xffff_ffff_ffff_ffff,
                db <= 0xffff_ffff_ffff_ffff,
        ;
        assert(nb * da <= 0xffff_ffff_ffff_ffff * 0xffff_ffff_ffff_ffff) by (nonlinear_arith)
            requires
                nb <= 0xffff_ffff_ffff_ffff,
                da <= 0xffff_ffff_ffff_ffff,
        ;
    }
    na * db < nb * da
}

/// Exact equality of two scores' values.
fn score_eq_exec(a: Score, b: Score) -> (r: bool)
    ensures
        r == score_eq(a, b),
{
    !score_lt_exec(a, b) && !score_lt_exec(b, a)
}

/// Whether `x` may stand before `y` in the ranking.
fn ranked_ge_exec(x: &SearchResult, y: &SearchResult) -> (r: bool)
    ensures
        r == ranked_ge(*x, *y),
{
    if score_lt_exec(y.key_score, x.key_score) {
        true
    } else if score_eq_exec(x.key_score, y.key_score) {
        !score_lt_exec(x.desc_score, y.desc_score)
    } else {
        false
    }
}

/// The answers the whole index yields, in index order: each entry with at
/// least one term hit, with both exact scores.
pub open spec fn spec_scored(pairs: Seq<(String, CacheEntry)>, terms: Seq<Seq<char>>) -> Seq<
    (Seq<char>, Seq<char>, Seq<char>, Seq<char>, Score, Score),
>
    decreases pairs.len(),
{
    if pairs.len() == 0 {
        Seq::empty()
    } else {
        let rest = spec_scored(pairs.drop_last(), terms);
        let key = pairs.last().0@;
        let e = pairs.last().1;
        if spec_desc_hits(e, terms) + spec_key_hits(e, terms) > 0 {
            rest.push(
                (
                    key,
                    e.description@,
                    e.pname@,
                    e.version@,
                    Score { hits: spec_desc_hits(e, terms) as usize, len: e.description@.len() as usize },
                    Score { hits: spec_key_hits(e, terms) as usize, len: e.pname@.len() as usize },
                ),
            )
        } else {
            rest
        }
    }
}

/// Searches the index: every entry with a term hit appears exactly once,
/// ordered by key score and then by description score, both descending.
pub fn search_cache(strings: &Vec<String>, cache: &Cache) -> (r: Vec<SearchResult>)
    requires
        spec_terms_total(strings.deep_view()) <= usize::MAX,
    ensures
        results_view(r@).to_multiset() == spec_scored(
            cache.nixpkgs@,
            strings.deep_view(),
        ).to_multiset(),
        forall|a: int, b: int| 0 <= a <= b < r@.len() ==> ranked_ge(r@[a], r@[b]),
{
    broadcast use vstd::seq_lib::group_to_multiset_ensures;

    let ghost sd = strings.deep_view();
    let pairs = cache.package_iter();
    let np = pairs.len();
    let mut scored: Vec<SearchResult> = Vec::new();
    proof {
        assert(cache.nixpkgs@.subrange(0, 0) =~= Seq::<(String, CacheEntry)>::empty());
        assert(results_view(scored@) =~= Seq::<
            (Seq<char>, Seq<char>, Seq<char>, Seq<char>, Score, Score),
        >::empty());
    }
    let mut i: usize = 0;
    while i < np
        invariant
            np == cache.nixpkgs@.len(),
            pairs@ == cache.nixpkgs@,
            sd == strings.deep_view(),
            spec_terms_total(sd) <= usize::MAX,
            i <= np,
            results_view(scored@) =~= spec_scored(cache.nixpkgs@.subrange(0, i as int), sd),
        decreases np - i,
    {
        let ghost pre = cache.nixpkgs@.subrange(0, i as int);
        let ghost pre1 = cache.nixpkgs@.subrange(0, i + 1 as int);
        proof {
            assert(pre1.drop_last() =~= pre);
            assert(pre1.last() == cache.nixpkgs@[i as int]);
        }
        match score_result(&pairs[i].0, &pairs[i].1, strings) {
            Some(res) => {
                let ghost old_rv = results_view(scored@);
                scored.push(res);
                proof {
                    assert forall|q: int| 0 <= q < scored@.len() implies results_view(scored@)[q]
                        == old_rv.push(result_view(scored@.last()))[q] by {
                        assert(results_view(scored@)[q] == result_view(scored@[q]));
                    }
                    assert(results_view(scored@) =~= old_rv.push(result_view(scored@.last())));
                }
            },
            None => {},
        }
        i = i + 1;
    }
    proof {
        assert(cache.nixpkgs@.subrange(0, np as int) =~= cache.nixpkgs@);
    }
    let ns = scored.len();
    let mut out: Vec<SearchResult> = Vec::new();
    proof {
        assert(results_view(scored@).subrange(0, 0) =~= Seq::<
            (Seq<char>, Seq<char>, Seq<char>, Seq<char>, Score, Score),
        >::empty());
        assert(results_view(out@) =~= Seq::<
            (Seq<char>, Seq<char>, Seq<char>, Seq<char>, Score, Score),
        >::empty());
        assert(results_view(out@).to_multiset() =~= results_view(scored@).subrange(
            0,
            0,
        ).to_multiset());
    }
    let mut j: usize = 0;
    while j < ns
        invariant
            ns == scored@.len(),
            j <= ns,
            results_view(out@).to_multiset() == results_view(scored@).subrange(
                0,
                j as int,
            ).to_multiset(),
            forall|a: int, b: int| 0 <= a <= b < out@.len() ==> ranked_ge(out@[a], out@[b]),
        decreases ns - j,
    {
        let x = scored[j].clone();
        let ghost xv = result_view(x);
        proof {
            assert(results_view(scored@)[j as int] == result_view(scored@[j as int]));
            assert(xv == results_view(scored@)[j as int]);
        }
        let no = out.len();
        let mut pos: usize = 0;
        while pos < no
            invariant
                no == out@.len(),
                pos <= no,
                forall|q: int| 0 <= q < pos ==> ranked_ge(out@[q], x),
            ensures
                pos <= no,
                forall|q: int| 0 <= q < pos ==> ranked_ge(out@[q], x),
                pos < no ==> !ranked_ge(out@[pos as int], x),
            decreases no - pos,
        {
            if !ranked_ge_exec(&out[pos], &x) {
                break ;
            }
            pos = pos + 1;
        }
        proof {
            if (pos as int) < out@.len() {
                lemma_ranked_total(out@[pos as int], x);
            }
        }
        let ghost old_out = out@;
        out.insert(pos, x);
        proof {
            assert(out@ == old_out.insert(pos as int, x));
            assert forall|a: int, b: int| 0 <= a <= b < out@.len() implies ranked_ge(
                out@[a],
                out@[b],
            ) by {
                let pi = pos as int;
                if a < pi && b < pi {
                    assert(out@[a] == old_out[a] && out@[b] == old_out[b]);
                } else if a < pi && b == pi {
                    assert(out@[a] == old_out[a]);
                } else if a < pi && b > pi {
                    assert(out@[a] == old_out[a] && out@[b] == old_out[b - 1]);
                } else if a == pi && b == pi {
                    lemma_ranked_total(x, x);
                } else if a == pi && b > pi {
                    assert(out@[b] == old_out[b - 1]);
                    if b - 1 == pi {
                        assert(ranked_ge(x, old_out[pi]));
                    } else {
                        assert(ranked_ge(old_out[pi], old_out[b - 1]));
                        lemma_ranked_trans(x, old_out[pi], old_out[b - 1]);
                    }
                } else {
                    assert(out@[a] == old_out[a - 1] && out@[b] == old_out[b - 1]);
                }
            }
            lemma_insert_to_multiset(old_out, pos as int, x);
            assert forall|q: int| 0 <= q < out@.len() implies results_view(out@)[q] == result_view(
                out@[q],
            ) by {}
            assert(results_view(out@) =~= results_view(old_out).insert(pos as int, xv));
            lemma_insert_to_multiset(results_view(old_out), pos as int, xv);
            let ghost sv = results_view(scored@);
            assert(sv.subrange(0, j + 1).drop_last() =~= sv.subrange(0, j as int));
            assert(sv.subrange(0, j + 1) =~= sv.subrange(0, j as int).push(xv));
            sv.subrange(0, j as int).to_multiset_ensures();
            assert(sv.subrange(0, j as int).push(xv).to_multiset() =~= sv.subrange(
                0,
                j as int,
            ).to_multiset().insert(xv));
            assert(sv.subrange(0, j + 1).to_multiset() =~= sv.subrange(
                0,
                j as int,
            ).to_multiset().insert(xv));
        }
        j = j + 1;
    }
    proof {
        assert(results_view(scored@).subrange(0, ns as int) =~= results_view(scored@));
    }
    out
}

} // verus!

