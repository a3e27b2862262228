use vstd::prelude::*;

verus! {

use vstd::string::*;
use vstd::seq_lib::*;
use crate::choice::choose_index;
use crate::distance::{
    best_pair, frac_eq, frac_le, frac_le_exec, get_min_score, lemma_best_pair_wf,
    lemma_frac_eq_le, lemma_frac_le_total, lemma_frac_le_trans, Score,
};
use crate::pattern::{hits_any, pattern_matches_any};
use crate::tags::{Tag, TagKind, TagScope, Threshold};
use crate::text::{lower_of, lowercase, text_views};

/// The exact-pattern tags of a catalog, in order.
pub open spec fn exact_only(tags: Seq<Tag>) -> Seq<Tag> {
    tags.filter(|t: Tag| t.kind == TagKind::Exact)
}

/// The fuzzy-candidate tags of a catalog, in order.
pub open spec fn fuzzy_only(tags: Seq<Tag>) -> Seq<Tag> {
    tags.filter(|t: Tag| t.kind == TagKind::FuzzyCandidate)
}

/// The texts of the tags with the given scope, in order.
pub open spec fn scoped_texts(tags: Seq<Tag>, sc: TagScope) -> Seq<Seq<char>> {
    tags.filter(|t: Tag| t.scope == sc).map_values(|t: Tag| t.text@)
}

/// The patterns among `pats` that match one of the texts, verbatim or
/// lowercased; a pattern that does not compile matches nothing.
pub open spec fn matched_patterns(pats: Seq<Seq<char>>, texts: Seq<Seq<char>>) -> Seq<Seq<char>> {
    pats.filter(|p: Seq<char>| hits_any(p, texts))
}

/// The exact-pattern ladder: the whole-message tags matching the source
/// text take strict precedence; only when none matches are the per-token
/// tags held against the tokens.
pub open spec fn exact_matches(tags: Seq<Tag>, src: Seq<char>, toks: Seq<Seq<char>>) -> Seq<
    Seq<char>,
> {
    let whole = matched_patterns(scoped_texts(tags, TagScope::WholeMessage), seq![src]);
    if whole.len() > 0 {
        whole
    } else {
        matched_patterns(scoped_texts(tags, TagScope::PerToken), toks)
    }
}

/// A fuzzy candidate is accepted when texts exist and its least score
/// lies within the threshold (equality included).
pub open spec fn accepted(t: Seq<char>, texts: Seq<Seq<char>>, thr: Threshold) -> bool {
    texts.len() > 0 && frac_le(
        best_pair(t, texts).0,
        best_pair(t, texts).1,
        thr.num as nat,
        thr.den as nat,
    )
}

/// `t`'s least score is at most that of every accepted candidate of the
/// pool (scores compared as exact fractions).
pub open spec fn minimal_among(
    t: Seq<char>,
    pool: Seq<Seq<char>>,
    texts: Seq<Seq<char>>,
    thr: Threshold,
) -> bool {
    forall|k: int|
        0 <= k < pool.len() && accepted(#[trigger] pool[k], texts, thr) ==> frac_le(
            best_pair(t, texts).0,
            best_pair(t, texts).1,
            best_pair(pool[k], texts).0,
            best_pair(pool[k], texts).1,
        )
}

/// Among the first `upto` candidates of the pool, those accepted and
/// minimal over the whole pool, in order.
pub open spec fn winners_upto(
    pool: Seq<Seq<char>>,
    upto: int,
    texts: Seq<Seq<char>>,
    thr: Threshold,
) -> Seq<Seq<char>> {
    pool.take(upto).filter(
        |p: Seq<char>| accepted(p, texts, thr) && minimal_among(p, pool, texts, thr),
    )
}

/// The accepted candidates that share the least score, in order.
pub open spec fn fuzzy_winners(
    pool: Seq<Seq<char>>,
    texts: Seq<Seq<char>>,
    thr: Threshold,
) -> Seq<Seq<char>> {
    winners_upto(pool, pool.len() as int, texts, thr)
}

/// The fuzzy ladder: the whole-message winners against the source text
/// take strict precedence; only when no whole-message tag is accepted
/// are the per-token tags scored against the tokens.
pub open spec fn fuzzy_matches(
    tags: Seq<Tag>,
    src: Seq<char>,
    toks: Seq<Seq<char>>,
    thr: Threshold,
) -> Seq<Seq<char>> {
    let whole = fuzzy_winners(scoped_texts(tags, TagScope::WholeMessage), seq![src], thr);
    if whole.len() > 0 {
        whole
    } else {
        fuzzy_winners(scoped_texts(tags, TagScope::PerToken), toks, thr)
    }
}

/// The lowercase forms of the given strings.
pub open spec fn lowered_views(ts: Seq<String>) -> Seq<Seq<char>> {
    Seq::new(ts.len(), |i: int| lower_of(ts[i]@))
}

/// The winning group of a recognition call, most to least specific:
/// whole-message exact, per-token exact, whole-message fuzzy, per-token
/// fuzzy; empty when nothing matches.
pub open spec fn winning_texts(
    tags: Seq<Tag>,
    src: Seq<char>,
    toks: Seq<Seq<char>>,
    thr: Threshold,
) -> Seq<Seq<char>> {
    let ex = exact_matches(exact_only(tags), src, toks);
    if ex.len() > 0 {
        ex
    } else {
        fuzzy_matches(fuzzy_only(tags), src, toks, thr)
    }
}

/// No candidate among the first `upto` is accepted, so none wins.
proof fn lemma_no_accepted_no_winners_upto(
    pool: Seq<Seq<char>>,
    upto: int,
    texts: Seq<Seq<char>>,
    thr: Threshold,
)
    requires
        0 <= upto <= pool.len(),
        forall|i: int| 0 <= i < pool.len() ==> !accepted(#[trigger] pool[i], texts, thr),
    ensures
        winners_upto(pool, upto, texts, thr).len() == 0,
    decreases upto,
{
    reveal(Seq::filter);
    if upto > 0 {
        lemma_no_accepted_no_winners_upto(pool, upto - 1, texts, thr);
        assert(pool.take(upto).drop_last() =~= pool.take(upto - 1));
        assert(pool.take(upto).last() == pool[upto - 1]);
        assert(!accepted(pool[upto - 1], texts, thr));
    } else {
        assert(pool.take(0) =~= Seq::<Seq<char>>::empty());
    }
}

/// No candidate of the pool is accepted, so there are no winners.
proof fn lemma_no_accepted_no_winners(pool: Seq<Seq<char>>, texts: Seq<Seq<char>>, thr: Threshold)
    requires
        forall|i: int| 0 <= i < pool.len() ==> !accepted(#[trigger] pool[i], texts, thr),
    ensures
        fuzzy_winners(pool, texts, thr).len() == 0,
{
    lemma_no_accepted_no_winners_upto(pool, pool.len() as int, texts, thr);
}

/// The exact-pattern tags of the catalog, as a vector.
fn exact_tags_of(tags: &Vec<Tag>) -> (r: Vec<Tag>)
    ensures
        r@ == exact_only(tags@),
{
    let ghost gv = tags@;
    let mut r: Vec<Tag> = Vec::new();
    proof {
        reveal(Seq::filter);
        assert(gv.take(0) =~= Seq::<Tag>::empty());
        assert(r@ =~= exact_only(gv.take(0)));
    }
    let mut i: usize = 0;
    while i < tags.len()
        invariant
            i <= gv.len(),
            gv == tags@,
            r@ == exact_only(gv.take(i as int)),
        decreases gv.len() - i,
    {
        let ghost rprev = r@;
        if tags[i].kind == TagKind::Exact {
            let t = Tag {
                text: tags[i].text.clone(),
                kind: tags[i].kind,
                scope: tags[i].scope,
            };
            r.push(t);
        }
        proof {
            reveal(Seq::filter);
            assert(gv.take(i + 1).drop_last() =~= gv.take(i as int));
            assert(gv.take(i + 1).last() == gv[i as int]);
            if gv[i as int].kind == TagKind::Exact {
                assert(r@ =~= rprev.push(gv[i as int]));
                assert(exact_only(gv.take(i + 1)) =~= exact_only(gv.take(i as int)).push(
                    gv[i as int],
                ));
            } else {
                assert(exact_only(gv.take(i + 1)) =~= exact_only(gv.take(i as int)));
            }
        }
        i += 1;
    }
    proof {
        assert(gv.take(gv.len() as int) =~= gv);
    }
    r
}

/// The fuzzy-candidate tags of the catalog, as a vector.
fn fuzzy_tags_of(tags: &Vec<Tag>) -> (r: Vec<Tag>)
    ensures
        r@ == fuzzy_only(tags@),
{
    let ghost gv = tags@;
    let mut r: Vec<Tag> = Vec::new();
    proof {
        reveal(Seq::filter);
        assert(gv.take(0) =~= Seq::<Tag>::empty());
        assert(r@ =~= fuzzy_only(gv.take(0)));
    }
    let mut i: usize = 0;
    while i < tags.len()
        invariant
            i <= gv.len(),
            gv == tags@,
            r@ == fuzzy_only(gv.take(i as int)),
        decreases gv.len() - i,
    {
        let ghost rprev = r@;
        if tags[i].kind == TagKind::FuzzyCandidate {
            let t = Tag {
                text: tags[i].text.clone(),
                kind: tags[i].kind,
                scope: tags[i].scope,
            };
            r.push(t);
        }
        proof {
            reveal(Seq::filter);
            assert(gv.take(i + 1).drop_last() =~= gv.take(i as int));
            assert(gv.take(i + 1).last() == gv[i as int]);
            if gv[i as int].kind == TagKind::FuzzyCandidate {
                assert(r@ =~= rprev.push(gv[i as int]));
                assert(fuzzy_only(gv.take(i + 1)) =~= fuzzy_only(gv.take(i as int)).push(
                    gv[i as int],
                ));
            } else {
                assert(fuzzy_only(gv.take(i + 1)) =~= fuzzy_only(gv.take(i as int)));
            }
        }
        i += 1;
    }
    proof {
        assert(gv.take(gv.len() as int) =~= gv);
    }
    r
}

/// The texts of the tags with the given scope, as a vector.
fn scoped_texts_of(tags: &Vec<Tag>, sc: TagScope) -> (r: Vec<String>)
    ensures
        text_views(r@) == scoped_texts(tags@, sc),
{
    let ghost gv = tags@;
    let mut r: Vec<String> = Vec::new();
    proof {
        reveal(Seq::filter);
        assert(gv.take(0) =~= Seq::<Tag>::empty());
        assert(text_views(r@) =~= scoped_texts(gv.take(0), sc));
    }
    let mut i: usize = 0;
    while i < tags.len()
        invariant
            i <= gv.len(),
            gv == tags@,
            text_views(r@) == scoped_texts(gv.take(i as int), sc),
        decreases gv.len() - i,
    {
        let ghost rprev = r@;
        if tags[i].scope == sc {
            r.push(tags[i].text.clone());
        }
        proof {
            reveal(Seq::filter);
            assert(gv.take(i + 1).drop_last() =~= gv.take(i as int));
            assert(gv.take(i + 1).last() == gv[i as int]);
            let fprev = gv.take(i as int).filter(|t: Tag| t.scope == sc);
            if gv[i as int].scope == sc {
                assert(gv.take(i + 1).filter(|t: Tag| t.scope == sc) =~= fprev.push(
                    gv[i as int],
                ));
                assert(text_views(r@) =~= text_views(rprev).push(gv[i as int].text@));
                assert(scoped_texts(gv.take(i + 1), sc) =~= scoped_texts(gv.take(i as int), sc)
                    .push(gv[i as int].text@));
            } else {
                assert(gv.take(i + 1).filter(|t: Tag| t.scope == sc) =~= fprev);
                assert(scoped_texts(gv.take(i + 1), sc) =~= scoped_texts(gv.take(i as int), sc));
            }
        }
        i += 1;
    }
    proof {
        assert(gv.take(gv.len() as int) =~= gv);
    }
    r
}

/// The patterns among `pats` that match one of the texts, in order.
fn filter_matching(pats: &Vec<String>, texts: &Vec<String>) -> (r: Vec<String>)
    ensures
        text_views(r@) == matched_patterns(text_views(pats@), text_views(texts@)),
{
    let ghost pv = text_views(pats@);
    let ghost tv = text_views(texts@);
    let mut r: Vec<String> = Vec::new();
    proof {
        reveal(Seq::filter);
        assert(pv.take(0) =~= Seq::<Seq<char>>::empty());
        assert(text_views(r@) =~= matched_patterns(pv.take(0), tv));
    }
    let mut i: usize = 0;
    while i < pats.len()
        invariant
            i <= pv.len(),
            pv == text_views(pats@),
            tv == text_views(texts@),
            text_views(r@) == matched_patterns(pv.take(i as int), tv),
        decreases pv.len() - i,
    {
        let ghost rprev = r@;
        proof {
            assert(pv[i as int] == pats@[i as int]@);
        }
        if pattern_matches_any(pats[i].as_str(), texts) {
            r.push(pats[i].clone());
        }
        proof {
            reveal(Seq::filter);
            assert(pv.take(i + 1).drop_last() =~= pv.take(i as int));
            assert(pv.take(i + 1).last() == pv[i as int]);
            if hits_any(pv[i as int], tv) {
                assert(text_views(r@) =~= text_views(rprev).push(pv[i as int]));
                assert(matched_patterns(pv.take(i + 1), tv) =~= matched_patterns(
                    pv.take(i as int),
                    tv,
                ).push(pv[i as int]));
            } else {
                assert(matched_patterns(pv.take(i + 1), tv) =~= matched_patterns(
                    pv.take(i as int),
                    tv,
                ));
            }
        }
        i += 1;
    }
    proof {
        assert(pv.take(pv.len() as int) =~= pv);
    }
    r
}

/// Evaluates the exact-pattern tags: the whole-message tags matching the
/// source text, or, when none does, the per-token tags matching some
/// token (verbatim or lowercased). A tag whose pattern does not compile
/// is skipped; that is not an error for the call.
pub fn match_exact(tags: &Vec<Tag>, source: &str, tokens: &Vec<String>) -> (r: Vec<String>)
    ensures
        text_views(r@) == exact_matches(tags@, source@, text_views(tokens@)),
{
    let whole_texts = scoped_texts_of(tags, TagScope::WholeMessage);
    let token_texts = scoped_texts_of(tags, TagScope::PerToken);
    let mut src_list: Vec<String> = Vec::new();
    src_list.push(source.to_owned());
    proof {
        assert(text_views(src_list@) =~= seq![source@]);
    }
    let whole = filter_matching(&whole_texts, &src_list);
    if whole.len() > 0 {
        proof {
            assert(text_views(whole@).len() > 0);
        }
        whole
    } else {
        proof {
            assert(text_views(whole@).len() == 0);
        }
        filter_matching(&token_texts, tokens)
    }
}

/// The accepted candidates of the pool that share the least score, in
/// order: a candidate is accepted when its least score against the
/// texts lies within the threshold (equality included), and the winners
/// are those whose score is minimal among the accepted ones, compared
/// as exact fractions.
fn rank_pool(pats: &Vec<String>, texts: &Vec<String>, thr: &Threshold) -> (r: Vec<String>)
    requires
        thr.wf(),
    ensures
        text_views(r@) == fuzzy_winners(text_views(pats@), text_views(texts@), *thr),
{
    let ghost pv = text_views(pats@);
    let ghost tv = text_views(texts@);
    // first pass: the least accepted score, if any candidate is accepted
    let mut best: Option<Score> = None;
    let ghost mut bw: int = 0;
    let mut i: usize = 0;
    while i < pats.len()
        invariant
            i <= pv.len(),
            thr.wf(),
            pv == text_views(pats@),
            tv == text_views(texts@),
            best is None ==> forall|k: int| 0 <= k < i ==> !accepted(#[trigger] pv[k], tv, *thr),
            best matches Some(s) ==> {
                &&& s.wf()
                &&& tv.len() > 0
                &&& 0 <= bw < i
                &&& accepted(pv[bw], tv, *thr)
                &&& (s.num as nat, s.den as nat) == best_pair(pv[bw], tv)
                &&& forall|k: int|
                    0 <= k < i && accepted(#[trigger] pv[k], tv, *thr) ==> frac_le(
                        s.num as nat,
                        s.den as nat,
                        best_pair(pv[k], tv).0,
                        best_pair(pv[k], tv).1,
                    )
            },
        decreases pv.len() - i,
    {
        let ghost pi = pv[i as int];
        proof {
            assert(pi == pats@[i as int]@);
        }
        match get_min_score(pats[i].as_str(), texts) {
            Option::None => {
                proof {
                    assert(tv.len() == 0);
                    assert(!accepted(pi, tv, *thr));
                }
            },
            Option::Some(c) => {
                proof {
                    assert(tv.len() > 0);
                    assert((c.num as nat, c.den as nat) == best_pair(pi, tv));
                }
                if frac_le_exec(c.num, c.den, thr.num, thr.den) {
                    proof {
                        assert(accepted(pi, tv, *thr));
                    }
                    match best {
                        Option::None => {
                            best = Some(c);
                            proof {
                                bw = i as int;
                            }
                        },
                        Option::Some(s) => {
                            if !frac_le_exec(s.num, s.den, c.num, c.den) {
                                proof {
                                    lemma_frac_le_total(
                                        s.num as nat,
                                        s.den as nat,
                                        c.num as nat,
                                        c.den as nat,
                                    );
                                    assert forall|k: int|
                                        0 <= k < i && accepted(#[trigger] pv[k], tv, *thr)
                                            implies frac_le(
                                        c.num as nat,
                                        c.den as nat,
                                        best_pair(pv[k], tv).0,
                                        best_pair(pv[k], tv).1,
                                    ) by {
                                        lemma_best_pair_wf(pv[k], tv);
                                        lemma_frac_le_trans(
                                            c.num as nat,
                                            c.den as nat,
                                            s.num as nat,
                                            s.den as nat,
                                            best_pair(pv[k], tv).0,
                                            best_pair(pv[k], tv).1,
                                        );
                                    }
                                    bw = i as int;
                                }
                                best = Some(c);
                            }
                        },
                    }
                } else {
                    proof {
                        assert(!accepted(pi, tv, *thr));
                    }
                }
            },
        }
        i += 1;
    }
    let s = match best {
        Option::None => {
            proof {
                lemma_no_accepted_no_winners(pv, tv, *thr);
            }
            let empty: Vec<String> = Vec::new();
            proof {
                assert(text_views(empty@) =~= fuzzy_winners(pv, tv, *thr));
            }
            return empty;
        },
        Option::Some(s) => s,
    };
    // second pass: the accepted candidates whose score ties with the least
    let mut group: Vec<String> = Vec::new();
    proof {
        reveal(Seq::filter);
        assert(pv.take(0) =~= Seq::<Seq<char>>::empty());
        assert(text_views(group@) =~= winners_upto(pv, 0, tv, *thr));
    }
    let mut k: usize = 0;
    while k < pats.len()
        invariant
            k <= pv.len(),
            thr.wf(),
            s.wf(),
            pv == text_views(pats@),
            tv == text_views(texts@),
            tv.len() > 0,
            0 <= bw < pv.len(),
            accepted(pv[bw], tv, *thr),
            (s.num as nat, s.den as nat) == best_pair(pv[bw], tv),
            forall|m: int|
                0 <= m < pv.len() && accepted(#[trigger] pv[m], tv, *thr) ==> frac_le(
                    s.num as nat,
                    s.den as nat,
                    best_pair(pv[m], tv).0,
                    best_pair(pv[m], tv).1,
                ),
            text_views(group@) == winners_upto(pv, k as int, tv, *thr),
        decreases pv.len() - k,
    {
        let ghost pk = pv[k as int];
        proof {
            assert(pk == pats@[k as int]@);
        }
        let accept_and_tie = match get_min_score(pats[k].as_str(), texts) {
            Option::None => {
                proof {
                    assert(tv.len() == 0);
                }
                false
            },
            Option::Some(c) => {
                proof {
                    assert((c.num as nat, c.den as nat) == best_pair(pk, tv));
                }
                frac_le_exec(c.num, c.den, thr.num, thr.den) && frac_le_exec(
                    c.num,
                    c.den,
                    s.num,
                    s.den,
                ) && frac_le_exec(s.num, s.den, c.num, c.den)
            },
        };
        proof {
            // tying with the least accepted score is the same as being
            // minimal among the accepted candidates
            if accept_and_tie {
                assert(accepted(pk, tv, *thr));
                assert(frac_eq(
                    best_pair(pk, tv).0,
                    best_pair(pk, tv).1,
                    s.num as nat,
                    s.den as nat,
                ));
                assert forall|m: int|
                    0 <= m < pv.len() && accepted(#[trigger] pv[m], tv, *thr) implies frac_le(
                    best_pair(pk, tv).0,
                    best_pair(pk, tv).1,
                    best_pair(pv[m], tv).0,
                    best_pair(pv[m], tv).1,
                ) by {
                    lemma_best_pair_wf(pk, tv);
                    lemma_best_pair_wf(pv[m], tv);
                    lemma_frac_eq_le(
                        best_pair(pk, tv).0,
                        best_pair(pk, tv).1,
                        s.num as nat,
                        s.den as nat,
                        best_pair(pv[m], tv).0,
                        best_pair(pv[m], tv).1,
                    );
                }
                assert(minimal_among(pk, pv, tv, *thr));
            } else if accepted(pk, tv, *thr) {
                // not tying: the score is strictly above the least, so not minimal
                assert(frac_le(
                    s.num as nat,
                    s.den as nat,
                    best_pair(pk, tv).0,
                    best_pair(pk, tv).1,
                ));
                if minimal_among(pk, pv, tv, *thr) {
                    assert(frac_le(
                        best_pair(pk, tv).0,
                        best_pair(pk, tv).1,
                        best_pair(pv[bw], tv).0,
                        best_pair(pv[bw], tv).1,
                    ));
                    assert(false);
                }
            }
        }
        let ghost gprev = group@;
        if accept_and_tie {
            group.push(pats[k].clone());
        }
        proof {
            reveal(Seq::filter);
            assert(pv.take(k + 1).drop_last() =~= pv.take(k as int));
            assert(pv.take(k + 1).last() == pk);
            if accepted(pk, tv, *thr) && minimal_among(pk, pv, tv, *thr) {
                assert(text_views(group@) =~= text_views(gprev).push(pk));
                assert(winners_upto(pv, k + 1, tv, *thr) =~= winners_upto(pv, k as int, tv, *thr)
                    .push(pk));
            } else {
                assert(winners_upto(pv, k + 1, tv, *thr) =~= winners_upto(pv, k as int, tv, *thr));
            }
        }
        k += 1;
    }
    proof {
        assert(pv.take(pv.len() as int) =~= pv);
    }
    group
}

/// Evaluates the fuzzy-candidate tags: the whole-message tags are scored
/// against the source text first, and when any is accepted the winners
/// come from them alone; otherwise the per-token tags are scored against
/// the tokens. The winners are the accepted tags sharing the least
/// normalized edit-distance score within the threshold.
pub fn rank_fuzzy(tags: &Vec<Tag>, source: &str, tokens: &Vec<String>, thr: &Threshold) -> (r:
    Vec<String>)
    requires
        thr.wf(),
    ensures
        text_views(r@) == fuzzy_matches(tags@, source@, text_views(tokens@), *thr),
{
    let whole_texts = scoped_texts_of(tags, TagScope::WholeMessage);
    let token_texts = scoped_texts_of(tags, TagScope::PerToken);
    let mut src_list: Vec<String> = Vec::new();
    src_list.push(source.to_owned());
    proof {
        assert(text_views(src_list@) =~= seq![source@]);
    }
    let whole = rank_pool(&whole_texts, &src_list, thr);
    if whole.len() > 0 {
        proof {
            assert(text_views(whole@).len() > 0);
        }
        whole
    } else {
        proof {
            assert(text_views(whole@).len() == 0);
        }
        rank_pool(&token_texts, tokens, thr)
    }
}

/// The tokens, each lowercased.
fn lowercase_all(tokens: &Vec<String>) -> (r: Vec<String>)
    ensures
        text_views(r@) == lowered_views(tokens@),
{
    let mut r: Vec<String> = Vec::new();
    let mut i: usize = 0;
    while i < tokens.len()
        invariant
            i <= tokens@.len(),
            r@.len() == i,
            forall|j: int| 0 <= j < i ==> #[trigger] r@[j]@ == lower_of(tokens@[j]@),
        decreases tokens@.len() - i,
    {
        let low = lowercase(tokens[i].as_str());
        r.push(low);
        i += 1;
    }
    proof {
        assert(text_views(r@) =~= lowered_views(tokens@));
    }
    r
}

/// Recognizes a tag in a message: the exact-pattern tags are evaluated
/// first, and whenever any matches the result is drawn uniformly from
/// the matching set; only otherwise are the fuzzy candidates ranked and
/// the result drawn from the winning group. Within each class,
/// whole-message tags take strict precedence over per-token tags. The
/// tokens are lowercased before matching; the source text is tried
/// verbatim and lowercased. `None` exactly when nothing matches.
pub fn recognize_tag_in_tokens(
    source: &str,
    tokens: &Vec<String>,
    tags: &Vec<Tag>,
    thr: &Threshold,
) -> (r: Option<String>)
    requires
        thr.wf(),
    ensures
        (r is None) <==> winning_texts(tags@, source@, lowered_views(tokens@), *thr).len() == 0,
        r matches Some(t) ==> winning_texts(tags@, source@, lowered_views(tokens@), *thr).contains(
            t@,
        ),
{
    let ghost win = winning_texts(tags@, source@, lowered_views(tokens@), *thr);
    let low = lowercase_all(tokens);
    let exact_tags = exact_tags_of(tags);
    let fuzzy_tags = fuzzy_tags_of(tags);
    let matched = match_exact(&exact_tags, source, &low);
    if matched.len() > 0 {
        let idx = choose_index(matched.len());
        let chosen = matched[idx].clone();
        proof {
            assert(text_views(matched@).len() > 0);
            assert(win == text_views(matched@));
            assert(win[idx as int] == chosen@);
        }
        return Some(chosen);
    }
    proof {
        assert(text_views(matched@).len() == 0);
    }
    let winners = rank_fuzzy(&fuzzy_tags, source, &low, thr);
    if winners.len() > 0 {
        let idx = choose_index(winners.len());
        let chosen = winners[idx].clone();
        proof {
            assert(text_views(winners@).len() > 0);
            assert(win == text_views(winners@));
            assert(win[idx as int] == chosen@);
        }
        Some(chosen)
    } else {
        proof {
            assert(win.len() == 0);
        }
        None
    }
}

/// Whenever any exact-pattern tag matches, the winning group is the
/// exact-pattern group: the fuzzy candidates are never consulted.
pub proof fn lemma_exact_precedes_fuzzy(
    tags: Seq<Tag>,
    src: Seq<char>,
    toks: Seq<Seq<char>>,
    thr: Threshold,
)
    requires
        exact_matches(exact_only(tags), src, toks).len() > 0,
    ensures
        winning_texts(tags, src, toks, thr) == exact_matches(exact_only(tags), src, toks),
{
}

/// Within the exact-pattern class, a whole-message match silences the
/// per-token patterns: they are never evaluated.
pub proof fn lemma_whole_message_precedes_per_token(
    tags: Seq<Tag>,
    src: Seq<char>,
    toks: Seq<Seq<char>>,
)
    requires
        matched_patterns(scoped_texts(tags, TagScope::WholeMessage), seq![src]).len() > 0,
    ensures
        exact_matches(tags, src, toks) == matched_patterns(
            scoped_texts(tags, TagScope::WholeMessage),
            seq![src],
        ),
{
}

/// An empty catalog matches nothing, whatever the tokens.
pub proof fn lemma_empty_catalog_no_match(
    src: Seq<char>,
    toks: Seq<Seq<char>>,
    thr: Threshold,
)
    ensures
        winning_texts(Seq::<Tag>::empty(), src, toks, thr).len() == 0,
{
    reveal(Seq::filter);
    let none = Seq::<Tag>::empty();
    assert(exact_only(none) =~= Seq::<Tag>::empty());
    assert(fuzzy_only(none) =~= Seq::<Tag>::empty());
    assert(scoped_texts(none, TagScope::WholeMessage) =~= Seq::<Seq<char>>::empty());
    assert(scoped_texts(none, TagScope::PerToken) =~= Seq::<Seq<char>>::empty());
    assert(matched_patterns(Seq::<Seq<char>>::empty(), seq![src]) =~= Seq::<Seq<char>>::empty());
    assert(matched_patterns(Seq::<Seq<char>>::empty(), toks) =~= Seq::<Seq<char>>::empty());
    assert(Seq::<Seq<char>>::empty().take(0) =~= Seq::<Seq<char>>::empty());
    assert(fuzzy_winners(Seq::<Seq<char>>::empty(), seq![src], thr) =~= Seq::<Seq<char>>::empty());
    assert(fuzzy_winners(Seq::<Seq<char>>::empty(), toks, thr) =~= Seq::<Seq<char>>::empty());
}

/// A fuzzy candidate whose score equals the threshold exactly is
/// accepted: the bound is inclusive.
pub proof fn lemma_threshold_boundary(t: Seq<char>, texts: Seq<Seq<char>>, thr: Threshold)
    requires
        texts.len() > 0,
        frac_eq(best_pair(t, texts).0, best_pair(t, texts).1, thr.num as nat, thr.den as nat),
    ensures
        accepted(t, texts, thr),
{
}

/// A fuzzy candidate whose score exceeds the threshold is rejected.
pub proof fn lemma_threshold_exceeded(t: Seq<char>, texts: Seq<Seq<char>>, thr: Threshold)
    requires
        !frac_le(best_pair(t, texts).0, best_pair(t, texts).1, thr.num as nat, thr.den as nat),
    ensures
        !accepted(t, texts, thr),
{
}

} // verus!
