use vstd::prelude::*;

verus! {

use vstd::string::*;
use crate::choice::choose_index;
use crate::distance::{
    best_pair, frac_eq, frac_le, frac_le_exec, get_min_score, lemma_best_pair_wf,
    lemma_frac_eq_le, lemma_frac_le_total, lemma_frac_le_trans, Score,
};
use crate::recognize::accepted;
use crate::tags::Threshold;
use crate::text::{chars_vec, text_views};
use crate::tokenizer::{frags_lowered, split_on_tokens};

/// A word made of nothing but `m` and Cyrillic `м`, at least two of them.
pub open spec fn mmm_word(w: Seq<char>) -> bool {
    w.len() >= 2 && forall|i: int| 0 <= i < w.len() ==> w[i] == 'm' || w[i] == 'м'
}

/// A word carrying the mars sign, or made of nothing but the `а`, `о`,
/// `a`, `o` vowels, at least two of them.
pub open spec fn scream_word(w: Seq<char>) -> bool {
    w.contains('♂') || (w.len() >= 2 && forall|i: int|
        0 <= i < w.len() ==> w[i] == 'а' || w[i] == 'о' || w[i] == 'a' || w[i] == 'o')
}

/// One of the scream replies.
pub open spec fn orgasm_text(s: Seq<char>) -> bool {
    ||| s == "Orgasm 1"@
    ||| s == "Orgasm 2"@
    ||| s == "Orgasm 3"@
    ||| s == "Orgasm 4"@
    ||| s == "Orgasm 5"@
    ||| s == "Orgasm 6"@
    ||| s == "RIP EARS ORGASM"@
}

/// A word that triggers a canned reply.
pub open spec fn special_word(w: Seq<char>) -> bool {
    mmm_word(w) || scream_word(w)
}

/// The reply a special word may produce: a humming word yields the
/// humming reply; a scream yields one of the scream replies.
pub open spec fn output_for(w: Seq<char>, s: Seq<char>) -> bool {
    (mmm_word(w) && s == "Mmmmh"@) || (!mmm_word(w) && scream_word(w) && orgasm_text(s))
}

/// The reply for a single word: the humming reply for a humming word, a
/// randomly drawn scream reply for a scream, nothing otherwise.
pub fn maybe_special_case(w: &str) -> (r: Option<&'static str>)
    ensures
        mmm_word(w@) ==> (r matches Some(s) && s@ == "Mmmmh"@),
        !mmm_word(w@) && scream_word(w@) ==> (r matches Some(s) && orgasm_text(s@)),
        !special_word(w@) ==> r is None,
{
    let chars = chars_vec(w);
    let n = chars.len();
    let mut is_mmm = n >= 2;
    let mut i: usize = 0;
    while i < n
        invariant
            n == chars@.len(),
            chars@ == w@,
            i <= n,
            is_mmm == (n >= 2 && forall|j: int| 0 <= j < i ==> w@[j] == 'm' || w@[j] == 'м'),
        decreases n - i,
    {
        if !(chars[i] == 'm' || chars[i] == 'м') {
            is_mmm = false;
        }
        i += 1;
    }
    if is_mmm {
        return Some("Mmmmh");
    }
    let mut has_mars = false;
    let mut is_vowels = n >= 2;
    let mut k: usize = 0;
    while k < n
        invariant
            n == chars@.len(),
            chars@ == w@,
            k <= n,
            has_mars == exists|j: int| 0 <= j < k && w@[j] == '♂',
            is_vowels == (n >= 2 && forall|j: int|
                0 <= j < k ==> w@[j] == 'а' || w@[j] == 'о' || w@[j] == 'a' || w@[j] == 'o'),
        decreases n - k,
    {
        if chars[k] == '♂' {
            proof {
                assert(w@[k as int] == '♂');
            }
            has_mars = true;
        }
        if !(chars[k] == 'а' || chars[k] == 'о' || chars[k] == 'a' || chars[k] == 'o') {
            is_vowels = false;
        }
        k += 1;
    }
    proof {
        assert(has_mars == w@.contains('♂'));
    }
    if has_mars || is_vowels {
        let options: Vec<&'static str> = vec![
            "Orgasm 1",
            "Orgasm 2",
            "Orgasm 3",
            "Orgasm 4",
            "Orgasm 5",
            "Orgasm 6",
            "RIP EARS ORGASM",
        ];
        let idx = choose_index(options.len());
        let s = options[idx];
        proof {
            assert(orgasm_text(options@[idx as int]@));
        }
        return Some(s);
    }
    None
}

/// The words that are special, in order, as a sequence of views.
pub open spec fn specials_of(ws: Seq<Seq<char>>) -> Seq<Seq<char>> {
    ws.filter(|w: Seq<char>| special_word(w))
}

/// The canned replies the given words trigger, in order: one reply for
/// each special word, and none for the others.
pub fn extract_special_cases(words: &Vec<String>) -> (r: Vec<&'static str>)
    ensures
        r@.len() == specials_of(text_views(words@)).len(),
        forall|j: int|
            0 <= j < r@.len() ==> output_for(
                specials_of(text_views(words@))[j],
                #[trigger] r@[j]@,
            ),
{
    let ghost wv = text_views(words@);
    let mut r: Vec<&'static str> = Vec::new();
    proof {
        reveal(Seq::filter);
        assert(wv.take(0) =~= Seq::<Seq<char>>::empty());
        assert(specials_of(wv.take(0)) =~= Seq::<Seq<char>>::empty());
    }
    let mut i: usize = 0;
    while i < words.len()
        invariant
            i <= wv.len(),
            wv == text_views(words@),
            r@.len() == specials_of(wv.take(i as int)).len(),
            forall|j: int|
                0 <= j < r@.len() ==> output_for(
                    specials_of(wv.take(i as int))[j],
                    #[trigger] r@[j]@,
                ),
        decreases wv.len() - i,
    {
        let ghost rprev = r@;
        proof {
            assert(wv[i as int] == words@[i as int]@);
        }
        let hit = maybe_special_case(words[i].as_str());
        match hit {
            Option::Some(s) => {
                r.push(s);
            },
            Option::None => {
            },
        }
        proof {
            reveal(Seq::filter);
            assert(wv.take(i + 1).drop_last() =~= wv.take(i as int));
            assert(wv.take(i + 1).last() == wv[i as int]);
            if special_word(wv[i as int]) {
                assert(specials_of(wv.take(i + 1)) =~= specials_of(wv.take(i as int)).push(
                    wv[i as int],
                ));
                assert(r@.len() == rprev.len() + 1);
                assert(output_for(wv[i as int], r@[r@.len() - 1]@));
            } else {
                assert(specials_of(wv.take(i + 1)) =~= specials_of(wv.take(i as int)));
                assert(r@ == rprev);
            }
        }
        i += 1;
    }
    proof {
        assert(wv.take(wv.len() as int) =~= wv);
    }
    r
}


/// One entry of the phrase catalog: a reply id and the phrases that
/// trigger it.
pub struct PhraseEntry {
    pub id: String,
    pub tags: Vec<String>,
}

/// The view of a catalog: each entry's id and phrase texts.
pub open spec fn entry_views(es: Seq<PhraseEntry>) -> Seq<(Seq<char>, Seq<Seq<char>>)> {
    Seq::new(es.len(), |i: int| (es[i].id@, text_views(es[i].tags@)))
}

/// The largest accepted score among the first `upto` phrases of an
/// entry, walking left to right and keeping the earlier phrase on
/// rational ties; nothing when no phrase is accepted.
pub open spec fn entry_pair_upto(
    tags: Seq<Seq<char>>,
    upto: int,
    toks: Seq<Seq<char>>,
    thr: Threshold,
) -> Option<(nat, nat)>
    decreases upto,
{
    if upto <= 0 {
        None
    } else {
        let prev = entry_pair_upto(tags, upto - 1, toks, thr);
        let ok = accepted(tags[upto - 1], toks, thr);
        let pr = best_pair(tags[upto - 1], toks);
        match prev {
            Option::None => if ok {
                Some(pr)
            } else {
                None
            },
            Option::Some(pp) => if ok && !frac_le(pr.0, pr.1, pp.0, pp.1) {
                Some(pr)
            } else {
                Some(pp)
            },
        }
    }
}

/// The score of a catalog entry against the tokens: the largest
/// accepted score among its phrases, if any phrase is accepted.
pub open spec fn entry_pair(
    e: (Seq<char>, Seq<Seq<char>>),
    toks: Seq<Seq<char>>,
    thr: Threshold,
) -> Option<(nat, nat)> {
    entry_pair_upto(e.1, e.1.len() as int, toks, thr)
}

/// Some phrase of the entry is accepted against the tokens.
pub open spec fn entry_passes(
    e: (Seq<char>, Seq<Seq<char>>),
    toks: Seq<Seq<char>>,
    thr: Threshold,
) -> bool {
    entry_pair(e, toks, thr) is Some
}

/// The entry's score, or zero when no phrase is accepted.
pub open spec fn entry_pair_or(
    e: (Seq<char>, Seq<Seq<char>>),
    toks: Seq<Seq<char>>,
    thr: Threshold,
) -> (nat, nat) {
    match entry_pair(e, toks, thr) {
        Option::Some(p) => p,
        Option::None => (0, 1),
    }
}

/// The entry's score is at most that of every passing entry of the
/// catalog (scores compared as exact fractions).
pub open spec fn entry_minimal(
    e: (Seq<char>, Seq<Seq<char>>),
    cat: Seq<(Seq<char>, Seq<Seq<char>>)>,
    toks: Seq<Seq<char>>,
    thr: Threshold,
) -> bool {
    forall|k: int|
        0 <= k < cat.len() && entry_passes(#[trigger] cat[k], toks, thr) ==> frac_le(
            entry_pair_or(e, toks, thr).0,
            entry_pair_or(e, toks, thr).1,
            entry_pair_or(cat[k], toks, thr).0,
            entry_pair_or(cat[k], toks, thr).1,
        )
}

/// Among the first `upto` entries, the ids of those passing with a
/// score minimal over the whole catalog, in order.
pub open spec fn phrase_winners_upto(
    cat: Seq<(Seq<char>, Seq<Seq<char>>)>,
    upto: int,
    toks: Seq<Seq<char>>,
    thr: Threshold,
) -> Seq<Seq<char>> {
    cat.take(upto).filter(
        |e: (Seq<char>, Seq<Seq<char>>)| entry_passes(e, toks, thr) && entry_minimal(
            e,
            cat,
            toks,
            thr,
        ),
    ).map_values(|e: (Seq<char>, Seq<Seq<char>>)| e.0)
}

/// The ids of the passing entries that share the least score, in order.
pub open spec fn phrase_winners(
    cat: Seq<(Seq<char>, Seq<Seq<char>>)>,
    toks: Seq<Seq<char>>,
    thr: Threshold,
) -> Seq<Seq<char>> {
    phrase_winners_upto(cat, cat.len() as int, toks, thr)
}

/// An entry's score, when there is one, is a well-formed fraction over
/// non-empty tokens.
proof fn lemma_entry_pair_wf(tags: Seq<Seq<char>>, upto: int, toks: Seq<Seq<char>>, thr: Threshold)
    requires
        0 <= upto <= tags.len(),
    ensures
        entry_pair_upto(tags, upto, toks, thr) matches Some(p) ==> 1 <= p.1 && p.0 <= p.1
            && toks.len() > 0,
    decreases upto,
{
    if upto > 0 {
        lemma_entry_pair_wf(tags, upto - 1, toks, thr);
        if accepted(tags[upto - 1], toks, thr) {
            lemma_best_pair_wf(tags[upto - 1], toks);
        }
    }
}

/// No entry of the catalog passes, so there are no phrase winners.
proof fn lemma_no_passing_no_phrase_winners(
    cat: Seq<(Seq<char>, Seq<Seq<char>>)>,
    upto: int,
    toks: Seq<Seq<char>>,
    thr: Threshold,
)
    requires
        0 <= upto <= cat.len(),
        forall|i: int| 0 <= i < cat.len() ==> !entry_passes(#[trigger] cat[i], toks, thr),
    ensures
        phrase_winners_upto(cat, upto, toks, thr).len() == 0,
    decreases upto,
{
    reveal(Seq::filter);
    if upto > 0 {
        lemma_no_passing_no_phrase_winners(cat, upto - 1, toks, thr);
        assert(cat.take(upto).drop_last() =~= cat.take(upto - 1));
        assert(cat.take(upto).last() == cat[upto - 1]);
        assert(!entry_passes(cat[upto - 1], toks, thr));
    } else {
        assert(cat.take(0) =~= Seq::<(Seq<char>, Seq<Seq<char>>)>::empty());
    }
}

/// The largest accepted score among the entry's phrases, if any.
fn entry_score(e: &PhraseEntry, tokens: &Vec<String>, thr: &Threshold) -> (r: Option<Score>)
    requires
        thr.wf(),
    ensures
        (r is None) <==> (entry_pair((e.id@, text_views(e.tags@)), text_views(tokens@), *thr)
            is None),
        r matches Some(c) ==> c.wf() && entry_pair(
            (e.id@, text_views(e.tags@)),
            text_views(tokens@),
            *thr,
        ) == Some((c.num as nat, c.den as nat)),
{
    let ghost gv = text_views(e.tags@);
    let ghost toks = text_views(tokens@);
    let mut cur: Option<Score> = None;
    let mut j: usize = 0;
    proof {
        assert(entry_pair_upto(gv, 0, toks, *thr) is None);
    }
    while j < e.tags.len()
        invariant
            j <= gv.len(),
            thr.wf(),
            gv == text_views(e.tags@),
            toks == text_views(tokens@),
            (cur is None) <==> (entry_pair_upto(gv, j as int, toks, *thr) is None),
            cur matches Some(c) ==> c.wf() && entry_pair_upto(gv, j as int, toks, *thr) == Some(
                (c.num as nat, c.den as nat),
            ),
        decreases gv.len() - j,
    {
        let ghost tj = gv[j as int];
        proof {
            assert(tj == e.tags@[j as int]@);
        }
        match get_min_score(e.tags[j].as_str(), tokens) {
            Option::None => {
                proof {
                    assert(toks.len() == 0);
                    assert(!accepted(tj, toks, *thr));
                }
            },
            Option::Some(c) => {
                proof {
                    assert(toks.len() > 0);
                    assert((c.num as nat, c.den as nat) == best_pair(tj, toks));
                }
                if frac_le_exec(c.num, c.den, thr.num, thr.den) {
                    proof {
                        assert(accepted(tj, toks, *thr));
                    }
                    match cur {
                        Option::None => {
                            cur = Some(c);
                        },
                        Option::Some(pp) => {
                            if !frac_le_exec(c.num, c.den, pp.num, pp.den) {
                                cur = Some(c);
                            }
                        },
                    }
                } else {
                    proof {
                        assert(!accepted(tj, toks, *thr));
                    }
                }
            },
        }
        j += 1;
    }
    proof {
        assert(gv.len() == e.tags@.len());
    }
    cur
}

/// The ids of the passing catalog entries that share the least score:
/// an entry passes when one of its phrases is accepted against the
/// tokens, its score is the largest among its accepted phrases, and the
/// winners are the passing entries whose score is minimal, compared as
/// exact fractions.
pub fn find_similar_in(catalog: &Vec<PhraseEntry>, tokens: &Vec<String>, thr: &Threshold) -> (r:
    Option<String>)
    requires
        thr.wf(),
    ensures
        (r is None) <==> phrase_winners(entry_views(catalog@), text_views(tokens@), *thr).len()
            == 0,
        r matches Some(t) ==> phrase_winners(entry_views(catalog@), text_views(tokens@), *thr)
            .contains(t@),
{
    let ghost ev = entry_views(catalog@);
    let ghost toks = text_views(tokens@);
    // first pass: the least passing score, if any entry passes
    let mut best: Option<Score> = None;
    let ghost mut bw: int = 0;
    let mut i: usize = 0;
    while i < catalog.len()
        invariant
            i <= ev.len(),
            thr.wf(),
            ev == entry_views(catalog@),
            toks == text_views(tokens@),
            best is None ==> forall|k: int|
                0 <= k < i ==> !entry_passes(#[trigger] ev[k], toks, *thr),
            best matches Some(s) ==> {
                &&& s.wf()
                &&& 0 <= bw < i
                &&& entry_passes(ev[bw], toks, *thr)
                &&& (s.num as nat, s.den as nat) == entry_pair_or(ev[bw], toks, *thr)
                &&& forall|k: int|
                    0 <= k < i && entry_passes(#[trigger] ev[k], toks, *thr) ==> frac_le(
                        s.num as nat,
                        s.den as nat,
                        entry_pair_or(ev[k], toks, *thr).0,
                        entry_pair_or(ev[k], toks, *thr).1,
                    )
            },
        decreases ev.len() - i,
    {
        proof {
            assert(ev[i as int] == (catalog@[i as int].id@, text_views(catalog@[i as int].tags@)));
        }
        match entry_score(&catalog[i], tokens, thr) {
            Option::None => {
                proof {
                    assert(!entry_passes(ev[i as int], toks, *thr));
                }
            },
            Option::Some(c) => {
                proof {
                    assert(entry_passes(ev[i as int], toks, *thr));
                    assert((c.num as nat, c.den as nat) == entry_pair_or(ev[i as int], toks, *thr));
                }
                match best {
                    Option::None => {
                        best = Some(c);
                        proof {
                            bw = i as int;
                        }
                    },
                    Option::Some(s) => {
                        if !frac_le_exec(s.num, s.den, c.num, c.den) {
                            proof {
                                lemma_frac_le_total(
                                    s.num as nat,
                                    s.den as nat,
                                    c.num as nat,
                                    c.den as nat,
                                );
                                assert forall|k: int|
                                    0 <= k < i && entry_passes(#[trigger] ev[k], toks, *thr)
                                        implies frac_le(
                                    c.num as nat,
                                    c.den as nat,
                                    entry_pair_or(ev[k], toks, *thr).0,
                                    entry_pair_or(ev[k], toks, *thr).1,
                                ) by {
                                    lemma_entry_pair_wf(ev[k].1, ev[k].1.len() as int, toks, *thr);
                                    lemma_frac_le_trans(
                                        c.num as nat,
                                        c.den as nat,
                                        s.num as nat,
                                        s.den as nat,
                                        entry_pair_or(ev[k], toks, *thr).0,
                                        entry_pair_or(ev[k], toks, *thr).1,
                                    );
                                }
                                bw = i as int;
                            }
                            best = Some(c);
                        }
                    },
                }
            },
        }
        i += 1;
    }
    let s = match best {
        Option::None => {
            proof {
                lemma_no_passing_no_phrase_winners(ev, ev.len() as int, toks, *thr);
            }
            return None;
        },
        Option::Some(s) => s,
    };
    // second pass: the passing entries whose score ties with the least
    let mut group: Vec<String> = Vec::new();
    proof {
        reveal(Seq::filter);
        assert(ev.take(0) =~= Seq::<(Seq<char>, Seq<Seq<char>>)>::empty());
        assert(text_views(group@) =~= phrase_winners_upto(ev, 0, toks, *thr));
    }
    let mut k: usize = 0;
    while k < catalog.len()
        invariant
            k <= ev.len(),
            thr.wf(),
            s.wf(),
            ev == entry_views(catalog@),
            toks == text_views(tokens@),
            0 <= bw < ev.len(),
            entry_passes(ev[bw], toks, *thr),
            (s.num as nat, s.den as nat) == entry_pair_or(ev[bw], toks, *thr),
            forall|m: int|
                0 <= m < ev.len() && entry_passes(#[trigger] ev[m], toks, *thr) ==> frac_le(
                    s.num as nat,
                    s.den as nat,
                    entry_pair_or(ev[m], toks, *thr).0,
                    entry_pair_or(ev[m], toks, *thr).1,
                ),
            bw < k ==> group@.len() > 0,
            text_views(group@) == phrase_winners_upto(ev, k as int, toks, *thr),
        decreases ev.len() - k,
    {
        let ghost ek = ev[k as int];
        proof {
            assert(ek == (catalog@[k as int].id@, text_views(catalog@[k as int].tags@)));
        }
        let pass_and_tie = match entry_score(&catalog[k], tokens, thr) {
            Option::None => false,
            Option::Some(c) => {
                proof {
                    assert((c.num as nat, c.den as nat) == entry_pair_or(ek, toks, *thr));
                }
                frac_le_exec(c.num, c.den, s.num, s.den) && frac_le_exec(
                    s.num,
                    s.den,
                    c.num,
                    c.den,
                )
            },
        };
        proof {
            if pass_and_tie {
                assert(entry_passes(ek, toks, *thr));
                assert(frac_eq(
                    entry_pair_or(ek, toks, *thr).0,
                    entry_pair_or(ek, toks, *thr).1,
                    s.num as nat,
                    s.den as nat,
                ));
                assert forall|m: int|
                    0 <= m < ev.len() && entry_passes(#[trigger] ev[m], toks, *thr) implies frac_le(
                    entry_pair_or(ek, toks, *thr).0,
                    entry_pair_or(ek, toks, *thr).1,
                    entry_pair_or(ev[m], toks, *thr).0,
                    entry_pair_or(ev[m], toks, *thr).1,
                ) by {
                    lemma_entry_pair_wf(ek.1, ek.1.len() as int, toks, *thr);
                    lemma_entry_pair_wf(ev[m].1, ev[m].1.len() as int, toks, *thr);
                    lemma_frac_eq_le(
                        entry_pair_or(ek, toks, *thr).0,
                        entry_pair_or(ek, toks, *thr).1,
                        s.num as nat,
                        s.den as nat,
                        entry_pair_or(ev[m], toks, *thr).0,
                        entry_pair_or(ev[m], toks, *thr).1,
                    );
                }
                assert(entry_minimal(ek, ev, toks, *thr));
            } else if entry_passes(ek, toks, *thr) {
                assert(frac_le(
                    s.num as nat,
                    s.den as nat,
                    entry_pair_or(ek, toks, *thr).0,
                    entry_pair_or(ek, toks, *thr).1,
                ));
                if entry_minimal(ek, ev, toks, *thr) {
                    assert(frac_le(
                        entry_pair_or(ek, toks, *thr).0,
                        entry_pair_or(ek, toks, *thr).1,
                        entry_pair_or(ev[bw], toks, *thr).0,
                        entry_pair_or(ev[bw], toks, *thr).1,
                    ));
                    assert(false);
                }
            }
        }
        let ghost gprev = group@;
        if pass_and_tie {
            group.push(catalog[k].id.clone());
        }
        proof {
            reveal(Seq::filter);
            assert(ev.take(k + 1).drop_last() =~= ev.take(k as int));
            assert(ev.take(k + 1).last() == ek);
            if entry_passes(ek, toks, *thr) && entry_minimal(ek, ev, toks, *thr) {
                assert(text_views(group@) =~= text_views(gprev).push(ek.0));
                assert(phrase_winners_upto(ev, k + 1, toks, *thr) =~= phrase_winners_upto(
                    ev,
                    k as int,
                    toks,
                    *thr,
                ).push(ek.0));
            } else {
                assert(phrase_winners_upto(ev, k + 1, toks, *thr) =~= phrase_winners_upto(
                    ev,
                    k as int,
                    toks,
                    *thr,
                ));
            }
        }
        k += 1;
    }
    proof {
        assert(ev.take(ev.len() as int) =~= ev);
        assert(text_views(group@).len() > 0);
    }
    let idx = choose_index(group.len());
    let chosen = group[idx].clone();
    proof {
        assert(text_views(group@)[idx as int] == chosen@);
    }
    Some(chosen)
}

/// The built-in phrase catalog.
pub open spec fn phrase_catalog_spec() -> Seq<(Seq<char>, Seq<Seq<char>>)> {
    seq![
        ("come on lets go"@, seq!["go"@, "го"@, "поехали"@, "погнали"@]),
        ("Fisting is 300 $"@, seq!["фистинг"@, "300"@, "баксы"@, "бакинские"@]),
        ("FUCK YOU"@, seq!["нахуй"@, "впизду"@, "fuck you"@]),
        ("fuck you..."@, seq!["нахуй"@, "впизду"@, "fuck you"@]),
        ("Fucking slaves get your ass back here"@, seq!["слейвс"@, "slaves"@, "асс"@, "эс"@, "ass"@]),
        ("Iam cumming"@, seq!["кам"@, "камминг"@, "кончаю"@, "cum"@, "cumming"@, "coming"@, "come"@]),
        ("Swallow my cum"@, seq!["кам"@, "камминг"@, "кончаю"@, "cum"@, "cumming"@, "coming"@, "come"@]),
        ("Id be right happy to"@, seq!["радостью"@, "залюбкы"@, "залюбки"@, "happy"@]),
        ("It gets bigger when i pull on it"@, seq!["хуй"@, "тяну"@, "большой"@]),
        ("Its so fucking deep"@, seq!["глубоко"@, "факинг"@, "fucking"@, "дип"@, "deep"@]),
        ("Lets suck some dick"@, seq!["ура"@, "поздравляю"@, "поздравления"@, "наконец-то"@, "наконецто"@]),
        ("Oh shit iam sorry"@, seq!["сори"@, "сорян"@, "извини"@, "извините"@, "sorry"@]),
        ("Our daddy told us not to be ashamed"@, seq!["стыдно"@, "стыдоба"@, "неудобно"@, "стыдиться"@]),
        ("Sometimes i rip the skin"@, seq!["хуй"@, "тяну"@]),
        ("Sorry for what"@, seq!["сори"@, "сорян"@, "извини"@, "извините"@, "sorry"@]),
    ]
}

/// The threshold the phrase recognizer uses.
pub open spec fn phrase_threshold() -> Threshold {
    Threshold { num: 26, den: 100 }
}

/// The built-in phrase catalog, as a vector.
pub fn phrase_catalog() -> (r: Vec<PhraseEntry>)
    ensures
        entry_views(r@) == phrase_catalog_spec(),
{
    let mut c: Vec<PhraseEntry> = Vec::new();
    c.push(PhraseEntry { id: "come on lets go".to_owned(), tags: vec!["go".to_owned(), "го".to_owned(), "поехали".to_owned(), "погнали".to_owned()] });
    c.push(PhraseEntry { id: "Fisting is 300 $".to_owned(), tags: vec!["фистинг".to_owned(), "300".to_owned(), "баксы".to_owned(), "бакинские".to_owned()] });
    c.push(PhraseEntry { id: "FUCK YOU".to_owned(), tags: vec!["нахуй".to_owned(), "впизду".to_owned(), "fuck you".to_owned()] });
    c.push(PhraseEntry { id: "fuck you...".to_owned(), tags: vec!["нахуй".to_owned(), "впизду".to_owned(), "fuck you".to_owned()] });
    c.push(PhraseEntry { id: "Fucking slaves get your ass back here".to_owned(), tags: vec!["слейвс".to_owned(), "slaves".to_owned(), "асс".to_owned(), "эс".to_owned(), "ass".to_owned()] });
    c.push(PhraseEntry { id: "Iam cumming".to_owned(), tags: vec!["кам".to_owned(), "камминг".to_owned(), "кончаю".to_owned(), "cum".to_owned(), "cumming".to_owned(), "coming".to_owned(), "come".to_owned()] });
    c.push(PhraseEntry { id: "Swallow my cum".to_owned(), tags: vec!["кам".to_owned(), "камминг".to_owned(), "кончаю".to_owned(), "cum".to_owned(), "cumming".to_owned(), "coming".to_owned(), "come".to_owned()] });
    c.push(PhraseEntry { id: "Id be right happy to".to_owned(), tags: vec!["радостью".to_owned(), "залюбкы".to_owned(), "залюбки".to_owned(), "happy".to_owned()] });
    c.push(PhraseEntry { id: "It gets bigger when i pull on it".to_owned(), tags: vec!["хуй".to_owned(), "тяну".to_owned(), "большой".to_owned()] });
    c.push(PhraseEntry { id: "Its so fucking deep".to_owned(), tags: vec!["глубоко".to_owned(), "факинг".to_owned(), "fucking".to_owned(), "дип".to_owned(), "deep".to_owned()] });
    c.push(PhraseEntry { id: "Lets suck some dick".to_owned(), tags: vec!["ура".to_owned(), "поздравляю".to_owned(), "поздравления".to_owned(), "наконец-то".to_owned(), "наконецто".to_owned()] });
    c.push(PhraseEntry { id: "Oh shit iam sorry".to_owned(), tags: vec!["сори".to_owned(), "сорян".to_owned(), "извини".to_owned(), "извините".to_owned(), "sorry".to_owned()] });
    c.push(PhraseEntry { id: "Our daddy told us not to be ashamed".to_owned(), tags: vec!["стыдно".to_owned(), "стыдоба".to_owned(), "неудобно".to_owned(), "стыдиться".to_owned()] });
    c.push(PhraseEntry { id: "Sometimes i rip the skin".to_owned(), tags: vec!["хуй".to_owned(), "тяну".to_owned()] });
    c.push(PhraseEntry { id: "Sorry for what".to_owned(), tags: vec!["сори".to_owned(), "сорян".to_owned(), "извини".to_owned(), "извините".to_owned(), "sorry".to_owned()] });
    proof {
        assert(entry_views(c@)[0].1 =~= phrase_catalog_spec()[0].1);
        assert(entry_views(c@)[1].1 =~= phrase_catalog_spec()[1].1);
        assert(entry_views(c@)[2].1 =~= phrase_catalog_spec()[2].1);
        assert(entry_views(c@)[3].1 =~= phrase_catalog_spec()[3].1);
        assert(entry_views(c@)[4].1 =~= phrase_catalog_spec()[4].1);
        assert(entry_views(c@)[5].1 =~= phrase_catalog_spec()[5].1);
        assert(entry_views(c@)[6].1 =~= phrase_catalog_spec()[6].1);
        assert(entry_views(c@)[7].1 =~= phrase_catalog_spec()[7].1);
        assert(entry_views(c@)[8].1 =~= phrase_catalog_spec()[8].1);
        assert(entry_views(c@)[9].1 =~= phrase_catalog_spec()[9].1);
        assert(entry_views(c@)[10].1 =~= phrase_catalog_spec()[10].1);
        assert(entry_views(c@)[11].1 =~= phrase_catalog_spec()[11].1);
        assert(entry_views(c@)[12].1 =~= phrase_catalog_spec()[12].1);
        assert(entry_views(c@)[13].1 =~= phrase_catalog_spec()[13].1);
        assert(entry_views(c@)[14].1 =~= phrase_catalog_spec()[14].1);
        assert(entry_views(c@) =~= phrase_catalog_spec());
    }
    c
}

/// The reply to a message: a canned reply when some token is a special
/// word, else the id of a phrase-catalog entry whose phrases lie closest
/// to the tokens, within the built-in threshold; nothing otherwise.
pub fn find_similar(message: &str) -> (r: Option<String>)
    ensures
        specials_of(frags_lowered(message@)).len() > 0 ==> (r matches Some(t) && (t@ == "Mmmmh"@
            || orgasm_text(t@))),
        specials_of(frags_lowered(message@)).len() == 0 ==> {
            &&& ((r is None) <==> phrase_winners(
                phrase_catalog_spec(),
                frags_lowered(message@),
                phrase_threshold(),
            ).len() == 0)
            &&& (r matches Some(t) ==> phrase_winners(
                phrase_catalog_spec(),
                frags_lowered(message@),
                phrase_threshold(),
            ).contains(t@))
        },
{
    let tokens = split_on_tokens(message);
    let specials = extract_special_cases(&tokens);
    if specials.len() > 0 {
        let idx = choose_index(specials.len());
        let s = specials[idx];
        proof {
            assert(output_for(
                specials_of(text_views(tokens@))[idx as int],
                specials@[idx as int]@,
            ));
        }
        Some(s.to_owned())
    } else {
        let catalog = phrase_catalog();
        let thr = Threshold::new(26, 100);
        proof {
            assert(thr == phrase_threshold());
        }
        find_similar_in(&catalog, &tokens, &thr)
    }
}

} // verus!
