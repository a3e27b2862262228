use vstd::prelude::*;

verus! {

use crate::text::text_views;

/// The smallest of three naturals.
pub open spec fn min3(a: nat, b: nat, c: nat) -> nat {
    if a <= b && a <= c {
        a
    } else if b <= c {
        b
    } else {
        c
    }
}

/// Levenshtein edit distance between two character sequences: the least
/// number of single-character insertions, deletions and substitutions
/// that turns one into the other.
#[verifier::opaque]
pub open spec fn edit_dist(a: Seq<char>, b: Seq<char>) -> nat
    decreases a.len(), b.len(),
{
    if a.len() == 0 {
        b.len()
    } else if b.len() == 0 {
        a.len()
    } else {
        let del = edit_dist(a.drop_first(), b) + 1;
        let ins = edit_dist(a, b.drop_first()) + 1;
        let sub = edit_dist(a.drop_first(), b.drop_first()) + if a.first() == b.first() {
            0nat
        } else {
            1nat
        };
        min3(del as nat, ins as nat, sub as nat)
    }
}

/// The denominator of a normalized edit-distance score: the larger
/// character count, or one when both strings are empty (so that the
/// score of two empty strings is zero, never a division by zero).
pub open spec fn dist_den(a: Seq<char>, b: Seq<char>) -> nat {
    if a.len() == 0 && b.len() == 0 {
        1
    } else if a.len() >= b.len() {
        a.len()
    } else {
        b.len()
    }
}

/// `n1/d1 <= n2/d2`, by cross multiplication (denominators positive).
pub open spec fn frac_le(n1: nat, d1: nat, n2: nat, d2: nat) -> bool {
    n1 * d2 <= n2 * d1
}

/// `n1/d1 == n2/d2`, by cross multiplication (denominators positive).
pub open spec fn frac_eq(n1: nat, d1: nat, n2: nat, d2: nat) -> bool {
    n1 * d2 == n2 * d1
}

/// The ordering of fractions is total.
pub proof fn lemma_frac_le_total(n1: nat, d1: nat, n2: nat, d2: nat)
    ensures
        frac_le(n1, d1, n2, d2) || frac_le(n2, d2, n1, d1),
{
}

/// Two fractions each at most the other are equal.
pub proof fn lemma_frac_le_antisymmetric(n1: nat, d1: nat, n2: nat, d2: nat)
    ensures
        frac_eq(n1, d1, n2, d2) <==> (frac_le(n1, d1, n2, d2) && frac_le(n2, d2, n1, d1)),
{
}

/// The ordering of fractions is transitive.
pub proof fn lemma_frac_le_trans(n1: nat, d1: nat, n2: nat, d2: nat, n3: nat, d3: nat)
    by (nonlinear_arith)
    requires
        1 <= d1,
        1 <= d2,
        1 <= d3,
        frac_le(n1, d1, n2, d2),
        frac_le(n2, d2, n3, d3),
    ensures
        frac_le(n1, d1, n3, d3),
{
}

/// A fraction equal to another inherits its upper bounds.
pub proof fn lemma_frac_eq_le(n1: nat, d1: nat, n2: nat, d2: nat, n3: nat, d3: nat)
    by (nonlinear_arith)
    requires
        1 <= d1,
        1 <= d2,
        1 <= d3,
        frac_eq(n1, d1, n2, d2),
        frac_le(n2, d2, n3, d3),
    ensures
        frac_le(n1, d1, n3, d3),
{
}

/// A fraction at most another is at most everything equal to it.
pub proof fn lemma_frac_le_eq(n1: nat, d1: nat, n2: nat, d2: nat, n3: nat, d3: nat)
    by (nonlinear_arith)
    requires
        1 <= d1,
        1 <= d2,
        1 <= d3,
        frac_le(n1, d1, n2, d2),
        frac_eq(n2, d2, n3, d3),
    ensures
        frac_le(n1, d1, n3, d3),
{
}

/// The normalized distance is symmetric: both the edit distance and the
/// larger-length denominator read the same either way around.
pub proof fn lemma_edit_dist_symmetric(a: Seq<char>, b: Seq<char>)
    ensures
        edit_dist(a, b) == edit_dist(b, a),
        dist_den(a, b) == dist_den(b, a),
    decreases a.len() + b.len(),
{
    reveal(edit_dist);
    if a.len() == 0 || b.len() == 0 {
    } else {
        lemma_edit_dist_symmetric(a.drop_first(), b);
        lemma_edit_dist_symmetric(a, b.drop_first());
        lemma_edit_dist_symmetric(a.drop_first(), b.drop_first());
    }
}

/// A string is at edit distance zero from itself.
pub proof fn lemma_edit_dist_self(a: Seq<char>)
    ensures
        edit_dist(a, a) == 0,
    decreases a.len(),
{
    reveal(edit_dist);
    if a.len() == 0 {
    } else {
        lemma_edit_dist_self(a.drop_first());
    }
}

/// The edit distance never exceeds the larger length; with `dist_den`
/// this bounds every normalized score by one.
pub proof fn lemma_edit_dist_le_max(a: Seq<char>, b: Seq<char>)
    ensures
        edit_dist(a, b) <= dist_den(a, b),
    decreases a.len(), b.len(),
{
    reveal(edit_dist);
    if a.len() == 0 || b.len() == 0 {
    } else {
        lemma_edit_dist_le_max(a.drop_first(), b.drop_first());
    }
}

/// Against an empty string, the edit distance is the whole length, so a
/// non-empty string scores exactly one.
pub proof fn lemma_edit_dist_empty(a: Seq<char>)
    ensures
        edit_dist(a, Seq::<char>::empty()) == a.len(),
        edit_dist(Seq::<char>::empty(), a) == a.len(),
{
    reveal(edit_dist);
}

/// A normalized edit-distance score, kept as the exact fraction
/// `num / den`: the edit distance over the larger character count.
#[derive(Clone, Copy, Debug, PartialEq, Eq, Structural)]
pub struct Score {
    pub num: usize,
    pub den: usize,
}

impl Score {
    /// A score is a fraction with a positive denominator, at most one.
    pub open spec fn wf(self) -> bool {
        1 <= self.den && self.num <= self.den
    }
}

/// Relies on `levenshtein::levenshtein`: the Levenshtein edit distance
/// over the characters of the two strings.
#[verifier::external_body]
fn levenshtein_distance(a: &str, b: &str) -> (r: usize)
    ensures
        r == edit_dist(a@, b@),
{
    levenshtein::levenshtein(a, b)
}

/// The normalized edit-distance score of two strings: their Levenshtein
/// distance over the larger character count (zero when both are empty).
/// Zero means identical, one maximally dissimilar.
pub fn score(x: &str, y: &str) -> (r: Score)
    ensures
        r.num == edit_dist(x@, y@),
        r.den == dist_den(x@, y@),
        r.wf(),
{
    let n = levenshtein_distance(x, y);
    let lx = x.unicode_len();
    let ly = y.unicode_len();
    let m = if lx >= ly {
        lx
    } else {
        ly
    };
    let den = if m == 0 {
        1
    } else {
        m
    };
    proof {
        lemma_edit_dist_le_max(x@, y@);
    }
    Score { num: n, den }
}

/// `a <= b` on scores, as exact fractions.
pub fn score_le(a: &Score, b: &Score) -> (r: bool)
    ensures
        r == frac_le(a.num as nat, a.den as nat, b.num as nat, b.den as nat),
{
    frac_le_exec(a.num, a.den, b.num, b.den)
}

/// `n1/d1 <= n2/d2` on machine integers, by cross multiplication.
pub(crate) fn frac_le_exec(n1: usize, d1: usize, n2: usize, d2: usize) -> (r: bool)
    ensures
        r == frac_le(n1 as nat, d1 as nat, n2 as nat, d2 as nat),
{
    proof {
        assert((n1 as int) * (d2 as int) <= u128::MAX && (n2 as int) * (d1 as int) <= u128::MAX)
            by (nonlinear_arith)
            requires
                n1 <= usize::MAX,
                d1 <= usize::MAX,
                n2 <= usize::MAX,
                d2 <= usize::MAX,
                usize::MAX <= u64::MAX,
        ;
    }
    (n1 as u128) * (d2 as u128) <= (n2 as u128) * (d1 as u128)
}

/// The numerator and denominator of the least score of `tag` against any
/// of `texts`, scanning left to right and keeping the earliest least one.
#[verifier::opaque]
pub open spec fn best_pair(tag: Seq<char>, texts: Seq<Seq<char>>) -> (nat, nat)
    recommends
        texts.len() > 0,
    decreases texts.len(),
{
    if texts.len() <= 1 {
        (edit_dist(texts[0], tag), dist_den(texts[0], tag))
    } else {
        let prev = best_pair(tag, texts.drop_last());
        let lastn = edit_dist(texts.last(), tag);
        let lastd = dist_den(texts.last(), tag);
        if frac_le(prev.0, prev.1, lastn, lastd) {
            prev
        } else {
            (lastn, lastd)
        }
    }
}

/// The least score is achieved by one of the texts and is at most the
/// score against every text.
pub proof fn lemma_best_pair_min(tag: Seq<char>, texts: Seq<Seq<char>>)
    requires
        texts.len() > 0,
    ensures
        exists|i: int|
            0 <= i < texts.len() && best_pair(tag, texts) == (
            edit_dist(texts[i], tag),
            dist_den(texts[i], tag),
            ),
        forall|i: int|
            0 <= i < texts.len() ==> frac_le(
                best_pair(tag, texts).0,
                best_pair(tag, texts).1,
                edit_dist(texts[i], tag),
                dist_den(texts[i], tag),
            ),
    decreases texts.len(),
{
    reveal(best_pair);
    if texts.len() <= 1 {
        assert(best_pair(tag, texts) == (edit_dist(texts[0], tag), dist_den(texts[0], tag)));
        lemma_frac_le_total(edit_dist(texts[0], tag), dist_den(texts[0], tag), edit_dist(texts[0], tag), dist_den(texts[0], tag));
    } else {
        lemma_best_pair_min(tag, texts.drop_last());
        let prev = best_pair(tag, texts.drop_last());
        let lastn = edit_dist(texts.last(), tag);
        let lastd = dist_den(texts.last(), tag);
        let cur = best_pair(tag, texts);
        assert forall|i: int| 0 <= i < texts.len() implies frac_le(
            cur.0,
            cur.1,
            edit_dist(texts[i], tag),
            dist_den(texts[i], tag),
        ) by {
            let di = edit_dist(texts[i], tag);
            let dd = dist_den(texts[i], tag);
            if i < texts.len() - 1 {
                assert(texts.drop_last()[i] == texts[i]);
                assert(frac_le(prev.0, prev.1, di, dd));
                if frac_le(prev.0, prev.1, lastn, lastd) {
                    assert(cur == prev);
                } else {
                    lemma_frac_le_total(prev.0, prev.1, lastn, lastd);
                    assert(frac_le(lastn, lastd, prev.0, prev.1));
                    lemma_best_pair_wf(tag, texts.drop_last());
                    lemma_edit_dist_le_max(texts[i], tag);
                    lemma_frac_le_trans(lastn, lastd, prev.0, prev.1, di, dd);
                }
            } else {
                assert(texts[i] == texts.last());
                if frac_le(prev.0, prev.1, lastn, lastd) {
                    assert(cur == prev);
                } else {
                    lemma_frac_le_total(prev.0, prev.1, lastn, lastd);
                }
            }
        }
        if frac_le(prev.0, prev.1, lastn, lastd) {
            let w = choose|i: int|
                0 <= i < texts.drop_last().len() && prev == (
                edit_dist(texts.drop_last()[i], tag),
                dist_den(texts.drop_last()[i], tag),
                );
            assert(texts.drop_last()[w] == texts[w]);
            assert(cur == (edit_dist(texts[w], tag), dist_den(texts[w], tag)));
        } else {
            let w = texts.len() - 1;
            assert(texts[w] == texts.last());
            assert(cur == (edit_dist(texts[w], tag), dist_den(texts[w], tag)));
        }
    }
}

/// The least score has a positive denominator.
pub proof fn lemma_best_pair_wf(tag: Seq<char>, texts: Seq<Seq<char>>)
    requires
        texts.len() > 0,
    ensures
        1 <= best_pair(tag, texts).1,
        best_pair(tag, texts).0 <= best_pair(tag, texts).1,
    decreases texts.len(),
{
    reveal(best_pair);
    if texts.len() <= 1 {
        lemma_edit_dist_le_max(texts[0], tag);
    } else {
        lemma_best_pair_wf(tag, texts.drop_last());
        lemma_edit_dist_le_max(texts.last(), tag);
    }
}

/// The least normalized edit-distance score of `tag` against the texts,
/// or nothing when there are no texts.
pub fn get_min_score(tag: &str, texts: &Vec<String>) -> (r: Option<Score>)
    ensures
        (r is None) <==> texts@.len() == 0,
        r matches Some(s) ==> s.wf() && (s.num as nat, s.den as nat) == best_pair(
            tag@,
            text_views(texts@),
        ),
{
    if texts.len() == 0 {
        return None;
    }
    let ghost tv = text_views(texts@);
    let mut best = score(texts[0].as_str(), tag);
    proof {
        reveal(best_pair);
        assert(tv.take(1) =~= seq![tv[0]]);
        assert(tv[0] == texts@[0]@);
    }
    let mut i: usize = 1;
    while i < texts.len()
        invariant
            1 <= i <= texts@.len(),
            tv == text_views(texts@),
            best.wf(),
            (best.num as nat, best.den as nat) == best_pair(tag@, tv.take(i as int)),
        decreases texts@.len() - i,
    {
        let c = score(texts[i].as_str(), tag);
        proof {
            reveal(best_pair);
            assert(tv.take(i + 1).drop_last() =~= tv.take(i as int));
            assert(tv.take(i + 1).last() == texts@[i as int]@);
        }
        if !frac_le_exec(best.num, best.den, c.num, c.den) {
            best = c;
        }
        i += 1;
    }
    proof {
        assert(tv.take(texts@.len() as int) =~= tv);
    }
    Some(best)
}

} // verus!
