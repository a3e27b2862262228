use vstd::prelude::*;

verus! {

use vstd::string::*;
use crate::text::{chars_vec, lower_of, lowercase, text_views};

/// The separator class the tokenizer splits on: ASCII space and
/// punctuation, covering `' '..='/'`, `':'..='@'` and `'\\'..='`'`.
pub open spec fn separator(c: char) -> bool {
    (' ' <= c && c <= '/') || (':' <= c && c <= '@') || ('\\' <= c && c <= '`')
}

/// Whether a character belongs to the separator class tokens are split on.
pub(crate) fn is_separator(c: char) -> (r: bool)
    ensures
        r == separator(c),
{
    (' ' <= c && c <= '/') || (':' <= c && c <= '@') || ('\\' <= c && c <= '`')
}

/// The length of the longest separator-free prefix.
pub open spec fn nsp(s: Seq<char>) -> nat
    decreases s.len(),
{
    if s.len() == 0 || separator(s[0]) {
        0
    } else {
        1 + nsp(s.drop_first())
    }
}

pub proof fn lemma_nsp_le(s: Seq<char>)
    ensures
        nsp(s) <= s.len(),
    decreases s.len(),
{
    if s.len() == 0 || separator(s[0]) {
    } else {
        lemma_nsp_le(s.drop_first());
    }
}

/// A separator-free prefix of length `k` that ends at a separator or at
/// the end of the sequence is the longest one.
pub proof fn lemma_nsp_is(s: Seq<char>, k: nat)
    requires
        k <= s.len(),
        forall|i: int| 0 <= i < k ==> !separator(s[i]),
        k == s.len() || separator(s[k as int]),
    ensures
        nsp(s) == k,
    decreases k,
{
    if k == 0 {
    } else {
        assert(!separator(s[0]));
        assert(forall|i: int| 0 <= i < k - 1 ==> s.drop_first()[i] == s[i + 1]);
        lemma_nsp_is(s.drop_first(), (k - 1) as nat);
    }
}

/// Every character of the longest separator-free prefix is indeed no
/// separator.
pub proof fn lemma_nsp_nonsep(s: Seq<char>)
    ensures
        forall|i: int| 0 <= i < nsp(s) ==> !separator(s[i]),
    decreases s.len(),
{
    if s.len() == 0 || separator(s[0]) {
    } else {
        lemma_nsp_nonsep(s.drop_first());
        lemma_nsp_le(s.drop_first());
        assert forall|i: int| 0 <= i < nsp(s) implies !separator(s[i]) by {
            assert(nsp(s) == 1 + nsp(s.drop_first()));
            if i > 0 {
                assert(0 <= i - 1 < nsp(s.drop_first()));
                assert(!separator(s.drop_first()[i - 1]));
                assert(s.drop_first()[i - 1] == s[i]);
            }
        }
    }
}

/// The maximal separator-free runs of a character sequence, in order;
/// empty runs between adjacent separators are dropped.
pub open spec fn raw_frags(s: Seq<char>) -> Seq<Seq<char>>
    decreases s.len(),
    when s.len() >= 0
    via raw_frags_decreases
{
    if s.len() == 0 {
        seq![]
    } else if separator(s[0]) {
        raw_frags(s.drop_first())
    } else {
        seq![s.take(nsp(s) as int)] + raw_frags(s.skip(nsp(s) as int))
    }
}

#[via_fn]
proof fn raw_frags_decreases(s: Seq<char>) {
    if s.len() > 0 && !separator(s[0]) {
        lemma_nsp_le(s);
        assert(nsp(s) >= 1);
    }
}

/// Every raw fragment is non-empty and free of separator characters.
pub proof fn lemma_raw_frags_shape(s: Seq<char>)
    ensures
        forall|j: int| 0 <= j < raw_frags(s).len() ==> (#[trigger] raw_frags(s)[j]).len() > 0,
        forall|j: int, c: int|
            0 <= j < raw_frags(s).len() && 0 <= c < raw_frags(s)[j].len() ==> !separator(
                #[trigger] raw_frags(s)[j][c],
            ),
    decreases s.len(),
{
    lemma_nsp_le(s);
    if s.len() == 0 {
        assert(raw_frags(s).len() == 0);
    } else if separator(s[0]) {
        lemma_raw_frags_shape(s.drop_first());
        assert(raw_frags(s) == raw_frags(s.drop_first()));
    } else {
        lemma_raw_frags_shape(s.skip(nsp(s) as int));
        lemma_nsp_nonsep(s);
        let head = s.take(nsp(s) as int);
        let rest = raw_frags(s.skip(nsp(s) as int));
        assert(raw_frags(s) == seq![head] + rest);
        assert(nsp(s) >= 1);
        assert forall|j: int|
            0 <= j < raw_frags(s).len() implies (#[trigger] raw_frags(s)[j]).len() > 0 by {
            if j == 0 {
                assert(raw_frags(s)[0] == head);
            } else {
                assert(raw_frags(s)[j] == rest[j - 1]);
            }
        }
        assert forall|j: int, c: int|
            0 <= j < raw_frags(s).len() && 0 <= c < raw_frags(s)[j].len() implies !separator(
            #[trigger] raw_frags(s)[j][c],
        ) by {
            if j == 0 {
                assert(raw_frags(s)[0] == head);
                assert(head[c] == s[c]);
            } else {
                assert(raw_frags(s)[j] == rest[j - 1]);
            }
        }
    }
}

/// The fragments of a character sequence, each in lowercase form: the
/// tokens a single chunk of text contributes.
pub open spec fn frags_lowered(s: Seq<char>) -> Seq<Seq<char>> {
    raw_frags(s).map_values(|f: Seq<char>| lower_of(f))
}

/// The needle occurs in the haystack at position `i`.
pub open spec fn found_at(h: Seq<char>, n: Seq<char>, i: int) -> bool {
    0 <= i && i + n.len() <= h.len() && h.subrange(i, i + n.len()) == n
}

/// The first occurrence of the needle at or after position `i`.
pub open spec fn first_occ_at(h: Seq<char>, n: Seq<char>, i: nat) -> Option<nat>
    decreases h.len() - i,
{
    if i + n.len() > h.len() {
        None
    } else if n.len() == 0 {
        // the empty needle occurs at every position
        Some(i)
    } else if h.subrange(i as int, (i + n.len()) as int) == n {
        Some(i)
    } else {
        first_occ_at(h, n, i + 1)
    }
}

/// The position of the first occurrence of the needle in the haystack.
pub open spec fn first_occ(h: Seq<char>, n: Seq<char>) -> Option<nat> {
    first_occ_at(h, n, 0)
}

pub proof fn lemma_first_occ_at(h: Seq<char>, n: Seq<char>, i: nat)
    ensures
        match first_occ_at(h, n, i) {
            None => forall|k: int| i <= k ==> !found_at(h, n, k),
            Some(j) => i <= j && found_at(h, n, j as int) && forall|k: int|
                i <= k < j ==> !found_at(h, n, k),
        },
    decreases h.len() - i,
{
    if i + n.len() > h.len() {
        assert forall|k: int| i <= k implies !found_at(h, n, k) by {}
    } else if n.len() == 0 {
        assert(h.subrange(i as int, i as int) =~= n);
        assert(found_at(h, n, i as int));
    } else if h.subrange(i as int, (i + n.len()) as int) == n {
    } else {
        lemma_first_occ_at(h, n, i + 1);
        assert(!found_at(h, n, i as int));
    }
}

/// The chunks of the source that remain once the excluded spans are
/// removed, walking the exclusions in the given order: a span that is
/// found splits the text around its first occurrence; one that is not
/// found is skipped and the text is left where it stands.
pub open spec fn chunks_spec(src: Seq<char>, excl: Seq<Seq<char>>) -> Seq<Seq<char>>
    decreases excl.len(),
{
    if src.len() == 0 {
        seq![]
    } else if excl.len() == 0 {
        seq![src]
    } else {
        match first_occ(src, excl[0]) {
            Option::None => chunks_spec(src, excl.drop_first()),
            Option::Some(j) => seq![src.take(j as int)] + chunks_spec(
                src.skip((j + excl[0].len()) as int),
                excl.drop_first(),
            ),
        }
    }
}

/// The tokens of a sequence of chunks: each chunk's lowercased
/// separator-free runs, in order.
pub open spec fn tokens_of_chunks(cs: Seq<Seq<char>>) -> Seq<Seq<char>>
    decreases cs.len(),
{
    if cs.len() == 0 {
        seq![]
    } else {
        frags_lowered(cs[0]) + tokens_of_chunks(cs.drop_first())
    }
}

/// What the tokenizer produces for a source text and its excluded spans.
pub open spec fn split_text_spec(src: Seq<char>, excl: Seq<Seq<char>>) -> Seq<Seq<char>> {
    tokens_of_chunks(chunks_spec(src, excl))
}

/// Whether the needle occurs at exactly position `pos` of the haystack.
fn is_match_at(chars: &Vec<char>, pos: usize, needle: &Vec<char>) -> (r: bool)
    requires
        pos + needle@.len() <= chars@.len(),
    ensures
        r == (chars@.subrange(pos as int, pos + needle@.len()) == needle@),
{
    let hay_len = chars.len();
    let mut k: usize = 0;
    while k < needle.len()
        invariant
            hay_len == chars@.len(),
            pos + needle@.len() <= chars@.len(),
            k <= needle@.len(),
            forall|m: int| 0 <= m < k ==> chars@[pos + m] == needle@[m],
        decreases needle@.len() - k,
    {
        if chars[pos + k] != needle[k] {
            proof {
                assert(chars@.subrange(pos as int, pos + needle@.len())[k as int] == chars@[pos
                    + k]);
            }
            return false;
        }
        k += 1;
    }
    proof {
        assert(chars@.subrange(pos as int, pos + needle@.len()) =~= needle@);
    }
    true
}

/// The first occurrence of the needle at or after `from`, as an absolute
/// position in the haystack.
fn find_from(chars: &Vec<char>, from: usize, needle: &Vec<char>) -> (r: Option<usize>)
    requires
        from <= chars@.len(),
    ensures
        (r is None) <==> (first_occ(chars@.skip(from as int), needle@) is None),
        r matches Some(j) ==> from <= j && j + needle@.len() <= chars@.len() && first_occ(
            chars@.skip(from as int),
            needle@,
        ) == Some((j - from) as nat),
{
    let ghost h = chars@.skip(from as int);
    proof {
        lemma_first_occ_at(h, needle@, 0);
    }
    if needle.len() == 0 {
        return Some(from);
    }
    if needle.len() > chars.len() - from {
        proof {
            assert forall|k: int| 0 <= k implies !found_at(h, needle@, k) by {}
            match first_occ(h, needle@) {
                Option::None => {},
                Option::Some(j) => {
                    assert(found_at(h, needle@, j as int));
                },
            }
        }
        return None;
    }
    let stop = chars.len() - needle.len() + 1;
    let mut pos: usize = from;
    while pos < stop
        invariant
            from <= pos,
            1 <= needle@.len(),
            needle@.len() + stop == chars@.len() + 1,
            from < stop <= chars@.len(),
            h == chars@.skip(from as int),
            forall|q: int| 0 <= q < pos - from ==> !found_at(h, needle@, q),
        decreases stop - pos,
    {
        proof {
            lemma_first_occ_at(h, needle@, 0);
        }
        if is_match_at(chars, pos, needle) {
            proof {
                assert(h.subrange(pos - from, pos - from + needle@.len()) =~= chars@.subrange(
                    pos as int,
                    pos + needle@.len(),
                ));
                assert(found_at(h, needle@, pos - from));
                match first_occ(h, needle@) {
                    Option::None => {
                        assert(false);
                    },
                    Option::Some(j) => {
                        assert(!(j < pos - from));
                        assert(!(j > pos - from));
                    },
                }
            }
            return Some(pos);
        }
        proof {
            assert(h.subrange(pos - from, pos - from + needle@.len()) =~= chars@.subrange(
                pos as int,
                pos + needle@.len(),
            ));
        }
        pos += 1;
    }
    proof {
        assert forall|k: int| 0 <= k implies !found_at(h, needle@, k) by {
            if k + needle@.len() <= h.len() {
                assert(k < pos - from);
            }
        }
        match first_occ(h, needle@) {
            Option::None => {},
            Option::Some(j) => {
                assert(found_at(h, needle@, j as int));
            },
        }
    }
    None
}

/// Splits `source[from..to]` on the separator class and appends each
/// non-empty fragment, lowercased, to `out`.
fn split_range(source: &str, chars: &Vec<char>, from: usize, to: usize, out: &mut Vec<String>)
    requires
        chars@ == source@,
        from <= to <= chars@.len(),
    ensures
        text_views(final(out)@) == text_views(old(out)@) + frags_lowered(
            source@.subrange(from as int, to as int),
        ),
        forall|j: int|
            old(out)@.len() <= j < final(out)@.len() ==> #[trigger] final(out)@[j]@.len() > 0,
{
    let ghost out0 = old(out)@;
    let mut i: usize = from;
    while i < to
        invariant
            from <= i <= to <= chars@.len(),
            chars@ == source@,
            text_views(out@) + frags_lowered(source@.subrange(i as int, to as int)) =~= text_views(
                out0,
            ) + frags_lowered(source@.subrange(from as int, to as int)),
            out0.len() <= out@.len(),
            forall|j: int| out0.len() <= j < out@.len() ==> #[trigger] out@[j]@.len() > 0,
        decreases to - i,
    {
        if is_separator(chars[i]) {
            proof {
                assert(source@.subrange(i as int, to as int).drop_first() =~= source@.subrange(
                    i + 1,
                    to as int,
                ));
            }
            i += 1;
        } else {
            let mut j = i + 1;
            while j < to && !is_separator(chars[j])
                invariant
                    from <= i < j <= to <= chars@.len(),
                    chars@ == source@,
                    forall|k: int| i <= k < j ==> !separator(chars@[k]),
                decreases to - j,
            {
                j += 1;
            }
            proof {
                let sub = source@.subrange(i as int, to as int);
                assert(forall|k: int| 0 <= k < j - i ==> sub[k] == chars@[i + k]);
                lemma_nsp_is(sub, (j - i) as nat);
                assert(sub.take(j - i) =~= source@.subrange(i as int, j as int));
                assert(sub.skip(j - i) =~= source@.subrange(j as int, to as int));
            }
            let frag = source.substring_char(i, j);
            let low = lowercase(frag);
            let ghost prev = out@;
            out.push(low);
            proof {
                assert(text_views(out@) =~= text_views(prev) + seq![low@]);
                let sub = source@.subrange(i as int, to as int);
                assert(raw_frags(sub) == seq![source@.subrange(i as int, j as int)] + raw_frags(
                    source@.subrange(j as int, to as int),
                ));
                assert(frags_lowered(sub) =~= seq![lower_of(source@.subrange(i as int, j as int))]
                    + frags_lowered(source@.subrange(j as int, to as int)));
            }
            i = j;
        }
    }
    proof {
        assert(source@.subrange(i as int, to as int) =~= Seq::<char>::empty());
        assert(raw_frags(Seq::<char>::empty()) =~= Seq::<Seq<char>>::empty());
        assert(frags_lowered(Seq::<char>::empty()) =~= Seq::<Seq<char>>::empty());
        assert(text_views(out@) =~= text_views(out@) + frags_lowered(
            source@.subrange(i as int, to as int),
        ));
    }
}

/// Turns a message into its tokens. The excluded spans (detected URL
/// entities, in the order they are expected to occur) are removed first:
/// each is looked up at its first occurrence in the text that remains;
/// a span that is not found is skipped without advancing the text, so an
/// out-of-order list silently drops the text up to the next found span.
/// What remains is split on the separator class; empty fragments are
/// dropped and all tokens are lowercased.
pub fn split_text(source: &str, exclusions: &Vec<String>) -> (r: Vec<String>)
    ensures
        text_views(r@) == split_text_spec(source@, text_views(exclusions@)),
        forall|j: int| 0 <= j < r@.len() ==> #[trigger] r@[j]@.len() > 0,
{
    let chars = chars_vec(source);
    let ghost ev = text_views(exclusions@);
    let mut out: Vec<String> = Vec::new();
    let mut i: usize = 0;
    let mut ei: usize = 0;
    proof {
        assert(source@.skip(0) =~= source@);
        assert(ev.skip(0) =~= ev);
        assert(text_views(out@) =~= Seq::<Seq<char>>::empty());
    }
    while i < chars.len()
        invariant
            i <= chars@.len(),
            ei <= exclusions@.len(),
            chars@ == source@,
            ev == text_views(exclusions@),
            tokens_of_chunks(chunks_spec(source@, ev)) =~= text_views(out@) + tokens_of_chunks(
                chunks_spec(source@.skip(i as int), ev.skip(ei as int)),
            ),
            forall|j: int| 0 <= j < out@.len() ==> #[trigger] out@[j]@.len() > 0,
        decreases chars@.len() - i, exclusions@.len() - ei,
    {
        let ghost rem = source@.skip(i as int);
        let ghost erem = ev.skip(ei as int);
        if ei < exclusions.len() {
            let needle = chars_vec(exclusions[ei].as_str());
            proof {
                assert(erem[0] == needle@);
                assert(erem.drop_first() =~= ev.skip(ei + 1));
            }
            match find_from(&chars, i, &needle) {
                Option::None => {
                    proof {
                        assert(rem.len() > 0);
                        assert(first_occ(rem, erem[0]) is None) by {
                            assert(rem == chars@.skip(i as int));
                        }
                        assert(chunks_spec(rem, erem) == chunks_spec(rem, erem.drop_first()));
                    }
                    ei += 1;
                },
                Option::Some(j) => {
                    proof {
                        assert(rem == chars@.skip(i as int));
                        assert(first_occ(rem, erem[0]) == Some((j - i) as nat));
                        assert(chunks_spec(rem, erem) == seq![rem.take(j - i)] + chunks_spec(
                            rem.skip(j - i + needle@.len()),
                            erem.drop_first(),
                        ));
                        assert(rem.take(j - i) =~= source@.subrange(i as int, j as int));
                        assert(rem.skip(j - i + needle@.len()) =~= source@.skip(
                            j + needle@.len(),
                        ));
                        let cs = chunks_spec(rem, erem);
                        assert(cs[0] == rem.take(j - i));
                        assert(cs.drop_first() =~= chunks_spec(
                            source@.skip(j + needle@.len()),
                            ev.skip(ei + 1),
                        ));
                        assert(tokens_of_chunks(cs) == frags_lowered(
                            source@.subrange(i as int, j as int),
                        ) + tokens_of_chunks(
                            chunks_spec(source@.skip(j + needle@.len()), ev.skip(ei + 1)),
                        ));
                    }
                    let ghost oprev = out@;
                    split_range(source, &chars, i, j, &mut out);
                    proof {
                        assert forall|j2: int| 0 <= j2 < out@.len() implies #[trigger] out@[j2]@.len()
                            > 0 by {
                            if j2 < oprev.len() {
                                assert(text_views(out@)[j2] == text_views(oprev)[j2]);
                            }
                        }
                    }
                    i = j + needle.len();
                    ei += 1;
                },
            }
        } else {
            proof {
                assert(rem.len() > 0);
                assert(erem.len() == 0);
                assert(chunks_spec(rem, erem) == seq![rem]);
                let cs = chunks_spec(rem, erem);
                assert(cs.drop_first() =~= Seq::<Seq<char>>::empty());
                assert(tokens_of_chunks(cs.drop_first()) =~= Seq::<Seq<char>>::empty());
                assert(tokens_of_chunks(cs) =~= frags_lowered(rem));
                assert(rem =~= source@.subrange(i as int, chars@.len() as int));
            }
            let ghost oprev = out@;
            split_range(source, &chars, i, chars.len(), &mut out);
            proof {
                assert forall|j2: int| 0 <= j2 < out@.len() implies #[trigger] out@[j2]@.len()
                    > 0 by {
                    if j2 < oprev.len() {
                        assert(text_views(out@)[j2] == text_views(oprev)[j2]);
                    }
                }
            }
            i = chars.len();
            proof {
                assert(source@.skip(i as int) =~= Seq::<char>::empty());
                assert(chunks_spec(Seq::<char>::empty(), ev.skip(ei as int)) =~= Seq::<
                    Seq<char>,
                >::empty());
            }
        }
    }
    proof {
        assert(source@.skip(i as int) =~= Seq::<char>::empty());
        assert(chunks_spec(Seq::<char>::empty(), ev.skip(ei as int)) =~= Seq::<Seq<char>>::empty());
        assert(text_views(out@) =~= text_views(out@) + tokens_of_chunks(
            Seq::<Seq<char>>::empty(),
        ));
    }
    out
}


/// A character of the separator class the legacy splitter breaks on;
/// the same class the tokenizer uses.
pub fn is_special(ch: char) -> (r: bool)
    ensures
        r == separator(ch),
{
    is_separator(ch)
}

/// Splits a message on the separator class alone: every non-empty
/// fragment, lowercased, in order.
pub fn split_on_tokens(message: &str) -> (r: Vec<String>)
    ensures
        text_views(r@) == frags_lowered(message@),
        forall|j: int| 0 <= j < r@.len() ==> #[trigger] r@[j]@.len() > 0,
{
    let none: Vec<String> = Vec::new();
    let r = split_text(message, &none);
    proof {
        assert(text_views(none@) =~= Seq::<Seq<char>>::empty());
        if message@.len() == 0 {
            assert(chunks_spec(message@, Seq::<Seq<char>>::empty()) =~= Seq::<Seq<char>>::empty());
            assert(raw_frags(message@) =~= Seq::<Seq<char>>::empty());
            assert(text_views(r@) =~= frags_lowered(message@));
        } else {
            let cs = chunks_spec(message@, Seq::<Seq<char>>::empty());
            assert(cs =~= seq![message@]);
            assert(cs.drop_first() =~= Seq::<Seq<char>>::empty());
            assert(tokens_of_chunks(cs.drop_first()) =~= Seq::<Seq<char>>::empty());
            assert(text_views(r@) =~= frags_lowered(message@));
        }
    }
    r
}

} // verus!
