//! The match finder: every non-overlapping occurrence of a phrase in a
//! text, each with a context snippet around it.
//!
//! Matching scans left to right; after a match the scan resumes one phrase
//! length further, so reported occurrences never overlap.  Offsets are
//! character offsets into the original, unfolded text, and the context
//! window is cut from the original text as well.

use crate::text::{chars_of, fold_case, fold_chars};
use vstd::prelude::*;
use vstd::string::*;

verus! {

/// One occurrence of the phrase: a context snippet of the surrounding text
/// and the character offset of the occurrence in the original text.
pub struct MatchResult {
    pub text: String,
    pub position: usize,
}

/// The mathematical model of a `MatchResult`.
#[verifier::ext_equal]
pub ghost struct SpanModel {
    pub text: Seq<char>,
    pub position: int,
}

impl View for MatchResult {
    type V = SpanModel;

    open spec fn view(&self) -> SpanModel {
        SpanModel { text: self.text@, position: self.position as int }
    }
}

/// The models of a sequence of match results.
pub open spec fn spans_view(ms: Seq<MatchResult>) -> Seq<SpanModel> {
    ms.map_values(|m: MatchResult| m@)
}

/// The phrase `p` occurs in `t` at offset `i`.
pub open spec fn occurs_at(t: Seq<char>, p: Seq<char>, i: int) -> bool {
    &&& 0 <= i
    &&& i + p.len() <= t.len()
    &&& t.subrange(i, i + p.len()) == p
}

/// The offsets that a left-to-right scan from offset `i` reports: the
/// first occurrence at or after `i`, then the occurrences after its end.
pub open spec fn match_positions_from(t: Seq<char>, p: Seq<char>, i: int) -> Seq<int>
    decreases t.len() - i when 0 <= i && 0 < p.len()
{
    if p.len() == 0 || i + p.len() > t.len() {
        Seq::empty()
    } else if occurs_at(t, p, i) {
        seq![i] + match_positions_from(t, p, i + p.len())
    } else {
        match_positions_from(t, p, i + 1)
    }
}

/// Where the context window of a match at offset `i` starts: up to 40
/// characters before the match, clamped to the start of the text.
pub open spec fn window_start(i: int) -> int {
    if i >= 40 {
        i - 40
    } else {
        0
    }
}

/// Where the context window ends: up to 40 characters after the matched
/// phrase, clamped to the end of the text.
pub open spec fn window_end(t_len: int, p_len: int, i: int) -> int {
    if i + p_len + 40 <= t_len {
        i + p_len + 40
    } else {
        t_len
    }
}

/// The span reported for a match of a phrase of length `p_len` at offset
/// `i` of the text `t`: the offset itself and the context window around it.
pub open spec fn span_of(t: Seq<char>, p_len: int, i: int) -> SpanModel {
    SpanModel {
        text: t.subrange(window_start(i), window_end(t.len() as int, p_len, i)),
        position: i,
    }
}

/// All spans that searching `t` for `q` reports, under the case rule
/// chosen by `case_sensitive`.  Occurrences are found in the folded text,
/// offsets and context windows refer to the original text.
pub open spec fn find_spans(t: Seq<char>, q: Seq<char>, case_sensitive: bool) -> Seq<SpanModel> {
    match_positions_from(fold_case(t, case_sensitive), fold_case(q, case_sensitive), 0).map_values(
        |i: int| span_of(t, q.len() as int, i),
    )
}

/// Every reported offset is at or after the scan start, is a real
/// occurrence, and consecutive offsets are at least a phrase length apart.
proof fn lemma_positions_sound(t: Seq<char>, p: Seq<char>, i: int)
    requires
        0 <= i,
        0 < p.len(),
    ensures
        forall|k: int|
            0 <= k < match_positions_from(t, p, i).len() ==> i <= #[trigger] match_positions_from(
                t,
                p,
                i,
            )[k] && occurs_at(t, p, match_positions_from(t, p, i)[k]),
        forall|k: int|
            0 <= k < match_positions_from(t, p, i).len() - 1 ==> #[trigger] match_positions_from(
                t,
                p,
                i,
            )[k] + p.len() <= match_positions_from(t, p, i)[k + 1],
    decreases t.len() - i,
{
    let ps = match_positions_from(t, p, i);
    if i + p.len() > t.len() {
        assert(ps == Seq::<int>::empty());
    } else if occurs_at(t, p, i) {
        let rest = match_positions_from(t, p, i + p.len());
        lemma_positions_sound(t, p, i + p.len());
        assert(ps == seq![i] + rest);
        assert(ps.len() == 1 + rest.len());
        assert forall|k: int| 0 <= k < ps.len() implies i <= #[trigger] ps[k] && occurs_at(
            t,
            p,
            ps[k],
        ) by {
            if k == 0 {
                assert(ps[0] == i);
            } else {
                assert(0 <= k - 1 < rest.len());
                assert(ps[k] == rest[k - 1]);
            }
        }
        assert forall|k: int| 0 <= k < ps.len() - 1 implies #[trigger] ps[k] + p.len() <= ps[k
            + 1] by {
            if k == 0 {
                assert(ps[0] == i);
                assert(ps[1] == rest[0]);
                assert(i + p.len() <= rest[0]);
            } else {
                assert(0 <= k - 1 < rest.len() - 1);
                assert(ps[k] == rest[k - 1]);
                assert(ps[k + 1] == rest[k]);
                assert(rest[k - 1] + p.len() <= rest[k]);
            }
        }
    } else {
        lemma_positions_sound(t, p, i + 1);
        let rest = match_positions_from(t, p, i + 1);
        assert(ps == rest);
        assert forall|k: int| 0 <= k < ps.len() implies i <= #[trigger] ps[k] && occurs_at(
            t,
            p,
            ps[k],
        ) by {
            assert(i + 1 <= rest[k] && occurs_at(t, p, rest[k]));
        }
        assert forall|k: int| 0 <= k < ps.len() - 1 implies #[trigger] ps[k] + p.len() <= ps[k
            + 1] by {
            assert(rest[k] + p.len() <= rest[k + 1]);
        }
    }
}

/// Every occurrence at or after the scan start overlaps a reported match:
/// the scan misses nothing.
proof fn lemma_positions_complete(t: Seq<char>, p: Seq<char>, i: int, j: int)
    requires
        0 <= i <= j,
        0 < p.len(),
        occurs_at(t, p, j),
    ensures
        exists|k: int|
            0 <= k < match_positions_from(t, p, i).len() && #[trigger] match_positions_from(
                t,
                p,
                i,
            )[k] <= j < match_positions_from(t, p, i)[k] + p.len(),
    decreases t.len() - i,
{
    let ps = match_positions_from(t, p, i);
    if i + p.len() > t.len() {
        assert(false);
    } else if occurs_at(t, p, i) {
        let rest = match_positions_from(t, p, i + p.len());
        if j < i + p.len() {
            assert(ps[0] == i);
            assert(ps[0] <= j < ps[0] + p.len());
        } else {
            lemma_positions_complete(t, p, i + p.len(), j);
            let k0 = choose|k: int|
                0 <= k < rest.len() && #[trigger] rest[k] <= j < rest[k] + p.len();
            assert(ps[k0 + 1] == rest[k0]);
            assert(ps[k0 + 1] <= j < ps[k0 + 1] + p.len());
        }
    } else {
        assert(j != i);
        lemma_positions_complete(t, p, i + 1, j);
    }
}

/// Matching in a text equals matching in its folded form: each reported
/// span starts at a valid offset of the original text, and the original
/// text at that offset equals the phrase under the case rule.
pub proof fn lemma_spans_are_occurrences(t: Seq<char>, q: Seq<char>, case_sensitive: bool)
    requires
        0 < q.len(),
    ensures
        forall|k: int|
            0 <= k < find_spans(t, q, case_sensitive).len() ==> {
                let i = (#[trigger] find_spans(t, q, case_sensitive)[k]).position;
                &&& 0 <= i
                &&& i + q.len() <= t.len()
                &&& fold_case(t.subrange(i, i + q.len()), case_sensitive) == fold_case(
                    q,
                    case_sensitive,
                )
            },
{
    let ft = fold_case(t, case_sensitive);
    let fq = fold_case(q, case_sensitive);
    let ps = match_positions_from(ft, fq, 0);
    lemma_positions_sound(ft, fq, 0);
    assert forall|k: int| 0 <= k < find_spans(t, q, case_sensitive).len() implies {
        let i = (#[trigger] find_spans(t, q, case_sensitive)[k]).position;
        &&& 0 <= i
        &&& i + q.len() <= t.len()
        &&& fold_case(t.subrange(i, i + q.len()), case_sensitive) == fold_case(q, case_sensitive)
    } by {
        let i = ps[k];
        assert(occurs_at(ft, fq, i));
        crate::text::lemma_fold_case_subrange(t, case_sensitive, i, i + q.len());
        assert(ft.subrange(i, i + fq.len()) == fq);
    }
}

/// Reported spans never overlap: consecutive offsets are at least one
/// phrase length apart.
pub proof fn lemma_spans_non_overlapping(t: Seq<char>, q: Seq<char>, case_sensitive: bool)
    requires
        0 < q.len(),
    ensures
        forall|k: int|
            0 <= k < find_spans(t, q, case_sensitive).len() - 1 ==> (#[trigger] find_spans(
                t,
                q,
                case_sensitive,
            )[k]).position + q.len() <= find_spans(t, q, case_sensitive)[k + 1].position,
{
    let ft = fold_case(t, case_sensitive);
    let fq = fold_case(q, case_sensitive);
    lemma_positions_sound(ft, fq, 0);
}

/// The scan misses nothing: wherever the original text matches the phrase
/// under the case rule, a reported span overlaps that offset.
pub proof fn lemma_spans_complete(t: Seq<char>, q: Seq<char>, case_sensitive: bool, j: int)
    requires
        0 < q.len(),
        0 <= j,
        j + q.len() <= t.len(),
        fold_case(t.subrange(j, j + q.len()), case_sensitive) == fold_case(q, case_sensitive),
    ensures
        exists|k: int|
            0 <= k < find_spans(t, q, case_sensitive).len() && (#[trigger] find_spans(
                t,
                q,
                case_sensitive,
            )[k]).position <= j < find_spans(t, q, case_sensitive)[k].position + q.len(),
{
    let ft = fold_case(t, case_sensitive);
    let fq = fold_case(q, case_sensitive);
    crate::text::lemma_fold_case_subrange(t, case_sensitive, j, j + q.len());
    assert(ft.subrange(j, j + fq.len()) == fq);
    assert(occurs_at(ft, fq, j));
    lemma_positions_complete(ft, fq, 0, j);
    let k0 = choose|k: int|
        0 <= k < match_positions_from(ft, fq, 0).len() && #[trigger] match_positions_from(
            ft,
            fq,
            0,
        )[k] <= j < match_positions_from(ft, fq, 0)[k] + fq.len();
    assert(find_spans(t, q, case_sensitive)[k0].position == match_positions_from(ft, fq, 0)[k0]);
}

/// The context window of every reported span is clamped to the bounds of
/// the text: it starts at most 40 characters before the match, ends at
/// most 40 characters after it, never leaves the text, and always covers
/// the whole matched phrase.  A match at the very start or very end of the
/// text therefore gets a correspondingly shorter window.
pub proof fn lemma_context_window_clamped(t: Seq<char>, q: Seq<char>, case_sensitive: bool, k: int)
    requires
        0 < q.len(),
        0 <= k < find_spans(t, q, case_sensitive).len(),
    ensures
        ({
            let s = find_spans(t, q, case_sensitive)[k];
            let ws = window_start(s.position);
            let we = window_end(t.len() as int, q.len() as int, s.position);
            &&& 0 <= ws <= s.position
            &&& s.position + q.len() <= we <= t.len()
            &&& s.position - ws <= 40
            &&& we - (s.position + q.len()) <= 40
            &&& s.text == t.subrange(ws, we)
            &&& s.text.len() <= q.len() + 80
        }),
{
    lemma_spans_are_occurrences(t, q, case_sensitive);
    let s = find_spans(t, q, case_sensitive)[k];
    let ws = window_start(s.position);
    let we = window_end(t.len() as int, q.len() as int, s.position);
    assert(s.text == t.subrange(ws, we));
}

/// Check whether the phrase `p` occurs in `t` at offset `i`.
fn occurs_at_exec(t: &Vec<char>, p: &Vec<char>, i: usize) -> (r: bool)
    requires
        i + p@.len() <= t@.len(),
    ensures
        r == occurs_at(t@, p@, i as int),
{
    let n = t.len();
    let plen = p.len();
    let mut k: usize = 0;
    while k < plen
        invariant
            k <= plen,
            plen == p@.len(),
            n == t@.len(),
            i + plen <= n,
            forall|j: int| 0 <= j < k ==> t@[i + j] == p@[j],
        decreases plen - k,
    {
        if t[i + k] != p[k] {
            proof {
                assert(t@.subrange(i as int, i + p@.len())[k as int] != p@[k as int]);
            }
            return false;
        }
        k += 1;
    }
    proof {
        assert(t@.subrange(i as int, i + p@.len()) =~= p@);
    }
    true
}

/// Find every non-overlapping occurrence of `query` in `text` under the
/// chosen case rule, left to right, each with its context window.
pub fn find_matches(text: &str, query: &str, case_sensitive: bool) -> (r: Vec<MatchResult>)
    requires
        query@.len() > 0,
    ensures
        spans_view(r@) == find_spans(text@, query@, case_sensitive),
{
    let tchars = chars_of(text);
    let qchars = chars_of(query);
    let ft = fold_chars(&tchars, case_sensitive);
    let fq = fold_chars(&qchars, case_sensitive);
    let tlen = tchars.len();
    let qlen = qchars.len();
    proof {
        crate::text::lemma_fold_case_len(text@, case_sensitive);
        crate::text::lemma_fold_case_len(query@, case_sensitive);
    }
    let ghost all_positions = match_positions_from(ft@, fq@, 0);
    let mut r: Vec<MatchResult> = Vec::new();
    if qlen > tlen {
        proof {
            assert(all_positions =~= Seq::<int>::empty());
            assert(spans_view(r@) =~= find_spans(text@, query@, case_sensitive));
        }
        return r;
    }
    let mut i: usize = 0;
    while i <= tlen - qlen
        invariant
            0 < qlen <= tlen,
            i <= tlen,
            tlen == text@.len(),
            qlen == query@.len(),
            ft@ == fold_case(text@, case_sensitive),
            fq@ == fold_case(query@, case_sensitive),
            all_positions == match_positions_from(ft@, fq@, 0),
            all_positions =~= spans_view(r@).map_values(|s: SpanModel| s.position)
                + match_positions_from(ft@, fq@, i as int),
            spans_view(r@) =~= spans_view(r@).map_values(|s: SpanModel| s.position).map_values(
                |p: int| span_of(text@, qlen as int, p),
            ),
        decreases tlen - i,
    {
        if occurs_at_exec(&ft, &fq, i) {
            let ws = if i >= 40 {
                i - 40
            } else {
                0
            };
            let we = if tlen - (i + qlen) >= 40 {
                i + qlen + 40
            } else {
                tlen
            };
            let ctx = text.substring_char(ws, we).to_owned();
            let m = MatchResult { text: ctx, position: i };
            proof {
                assert(ws as int == window_start(i as int));
                assert(we as int == window_end(tlen as int, qlen as int, i as int));
                assert(m@ =~= span_of(text@, qlen as int, i as int));
                assert(match_positions_from(ft@, fq@, i as int) == seq![i as int]
                    + match_positions_from(ft@, fq@, i + qlen));
                assert(spans_view(r@.push(m)) =~= spans_view(r@).push(m@));
                assert(spans_view(r@.push(m)).map_values(|s: SpanModel| s.position) =~= spans_view(
                    r@,
                ).map_values(|s: SpanModel| s.position).push(i as int));
            }
            r.push(m);
            proof {
                assert(all_positions =~= spans_view(r@).map_values(|s: SpanModel| s.position)
                    + match_positions_from(ft@, fq@, (i + qlen) as int));
                assert(spans_view(r@) =~= spans_view(r@).map_values(
                    |s: SpanModel| s.position,
                ).map_values(|p: int| span_of(text@, qlen as int, p)));
            }
            i += qlen;
        } else {
            proof {
                assert(match_positions_from(ft@, fq@, i as int) == match_positions_from(
                    ft@,
                    fq@,
                    i + 1,
                ));
            }
            i += 1;
        }
    }
    proof {
        assert(match_positions_from(ft@, fq@, i as int) =~= Seq::<int>::empty());
        assert(all_positions =~= spans_view(r@).map_values(|s: SpanModel| s.position));
        assert(spans_view(r@) =~= find_spans(text@, query@, case_sensitive));
    }
    r
}

} // verus!
