//! The candidate filter of the directory walker.
//!
//! The walk itself is filesystem work and lives outside the verified
//! library; it hands the paths it enumerated to `filter_candidates`, which
//! keeps exactly the document candidates.  A path is a candidate when the
//! extension of its base name is exactly `pdf`, matched case-sensitively:
//! the filter deliberately skips differently-cased extensions, mirroring
//! the tool it belongs to.

use crate::text::chars_of;
use vstd::prelude::*;
use vstd::string::*;

verus! {

/// The characters after the last occurrence of `c` in `s`; all of `s`
/// when `c` does not occur.
pub open spec fn after_last(s: Seq<char>, c: char) -> Seq<char>
    decreases s.len(),
{
    if s.len() > 0 && s.contains(c) {
        after_last(s.drop_first(), c)
    } else {
        s
    }
}

/// The base name of a path: the characters after the last separator.
pub open spec fn base_name(path: Seq<char>) -> Seq<char> {
    after_last(path, '/')
}

/// A candidate document path: the base name has an extension (a dot that
/// is not its first character) and the extension is exactly `pdf`.
pub open spec fn is_candidate(path: Seq<char>) -> bool {
    let base = base_name(path);
    &&& base.contains('.')
    &&& base.len() - after_last(base, '.').len() - 1 > 0
    &&& after_last(base, '.') == seq!['p', 'd', 'f']
}

/// The candidate paths among `paths`, in their original order.
pub open spec fn candidates_of(paths: Seq<Seq<char>>) -> Seq<Seq<char>>
    decreases paths.len(),
{
    if paths.len() == 0 {
        Seq::empty()
    } else {
        let rest = candidates_of(paths.drop_last());
        if is_candidate(paths.last()) {
            rest.push(paths.last())
        } else {
            rest
        }
    }
}

/// If everything from index `i` on differs from `c`, and `c` stands just
/// before index `i` (unless `i` is 0 and `c` does not occur at all), then
/// `after_last` is exactly the suffix from `i`.
#[verifier::rlimit(50)]
proof fn lemma_after_last_split(s: Seq<char>, c: char, i: int)
    requires
        0 <= i <= s.len(),
        forall|j: int| i <= j < s.len() ==> s[j] != c,
        i > 0 ==> s[i - 1] == c,
    ensures
        after_last(s, c) == s.subrange(i, s.len() as int),
        s.contains(c) <==> i > 0,
    decreases s.len(),
{
    if i > 0 {
        assert(s.contains(c)) by {
            assert(s[i - 1] == c);
        }
        let d = s.drop_first();
        assert forall|j: int| i - 1 <= j < d.len() implies d[j] != c by {
            assert(d[j] == s[j + 1]);
        }
        lemma_after_last_split(d, c, i - 1);
        assert(after_last(s, c) == after_last(d, c));
        assert(d.subrange(i - 1, d.len() as int) =~= s.subrange(i, s.len() as int));
    } else {
        if s.contains(c) {
            let j = choose|j: int| 0 <= j < s.len() && s[j] == c;
            assert(false);
        }
        assert(after_last(s, c) == s);
        assert(s.subrange(0, s.len() as int) =~= s);
    }
}

/// Candidate membership: a path is in the filtered sequence exactly when
/// it is among the inputs and is a candidate.
proof fn lemma_candidates_membership(paths: Seq<Seq<char>>, x: Seq<char>)
    ensures
        candidates_of(paths).contains(x) <==> (paths.contains(x) && is_candidate(x)),
    decreases paths.len(),
{
    if paths.len() == 0 {
    } else {
        let front = paths.drop_last();
        lemma_candidates_membership(front, x);
        assert(paths.contains(x) <==> (front.contains(x) || paths.last() == x)) by {
            if paths.contains(x) {
                let j = choose|j: int| 0 <= j < paths.len() && paths[j] == x;
                if j < paths.len() - 1 {
                    assert(front[j] == x);
                }
            }
            if front.contains(x) {
                let j = choose|j: int| 0 <= j < front.len() && front[j] == x;
                assert(paths[j] == x);
            }
            if paths.last() == x {
                assert(paths[paths.len() - 1] == x);
            }
        }
        let rest = candidates_of(front);
        if is_candidate(paths.last()) {
            assert(candidates_of(paths) == rest.push(paths.last()));
            assert(candidates_of(paths).contains(x) <==> (rest.contains(x) || paths.last()
                == x)) by {
                if candidates_of(paths).contains(x) {
                    let j = choose|j: int|
                        0 <= j < candidates_of(paths).len() && candidates_of(paths)[j] == x;
                    if j < rest.len() {
                        assert(rest[j] == x);
                    }
                }
                if rest.contains(x) {
                    let j = choose|j: int| 0 <= j < rest.len() && rest[j] == x;
                    assert(candidates_of(paths)[j] == x);
                }
                if paths.last() == x {
                    assert(candidates_of(paths).last() == x);
                }
            }
        } else {
            assert(candidates_of(paths) == rest);
        }
    }
}

/// Walking an unmodified tree twice is idempotent: however the two runs
/// order their entries, the same entries yield the same set of candidate
/// paths.
pub proof fn lemma_candidates_order_independent(a: Seq<Seq<char>>, b: Seq<Seq<char>>)
    requires
        a.to_multiset() == b.to_multiset(),
    ensures
        candidates_of(a).to_set() == candidates_of(b).to_set(),
{
    broadcast use vstd::seq_lib::group_to_multiset_ensures;

    assert forall|x: Seq<char>| #[trigger]
        candidates_of(a).to_set().contains(x) implies candidates_of(b).to_set().contains(x) by {
        lemma_candidates_membership(a, x);
        lemma_candidates_membership(b, x);
        assert(a.to_multiset().count(x) > 0);
    }
    assert forall|x: Seq<char>| #[trigger]
        candidates_of(b).to_set().contains(x) implies candidates_of(a).to_set().contains(x) by {
        lemma_candidates_membership(a, x);
        lemma_candidates_membership(b, x);
        assert(b.to_multiset().count(x) > 0);
    }
    assert(candidates_of(a).to_set() =~= candidates_of(b).to_set());
}

/// The index of the last occurrence of `c` in `cs`, if any.
fn last_index_of(cs: &Vec<char>, c: char) -> (r: Option<usize>)
    ensures
        match r {
            Some(i) => i < cs@.len() && cs@[i as int] == c && forall|j: int|
                i < j < cs@.len() ==> cs@[j] != c,
            None => forall|j: int| 0 <= j < cs@.len() ==> cs@[j] != c,
        },
{
    let mut j = cs.len();
    while j > 0
        invariant
            j <= cs@.len(),
            forall|k: int| j <= k < cs@.len() ==> cs@[k] != c,
        decreases j,
    {
        j -= 1;
        if cs[j] == c {
            return Some(j);
        }
    }
    None
}

/// The base name of a path: the characters after the last separator.
pub fn base_name_exec(path: &str) -> (r: String)
    ensures
        r@ == base_name(path@),
{
    let cs = chars_of(path);
    let n = cs.len();
    let b: usize = match last_index_of(&cs, '/') {
        Some(i) => i + 1,
        None => 0,
    };
    proof {
        lemma_after_last_split(path@, '/', b as int);
    }
    path.substring_char(b, n).to_owned()
}

/// Decide whether `path` is a candidate document path.
pub fn is_candidate_exec(path: &str) -> (r: bool)
    ensures
        r == is_candidate(path@),
{
    let cs = chars_of(path);
    let n = cs.len();
    let b: usize = match last_index_of(&cs, '/') {
        Some(i) => i + 1,
        None => 0,
    };
    proof {
        lemma_after_last_split(path@, '/', b as int);
    }
    let mut base: Vec<char> = Vec::new();
    let mut k: usize = b;
    while k < n
        invariant
            b <= k <= n,
            n == cs@.len(),
            cs@ == path@,
            base@ == path@.subrange(b as int, k as int),
        decreases n - k,
    {
        base.push(cs[k]);
        proof {
            assert(path@.subrange(b as int, k as int).push(path@[k as int]) =~= path@.subrange(
                b as int,
                k + 1 as int,
            ));
        }
        k += 1;
    }
    let nb = base.len();
    match last_index_of(&base, '.') {
        Some(ld) => {
            proof {
                lemma_after_last_split(base@, '.', ld + 1 as int);
            }
            if ld == 0 || nb - ld - 1 != 3 {
                return false;
            }
            let ok = base[ld + 1] == 'p' && base[ld + 2] == 'd' && base[ld + 3] == 'f';
            proof {
                if ok {
                    assert(after_last(base@, '.') =~= seq!['p', 'd', 'f']);
                } else {
                    assert(after_last(base@, '.') != seq!['p', 'd', 'f']) by {
                        assert(after_last(base@, '.').len() == 3);
                        if after_last(base@, '.') == seq!['p', 'd', 'f'] {
                            assert(base@[ld + 1] == after_last(base@, '.')[0]);
                            assert(base@[ld + 2] == after_last(base@, '.')[1]);
                            assert(base@[ld + 3] == after_last(base@, '.')[2]);
                        }
                    }
                }
            }
            ok
        },
        None => {
            proof {
                lemma_after_last_split(base@, '.', 0);
            }
            false
        },
    }
}

/// Keep exactly the candidate document paths, in their original order.
pub fn filter_candidates(paths: &Vec<String>) -> (r: Vec<String>)
    ensures
        r@.map_values(|p: String| p@) == candidates_of(paths@.map_values(|p: String| p@)),
{
    let mut r: Vec<String> = Vec::new();
    let mut i: usize = 0;
    while i < paths.len()
        invariant
            i <= paths@.len(),
            r@.map_values(|p: String| p@) == candidates_of(
                paths@.subrange(0, i as int).map_values(|p: String| p@),
            ),
        decreases paths@.len() - i,
    {
        let ghost prefix = paths@.subrange(0, i as int).map_values(|p: String| p@);
        let ghost next = paths@.subrange(0, i + 1 as int).map_values(|p: String| p@);
        proof {
            assert(next.drop_last() =~= prefix);
            assert(next.last() == paths@[i as int]@);
        }
        if is_candidate_exec(paths[i].as_str()) {
            let p = paths[i].clone();
            r.push(p);
            proof {
                assert(r@.map_values(|p: String| p@) =~= candidates_of(next));
            }
        } else {
            proof {
                assert(candidates_of(next) == candidates_of(prefix));
            }
        }
        i += 1;
    }
    proof {
        assert(paths@.subrange(0, paths@.len() as int) =~= paths@);
    }
    r
}

} // verus!
