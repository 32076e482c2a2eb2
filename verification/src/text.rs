//! Characters, case folding, and small string helpers.

use vstd::prelude::*;
use vstd::string::*;

verus! {

/// The case rule used by case-insensitive search: a capital letter of
/// the ASCII range (A to Z) or of the Latin-1 supplement (U+00C0 to
/// U+00DE, excluding the multiplication sign U+00D7) folds to its lower
/// case form, which sits exactly 32 code points higher; every other
/// character is left unchanged.
///
/// The fold is deliberately limited to these one-to-one, fixed-offset
/// pairs.  A full Unicode lowering can change the number of characters
/// in a text, and then an offset found in the folded text is not an
/// offset into the original text at all; the contracts here promise
/// offsets that are always valid in the original text, with context
/// windows cut from it, and a length-preserving fold is what makes that
/// promise hold.  The price is that case-insensitive search does not
/// equate case pairs outside these two ranges.
pub open spec fn fold_char(c: char) -> char {
    if (65 <= c as u32 && c as u32 <= 90) || (192 <= c as u32 && c as u32 <= 222 && c as u32
        != 215) {
        (((c as u32) + 32) as u8) as char
    } else {
        c
    }
}

/// Case folding of a whole text: the identity when the search is case
/// sensitive, character-wise `fold_char` otherwise.
pub open spec fn fold_case(s: Seq<char>, case_sensitive: bool) -> Seq<char> {
    if case_sensitive {
        s
    } else {
        s.map_values(|c: char| fold_char(c))
    }
}

/// Folding never changes the length of a text.
pub proof fn lemma_fold_case_len(s: Seq<char>, case_sensitive: bool)
    ensures
        fold_case(s, case_sensitive).len() == s.len(),
{
}

/// Folding commutes with taking a subrange.
pub proof fn lemma_fold_case_subrange(s: Seq<char>, case_sensitive: bool, a: int, b: int)
    requires
        0 <= a <= b <= s.len(),
    ensures
        fold_case(s, case_sensitive).subrange(a, b) == fold_case(s.subrange(a, b), case_sensitive),
{
    assert(fold_case(s, case_sensitive).subrange(a, b) =~= fold_case(
        s.subrange(a, b),
        case_sensitive,
    ));
}

pub fn fold_char_exec(c: char) -> (r: char)
    ensures
        r == fold_char(c),
{
    let u = c as u32;
    if (65 <= u && u <= 90) || (192 <= u && u <= 222 && u != 215) {
        ((u + 32) as u8) as char
    } else {
        c
    }
}

/// The characters of a string slice, in order.
pub fn chars_of(s: &str) -> (r: Vec<char>)
    ensures
        r@ == s@,
{
    let n = s.unicode_len();
    let mut r: Vec<char> = Vec::new();
    let mut i: usize = 0;
    while i < n
        invariant
            i <= n,
            n == s@.len(),
            r@ == s@.take(i as int),
        decreases n - i,
    {
        r.push(s.get_char(i));
        proof {
            assert(s@.take(i as int).push(s@[i as int]) =~= s@.take(i + 1 as int));
        }
        i += 1;
    }
    proof {
        assert(r@ =~= s@);
    }
    r
}

/// An element-wise copy of a list of strings.
pub fn clone_strings(v: &Vec<String>) -> (r: Vec<String>)
    ensures
        r@ == v@,
{
    let mut r: Vec<String> = Vec::new();
    let mut i: usize = 0;
    while i < v.len()
        invariant
            i <= v@.len(),
            r@ == v@.take(i as int),
        decreases v@.len() - i,
    {
        r.push(v[i].clone());
        proof {
            assert(v@.take(i as int).push(v@[i as int]) =~= v@.take(i + 1 as int));
        }
        i += 1;
    }
    proof {
        assert(v@.take(v@.len() as int) =~= v@);
    }
    r
}

/// Character-wise case folding of a text.
pub fn fold_chars(v: &Vec<char>, case_sensitive: bool) -> (r: Vec<char>)
    ensures
        r@ == fold_case(v@, case_sensitive),
{
    if case_sensitive {
        return v.clone();
    }
    let mut r: Vec<char> = Vec::new();
    let mut i: usize = 0;
    while i < v.len()
        invariant
            i <= v.len(),
            r@ == fold_case(v@.take(i as int), false),
        decreases v.len() - i,
    {
        r.push(fold_char_exec(v[i]));
        proof {
            assert(fold_case(v@.take(i + 1 as int), false) =~= fold_case(
                v@.take(i as int),
                false,
            ).push(fold_char(v@[i as int])));
        }
        i += 1;
    }
    proof {
        assert(v@.take(v@.len() as int) =~= v@);
    }
    r
}

} // verus!
