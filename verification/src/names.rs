//! Reference names and the fixed naming transformations on them.
//!
//! Reference names are compared by exact character equality. The one derived
//! name is the prefetch mirror of a remote-tracking reference, obtained by a
//! pure prefix substitution. A commit identifier may also be written out in
//! decimal, which is how a direct identifier is supplied to resolution.

use vstd::prelude::*;
use vstd::string::{StrSliceExecFns, StringExecFns};

verus! {

/// `p` is an initial segment of `s`.
pub open spec fn is_prefix_of(p: Seq<char>, s: Seq<char>) -> bool {
    p.len() <= s.len() && s.subrange(0, p.len() as int) == p
}

/// Exact character-for-character equality of two names.
#[verifier::loop_isolation(false)]
pub fn str_eq(a: &str, b: &str) -> (r: bool)
    ensures
        r == (a@ == b@),
{
    let la = a.unicode_len();
    let lb = b.unicode_len();
    if la != lb {
        return false;
    }
    let mut i: usize = 0;
    while i < la
        invariant
            i <= la,
            forall|k: int| 0 <= k < i ==> a@[k] == b@[k],
        decreases la - i,
    {
        if a.get_char(i) != b.get_char(i) {
            return false;
        }
        i = i + 1;
    }
    proof {
        assert(a@ =~= b@);
    }
    true
}

/// Whether `s` begins with `prefix`.
#[verifier::loop_isolation(false)]
pub fn starts_with_str(s: &str, prefix: &str) -> (r: bool)
    ensures
        r == is_prefix_of(prefix@, s@),
{
    let lp = prefix.unicode_len();
    let ls = s.unicode_len();
    if lp > ls {
        return false;
    }
    let mut i: usize = 0;
    while i < lp
        invariant
            i <= lp,
            lp <= ls,
            forall|k: int| 0 <= k < i ==> s@[k] == prefix@[k],
        decreases lp - i,
    {
        if s.get_char(i) != prefix.get_char(i) {
            proof {
                if is_prefix_of(prefix@, s@) {
                    assert(s@.subrange(0, lp as int)[i as int] == s@[i as int]);
                }
            }
            return false;
        }
        i = i + 1;
    }
    proof {
        assert(s@.subrange(0, lp as int) =~= prefix@);
    }
    true
}

/// The concatenation of two names.
pub fn concat_strs(a: &str, b: &str) -> (r: String)
    ensures
        r@ == a@ + b@,
{
    let mut s = a.to_owned();
    s.append(b);
    s
}

/// The copy of `s` from position `k` to its end.
pub fn string_tail(s: &str, k: usize) -> (r: String)
    requires
        k <= s@.len(),
    ensures
        r@ == s@.subrange(k as int, s@.len() as int),
{
    let ls = s.unicode_len();
    s.substring_char(k, ls).to_owned()
}

/// The name of the prefetch mirror of a remote-tracking reference: the
/// `refs/` namespace prefix replaced by `refs/prefetch/`, the remainder of
/// the name preserved. Not applicable — rather than an error — for a
/// reference that is not remote-tracking or whose name lies outside `refs/`.
pub open spec fn spec_prefetch_name(name: Seq<char>, is_remote: bool) -> Option<Seq<char>> {
    if is_remote && is_prefix_of("refs/"@, name) {
        Some("refs/prefetch/"@ + name.subrange("refs/"@.len() as int, name.len() as int))
    } else {
        None
    }
}

/// Derives the prefetch mirror's name by prefix substitution.
pub fn prefetch_name(name: &str, is_remote: bool) -> (r: Option<String>)
    ensures
        match r {
            Some(s) => spec_prefetch_name(name@, is_remote) == Some(s@),
            None => spec_prefetch_name(name@, is_remote) is None,
        },
{
    proof {
        reveal_strlit("refs/");
        reveal_strlit("refs/prefetch/");
    }
    if is_remote && starts_with_str(name, "refs/") {
        let tail = string_tail(name, 5);
        Some(concat_strs("refs/prefetch/", tail.as_str()))
    } else {
        None
    }
}

/// The numeric value of one decimal digit character.
pub open spec fn char_digit(c: char) -> int {
    c as u32 - 48
}

pub open spec fn is_digit_char(c: char) -> bool {
    48 <= c as u32 <= 57
}

pub open spec fn all_digits(s: Seq<char>) -> bool {
    forall|i: int| 0 <= i < s.len() ==> is_digit_char(#[trigger] s[i])
}

/// The value of a decimal digit string, most significant digit first.
pub open spec fn digits_val(s: Seq<char>) -> int
    decreases s.len(),
{
    if s.len() == 0 {
        0
    } else {
        digits_val(s.drop_last()) * 10 + char_digit(s.last())
    }
}

proof fn lemma_digits_val_nonneg(s: Seq<char>)
    requires
        all_digits(s),
    ensures
        digits_val(s) >= 0,
    decreases s.len(),
{
    if s.len() > 0 {
        assert(all_digits(s.drop_last()));
        lemma_digits_val_nonneg(s.drop_last());
    }
}

/// Appending further digits never lowers the value of a digit string.
proof fn lemma_digits_val_prefix(s: Seq<char>, i: int)
    requires
        all_digits(s),
        0 <= i <= s.len(),
    ensures
        digits_val(s.subrange(0, i)) <= digits_val(s),
    decreases s.len() - i,
{
    if i == s.len() {
        assert(s.subrange(0, i) =~= s);
    } else {
        lemma_digits_val_prefix(s, i + 1);
        let a = s.subrange(0, i + 1);
        assert(a.drop_last() =~= s.subrange(0, i));
        assert(a.last() == s[i]);
        assert(all_digits(s.subrange(0, i)));
        lemma_digits_val_nonneg(s.subrange(0, i));
        assert(is_digit_char(s[i]));
        assert(digits_val(a) == digits_val(s.subrange(0, i)) * 10 + char_digit(s[i]));
    }
}

/// Reads a commit identifier written in decimal: accepted exactly when the
/// string is non-empty, holds only digits, and its value is a valid
/// identifier below `n`.
#[verifier::loop_isolation(false)]
pub fn parse_commit_id(s: &str, n: usize) -> (r: Option<usize>)
    ensures
        match r {
            Some(v) => s@.len() > 0 && all_digits(s@) && digits_val(s@) == v && v < n,
            None => !(s@.len() > 0 && all_digits(s@) && digits_val(s@) < n),
        },
{
    let len = s.unicode_len();
    if len == 0 {
        return None;
    }
    if n == 0 {
        proof {
            if all_digits(s@) {
                lemma_digits_val_nonneg(s@);
            }
        }
        return None;
    }
    let mut acc: u128 = 0;
    let mut i: usize = 0;
    while i < len
        invariant
            i <= len,
            all_digits(s@.subrange(0, i as int)),
            acc == digits_val(s@.subrange(0, i as int)),
            acc < n as u128,
        decreases len - i,
    {
        let c = s.get_char(i);
        let cv = c as u32;
        if cv < 48 || cv > 57 {
            proof {
                assert(!is_digit_char(s@[i as int]));
            }
            return None;
        }
        let d = (cv - 48) as u128;
        acc = acc * 10 + d;
        proof {
            let sub1 = s@.subrange(0, i as int + 1);
            assert(sub1.drop_last() =~= s@.subrange(0, i as int));
            assert(sub1.last() == s@[i as int]);
            assert(all_digits(sub1));
            assert(acc == digits_val(sub1));
        }
        if acc >= n as u128 {
            proof {
                if s@.len() > 0 && all_digits(s@) && digits_val(s@) < n {
                    lemma_digits_val_prefix(s@, i as int + 1);
                    assert(digits_val(s@.subrange(0, i as int + 1)) <= digits_val(s@));
                    assert(false);
                }
            }
            return None;
        }
        i = i + 1;
    }
    proof {
        assert(s@.subrange(0, len as int) =~= s@);
    }
    Some(acc as usize)
}

} // verus!
