//! Predicate-bounded scanning over character sequences.
//!
//! `prefix_len` is the mathematical counterpart of the cursor's
//! consume-while operation: the length of the longest prefix on which a
//! predicate holds. The named predicate builders below are shared by the
//! specifications of both lexers, so that the same predicate value appears
//! on both sides of every refinement proof.

use vstd::prelude::*;

use crate::chars::{is_alnum, is_ascii_punct, is_white};

verus! {

/// Length of the longest prefix of `s` whose characters all satisfy `p`.
pub open spec fn prefix_len(s: Seq<char>, p: spec_fn(char) -> bool) -> nat
    decreases s.len(),
{
    if s.len() == 0 || !p(s[0]) {
        0
    } else {
        (1 + prefix_len(s.skip(1), p)) as nat
    }
}

/// The predicate holding of every character other than `stop`.
pub open spec fn neq(stop: char) -> spec_fn(char) -> bool {
    |c: char| c != stop
}

/// The predicate holding of whitespace characters.
pub open spec fn white_pred() -> spec_fn(char) -> bool {
    |c: char| is_white(c)
}

/// The predicate bounding a raw value region: everything up to a line feed
/// or the comment introducer.
pub open spec fn value_pred(comment: char) -> spec_fn(char) -> bool {
    |c: char| c != '\n' && c != comment
}

/// The predicate bounding a comment body in flat mode: everything up to a
/// line feed, and in the CRLF-tolerant variant also up to a carriage return.
pub open spec fn comment_pred(crlf: bool) -> spec_fn(char) -> bool {
    |c: char| c != '\n' && (crlf ==> c != '\r')
}

/// Whether `character` counts as part of a generic flat-mode token:
/// alphanumeric, or ASCII punctuation other than the ignored
/// comment introducer.
pub open spec fn is_token_char(character: char, ignore: char) -> bool {
    is_alnum(character) || (is_ascii_punct(character) && character != ignore)
}

/// The predicate bounding a generic flat-mode token.
pub open spec fn token_pred(ignore: char) -> spec_fn(char) -> bool {
    |c: char| is_token_char(c, ignore)
}

/// The prefix length never exceeds the sequence length.
pub proof fn lemma_prefix_len_le(s: Seq<char>, p: spec_fn(char) -> bool)
    ensures
        prefix_len(s, p) <= s.len(),
    decreases s.len(),
{
    if s.len() == 0 || !p(s[0]) {
    } else {
        lemma_prefix_len_le(s.skip(1), p);
    }
}

/// Every character of the prefix satisfies the predicate, and the first
/// character past it — when there is one — fails it.
pub proof fn lemma_prefix_len_holds(s: Seq<char>, p: spec_fn(char) -> bool)
    ensures
        prefix_len(s, p) <= s.len(),
        forall|i: int| 0 <= i < prefix_len(s, p) ==> p(s[i]),
        prefix_len(s, p) < s.len() ==> !p(s[prefix_len(s, p) as int]),
    decreases s.len(),
{
    if s.len() == 0 || !p(s[0]) {
    } else {
        lemma_prefix_len_holds(s.skip(1), p);
        assert forall|i: int| 0 <= i < prefix_len(s, p) implies p(s[i]) by {
            if i > 0 {
                assert(s.skip(1)[i - 1] == s[i]);
            }
        }
        if prefix_len(s, p) < s.len() {
            assert(s.skip(1)[prefix_len(s, p) - 1] == s[prefix_len(s, p) as int]);
        }
    }
}

/// A length whose characters all satisfy the predicate, bounded by a failing
/// character or the end of the sequence, is exactly the prefix length.
pub proof fn lemma_prefix_len_is(s: Seq<char>, p: spec_fn(char) -> bool, n: int)
    requires
        0 <= n <= s.len(),
        forall|i: int| 0 <= i < n ==> p(s[i]),
        n < s.len() ==> !p(s[n]),
    ensures
        prefix_len(s, p) == n,
    decreases s.len(),
{
    if n == 0 {
    } else {
        assert(p(s[0]));
        assert forall|i: int| 0 <= i < n - 1 implies p(s.skip(1)[i]) by {
            assert(s.skip(1)[i] == s[i + 1]);
        }
        if n - 1 < s.skip(1).len() {
            assert(s.skip(1)[n - 1] == s[n]);
        }
        lemma_prefix_len_is(s.skip(1), p, n - 1);
    }
}

} // verus!
