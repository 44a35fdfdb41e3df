//! Whitespace trimming for the semantic lexer's trimming policy.

use vstd::prelude::*;
use vstd::string::StrSliceExecFns;

use crate::chars::{char_is_whitespace, is_white};

verus! {

/// `s` without its leading run of whitespace.
pub open spec fn drop_leading_white(s: Seq<char>) -> Seq<char>
    decreases s.len(),
{
    if s.len() > 0 && is_white(s[0]) {
        drop_leading_white(s.skip(1))
    } else {
        s
    }
}

/// `s` without its trailing run of whitespace.
pub open spec fn drop_trailing_white(s: Seq<char>) -> Seq<char>
    decreases s.len(),
{
    if s.len() > 0 && is_white(s[s.len() - 1]) {
        drop_trailing_white(s.take(s.len() - 1))
    } else {
        s
    }
}

/// `s` without leading and trailing whitespace, as `str::trim` computes it.
pub open spec fn trim_white(s: Seq<char>) -> Seq<char> {
    drop_trailing_white(drop_leading_white(s))
}

/// Dropping the leading whitespace of `s` is skipping up to its first
/// non-whitespace character.
proof fn lemma_drop_leading_at(s: Seq<char>, i: int)
    requires
        0 <= i <= s.len(),
        forall|k: int| 0 <= k < i ==> is_white(s[k]),
        i < s.len() ==> !is_white(s[i]),
    ensures
        drop_leading_white(s) == s.skip(i),
    decreases i,
{
    if i == 0 {
        assert(s.skip(0) =~= s);
    } else {
        assert(is_white(s[0]));
        assert forall|k: int| 0 <= k < i - 1 implies is_white(s.skip(1)[k]) by {
            assert(s.skip(1)[k] == s[k + 1]);
        }
        if i - 1 < s.skip(1).len() {
            assert(s.skip(1)[i - 1] == s[i]);
        }
        lemma_drop_leading_at(s.skip(1), i - 1);
        assert(s.skip(1).skip(i - 1) =~= s.skip(i));
    }
}

/// Dropping the trailing whitespace of `s` is cutting it at the position
/// just past its last non-whitespace character.
proof fn lemma_drop_trailing_at(s: Seq<char>, j: int)
    requires
        0 <= j <= s.len(),
        forall|k: int| j <= k < s.len() ==> is_white(s[k]),
        j > 0 ==> !is_white(s[j - 1]),
    ensures
        drop_trailing_white(s) == s.take(j),
    decreases s.len(),
{
    if j == s.len() {
        assert(s.take(j) =~= s);
    } else {
        assert(is_white(s[s.len() - 1]));
        let t = s.take(s.len() - 1);
        assert forall|k: int| j <= k < t.len() implies is_white(t[k]) by {
            assert(t[k] == s[k]);
        }
        if j > 0 {
            assert(t[j - 1] == s[j - 1]);
        }
        lemma_drop_trailing_at(t, j);
        assert(t.take(j) =~= s.take(j));
    }
}

/// Trimming an already-trimmed text changes nothing.
pub proof fn lemma_trim_idempotent(s: Seq<char>)
    requires
        s.len() > 0 ==> !is_white(s[0]) && !is_white(s[s.len() - 1]),
    ensures
        trim_white(s) == s,
{
    lemma_drop_leading_at(s, 0);
    assert(s.skip(0) =~= s);
    lemma_drop_trailing_at(s, s.len() as int);
    assert(s.take(s.len() as int) =~= s);
}

/// Strips leading and trailing whitespace, as `str::trim` does: both use
/// `char::is_whitespace` to decide what goes.
pub fn trim_ws(s: &str) -> (r: String)
    ensures
        r@ == trim_white(s@),
{
    let len = s.unicode_len();
    let mut i: usize = 0;
    loop
        invariant
            0 <= i <= len,
            len == s@.len(),
            forall|k: int| 0 <= k < i ==> is_white(s@[k]),
        ensures
            0 <= i <= len,
            forall|k: int| 0 <= k < i ==> is_white(s@[k]),
            i < len ==> !is_white(s@[i as int]),
        decreases len - i,
    {
        if i == len {
            break ;
        }
        if !char_is_whitespace(s.get_char(i)) {
            break ;
        }
        i = i + 1;
    }
    if i == len {
        proof {
            lemma_drop_leading_at(s@, len as int);
            assert(s@.skip(len as int) =~= Seq::<char>::empty());
            assert(drop_trailing_white(Seq::<char>::empty()) == Seq::<char>::empty());
        }
        String::new()
    } else {
        let mut j: usize = len;
        loop
            invariant
                i < j <= len,
                len == s@.len(),
                !is_white(s@[i as int]),
                forall|k: int| j <= k < len ==> is_white(s@[k]),
            ensures
                i < j <= len,
                forall|k: int| j <= k < len ==> is_white(s@[k]),
                !is_white(s@[j - 1]),
            decreases j,
        {
            if !char_is_whitespace(s.get_char(j - 1)) {
                break ;
            }
            j = j - 1;
        }
        let t = s.substring_char(i, j);
        proof {
            lemma_drop_leading_at(s@, i as int);
            let u = s@.skip(i as int);
            assert forall|k: int| j - i <= k < u.len() implies is_white(u[k]) by {
                assert(u[k] == s@[k + i]);
            }
            assert(u[j - i - 1] == s@[j - 1]);
            lemma_drop_trailing_at(u, j - i);
            assert(u.take(j - i) =~= s@.subrange(i as int, j as int));
        }
        t.to_owned()
    }
}

} // verus!
