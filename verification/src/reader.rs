//! The character-stream cursor.
//!
//! `StringReader` walks a borrowed source text left to right with
//! single-character lookahead. A consumed character is never re-emitted,
//! and every operation is total over an exhausted cursor: it answers
//! `None` or an empty result instead of failing.

use vstd::prelude::*;
use vstd::string::StrSliceExecFns;

verus! {

/// Relies on `String::push`: appends the given character to the end of the
/// string.
#[verifier::external_body]
pub(crate) fn push_char(s: &mut String, c: char)
    ensures
        final(s)@ == old(s)@.push(c),
{
    s.push(c);
}

/// A forward-only cursor over the characters of a borrowed source text.
pub struct StringReader<'a> {
    src: &'a str,
    pos: usize,
    len: usize,
}

impl<'a> StringReader<'a> {
    /// The whole source text the cursor was created over.
    pub closed spec fn input(self) -> Seq<char> {
        self.src@
    }

    /// How many characters have been consumed so far.
    pub closed spec fn position(self) -> int {
        self.pos as int
    }

    /// The characters not yet consumed.
    pub open spec fn remaining(self) -> Seq<char> {
        self.input().skip(self.position())
    }

    pub closed spec fn wf(self) -> bool {
        self.pos <= self.len && self.len == self.src@.len()
    }

    /// The cursor position always lies within the input.
    pub proof fn lemma_wf_bounds(self)
        requires
            self.wf(),
        ensures
            0 <= self.position() <= self.input().len(),
            self.remaining().len() == self.input().len() - self.position(),
    {
    }

    pub fn new(src: &'a str) -> (r: StringReader<'a>)
        ensures
            r.wf(),
            r.input() == src@,
            r.remaining() == src@,
    {
        let len = src.unicode_len();
        let r = StringReader { src, pos: 0, len };
        proof {
            assert(r.remaining() =~= src@);
        }
        r
    }

    /// The next unconsumed character, without advancing.
    pub fn peek(&self) -> (r: Option<char>)
        requires
            self.wf(),
        ensures
            r == (if self.remaining().len() > 0 {
                Some(self.remaining()[0])
            } else {
                None::<char>
            }),
    {
        if self.pos < self.len {
            Some(self.src.get_char(self.pos))
        } else {
            None
        }
    }

    /// Returns and advances past the next character; `None` at end of input.
    pub fn take(&mut self) -> (r: Option<char>)
        requires
            old(self).wf(),
        ensures
            final(self).wf(),
            final(self).input() == old(self).input(),
            old(self).remaining().len() > 0 ==> r == Some(old(self).remaining()[0])
                && final(self).remaining() == old(self).remaining().skip(1),
            old(self).remaining().len() == 0 ==> r == None::<char> && *final(self) == *old(self),
    {
        if self.pos < self.len {
            let c = self.src.get_char(self.pos);
            self.pos = self.pos + 1;
            proof {
                assert(final(self).remaining() =~= old(self).remaining().skip(1));
            }
            Some(c)
        } else {
            None
        }
    }

    /// Advances past the next character, discarding it; a no-op at end of
    /// input.
    pub fn drop(&mut self)
        requires
            old(self).wf(),
        ensures
            final(self).wf(),
            final(self).input() == old(self).input(),
            final(self).remaining() == (if old(self).remaining().len() > 0 {
                old(self).remaining().skip(1)
            } else {
                old(self).remaining()
            }),
    {
        let _ = self.take();
    }

    /// Consumes characters while the predicate holds of the peeked one and
    /// returns them as text; the first failing character is not consumed.
    pub fn take_while<F: Fn(char) -> bool>(&mut self, f: F) -> (r: String)
        requires
            old(self).wf(),
            forall|c: char| #[trigger] call_requires(f, (c,)),
        ensures
            final(self).wf(),
            final(self).input() == old(self).input(),
            r@.len() <= old(self).remaining().len(),
            r@ == old(self).remaining().take(r@.len() as int),
            final(self).remaining() == old(self).remaining().skip(r@.len() as int),
            forall|i: int|
                0 <= i < r@.len() ==> call_ensures(f, (old(self).remaining()[i],), true),
            r@.len() < old(self).remaining().len() ==> call_ensures(
                f,
                (old(self).remaining()[r@.len() as int],),
                false,
            ),
    {
        let mut buf = String::new();
        proof {
            assert(buf@ =~= old(self).remaining().take(0));
            assert(self.remaining() =~= old(self).remaining().skip(0));
        }
        loop
            invariant
                old(self).wf(),
                self.wf(),
                self.input() == old(self).input(),
                forall|c: char| #[trigger] call_requires(f, (c,)),
                buf@.len() <= old(self).remaining().len(),
                buf@ == old(self).remaining().take(buf@.len() as int),
                self.remaining() == old(self).remaining().skip(buf@.len() as int),
                forall|i: int|
                    0 <= i < buf@.len() ==> call_ensures(f, (old(self).remaining()[i],), true),
            ensures
                self.wf(),
                self.input() == old(self).input(),
                buf@.len() <= old(self).remaining().len(),
                buf@ == old(self).remaining().take(buf@.len() as int),
                self.remaining() == old(self).remaining().skip(buf@.len() as int),
                forall|i: int|
                    0 <= i < buf@.len() ==> call_ensures(f, (old(self).remaining()[i],), true),
                buf@.len() < old(self).remaining().len() ==> call_ensures(
                    f,
                    (old(self).remaining()[buf@.len() as int],),
                    false,
                ),
            decreases self.remaining().len(),
        {
            if self.pos == self.len {
                break ;
            }
            let c = self.src.get_char(self.pos);
            proof {
                assert(c == old(self).remaining()[buf@.len() as int]);
            }
            if f(c) {
                let ghost k = buf@.len() as int;
                push_char(&mut buf, c);
                self.pos = self.pos + 1;
                proof {
                    assert(buf@ =~= old(self).remaining().take(k + 1));
                    assert(self.remaining() =~= old(self).remaining().skip(k + 1));
                }
            } else {
                break ;
            }
        }
        buf
    }

    /// Same traversal as `take_while`, but discards the characters and
    /// returns only how many were skipped.
    pub fn drop_while<F: Fn(char) -> bool>(&mut self, f: F) -> (r: usize)
        requires
            old(self).wf(),
            forall|c: char| #[trigger] call_requires(f, (c,)),
        ensures
            final(self).wf(),
            final(self).input() == old(self).input(),
            r <= old(self).remaining().len(),
            final(self).remaining() == old(self).remaining().skip(r as int),
            forall|i: int| 0 <= i < r ==> call_ensures(f, (old(self).remaining()[i],), true),
            r < old(self).remaining().len() ==> call_ensures(
                f,
                (old(self).remaining()[r as int],),
                false,
            ),
    {
        let mut count: usize = 0;
        proof {
            assert(self.remaining() =~= old(self).remaining().skip(0));
        }
        loop
            invariant
                old(self).wf(),
                self.wf(),
                self.input() == old(self).input(),
                forall|c: char| #[trigger] call_requires(f, (c,)),
                count <= old(self).remaining().len(),
                self.remaining() == old(self).remaining().skip(count as int),
                forall|i: int|
                    0 <= i < count ==> call_ensures(f, (old(self).remaining()[i],), true),
            ensures
                self.wf(),
                self.input() == old(self).input(),
                count <= old(self).remaining().len(),
                self.remaining() == old(self).remaining().skip(count as int),
                forall|i: int|
                    0 <= i < count ==> call_ensures(f, (old(self).remaining()[i],), true),
                count < old(self).remaining().len() ==> call_ensures(
                    f,
                    (old(self).remaining()[count as int],),
                    false,
                ),
            decreases self.remaining().len(),
        {
            if self.pos == self.len {
                break ;
            }
            let c = self.src.get_char(self.pos);
            proof {
                assert(c == old(self).remaining()[count as int]);
            }
            if f(c) {
                let ghost k = count as int;
                count = count + 1;
                self.pos = self.pos + 1;
                proof {
                    assert(self.remaining() =~= old(self).remaining().skip(k + 1));
                }
            } else {
                break ;
            }
        }
        count
    }
}

} // verus!
