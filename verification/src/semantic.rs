//! The semantic lexer.
//!
//! One token is emitted per whole logical construct — comment, end of
//! line, section header, key-value pair — and the whitespace between
//! constructs is skipped, never emitted. A trimming policy decides whether
//! key and value text is stripped of surrounding whitespace before
//! emission.
//!
//! Error policy: the lexer never raises. An unrecognized leading character
//! silently ends the token sequence, exactly like a clean end of input;
//! the `ParseResult::Error` constructor is reserved and never produced.
//!
//! A section header is assumed to close; on a missing `]` the header name
//! absorbs the rest of the input and the closing consumption is a no-op.

use vstd::prelude::*;
use vstd::string::StrSliceExecFns;

use crate::chars::{char_is_alphanumeric, char_is_whitespace, is_alnum, is_white};
use crate::reader::StringReader;
use crate::scan::{lemma_prefix_len_holds, lemma_prefix_len_is, neq, prefix_len, value_pred, white_pred};
use crate::trim::{trim_white, trim_ws};

verus! {

/// A semantic token. `ListHeader` and `ListValue` are reserved extension
/// points: the current grammar never produces them.
#[derive(Debug, PartialEq, Eq)]
pub enum Token {
    EndOfLine,
    Comment { text: String },
    Header { name: String },
    KeyValue { key: String, value: String },
    ListHeader { name: String },
    ListValue { value: String },
}

/// A lexing step's outcome. `Error` is reserved: the current classification
/// logic never constructs it, an unrecognized character ends the sequence
/// silently instead.
#[derive(Debug, PartialEq, Eq)]
pub enum ParseResult {
    Token(Token),
    Error { line: usize, pos: usize },
}

/// The mathematical shape of a semantic token.
pub enum TokenModel {
    EndOfLine,
    Comment { text: Seq<char> },
    Header { name: Seq<char> },
    KeyValue { key: Seq<char>, value: Seq<char> },
    ListHeader { name: Seq<char> },
    ListValue { value: Seq<char> },
}

impl View for Token {
    type V = TokenModel;

    open spec fn view(&self) -> TokenModel {
        match self {
            Token::EndOfLine => TokenModel::EndOfLine,
            Token::Comment { text } => TokenModel::Comment { text: text@ },
            Token::Header { name } => TokenModel::Header { name: name@ },
            Token::KeyValue { key, value } => TokenModel::KeyValue { key: key@, value: value@ },
            Token::ListHeader { name } => TokenModel::ListHeader { name: name@ },
            Token::ListValue { value } => TokenModel::ListValue { value: value@ },
        }
    }
}

/// One classification step on an input whose head is not skippable
/// whitespace; the token produced, if any, and the input left over.
pub open spec fn sem_step(s: Seq<char>, comment: char, trim: bool) -> (Option<TokenModel>, Seq<
    char,
>) {
    if s.len() == 0 {
        (None::<TokenModel>, s)
    } else {
        let c = s[0];
        if c == comment {
            let n = prefix_len(s.skip(1), neq('\n')) as int;
            (Some(TokenModel::Comment { text: s.skip(1).take(n) }), s.skip(1).skip(n))
        } else if c == '\n' {
            (Some(TokenModel::EndOfLine), s.skip(1))
        } else if c == '[' {
            let n = prefix_len(s.skip(1), neq(']')) as int;
            let name = s.skip(1).take(n);
            let after = s.skip(1).skip(n);
            let rest = if after.len() > 0 {
                after.skip(1)
            } else {
                after
            };
            (Some(TokenModel::Header { name }), rest)
        } else if is_alnum(c) {
            let nk = prefix_len(s, neq('=')) as int;
            let raw_key = s.take(nk);
            let rest1 = s.skip(nk);
            let rest2 = if rest1.len() > 0 {
                rest1.skip(1)
            } else {
                rest1
            };
            let nv = prefix_len(rest2, value_pred(comment)) as int;
            let raw_value = rest2.take(nv);
            let rest = rest2.skip(nv);
            if trim {
                (
                    Some(
                        TokenModel::KeyValue {
                            key: trim_white(raw_key),
                            value: trim_white(raw_value),
                        },
                    ),
                    rest,
                )
            } else {
                (Some(TokenModel::KeyValue { key: raw_key, value: raw_value }), rest)
            }
        } else {
            (None::<TokenModel>, s)
        }
    }
}

/// The next semantic token of `s` and the input left over: the maximal
/// whitespace run at the head — when the head is not itself the comment
/// introducer, a line feed or `[` — is skipped, then one step classifies.
pub open spec fn sem_next(s: Seq<char>, comment: char, trim: bool) -> (Option<TokenModel>, Seq<
    char,
>) {
    if s.len() > 0 && s[0] != comment && s[0] != '\n' && s[0] != '[' && is_white(s[0]) {
        sem_step(s.skip(prefix_len(s, white_pred()) as int), comment, trim)
    } else {
        sem_step(s, comment, trim)
    }
}

/// The semantic lexer: a forward-only, single-pass producer of tokens.
pub struct Parser<'a> {
    reader: StringReader<'a>,
    comment: char,
    trim: bool,
    line: usize,
    pos: usize,
}

impl<'a> Parser<'a> {
    /// The whole source text the lexer was created over.
    pub closed spec fn input(self) -> Seq<char> {
        self.reader.input()
    }

    /// The characters not yet consumed.
    pub closed spec fn remaining(self) -> Seq<char> {
        self.reader.remaining()
    }

    /// The configured comment-introducer character.
    pub closed spec fn comment_char(self) -> char {
        self.comment
    }

    /// Whether the trimming policy is in force.
    pub closed spec fn trimming(self) -> bool {
        self.trim
    }

    pub closed spec fn wf(self) -> bool {
        &&& self.reader.wf()
        &&& self.input().len() + 3 <= usize::MAX
        &&& 1 <= self.line
        &&& 1 <= self.pos
        &&& (self.remaining().len() > 0 ==> self.pos + self.remaining().len() <= self.input().len()
            + 2 && self.line + self.remaining().len() <= self.input().len() + 1)
        &&& self.pos <= self.input().len() + 3
        &&& self.line <= self.input().len() + 1
    }

    /// A lexer over `data` with the given comment introducer and the
    /// trimming policy in force.
    pub fn new(comment: char, data: &'a str) -> (r: Parser<'a>)
        requires
            data@.len() + 3 <= usize::MAX,
        ensures
            r.wf(),
            r.input() == data@,
            r.remaining() == data@,
            r.comment_char() == comment,
            r.trimming() == true,
    {
        Parser::new_with_policy(comment, data, true)
    }

    /// A lexer over `data` with the given comment introducer; `trim`
    /// selects whether key and value text is stripped of surrounding
    /// whitespace before emission.
    pub fn new_with_policy(comment: char, data: &'a str, trim: bool) -> (r: Parser<'a>)
        requires
            data@.len() + 3 <= usize::MAX,
        ensures
            r.wf(),
            r.input() == data@,
            r.remaining() == data@,
            r.comment_char() == comment,
            r.trimming() == trim,
    {
        let reader = StringReader::new(data);
        proof {
            reader.lemma_wf_bounds();
        }
        Parser { reader, comment, trim, line: 1, pos: 1 }
    }

    /// Produces the next token, or `None` when the input is exhausted or
    /// begins with an unrecognized character (silent truncation: the two
    /// ends are indistinguishable here by design).
    #[verifier::rlimit(100)]
    pub fn next(&mut self) -> (r: Option<ParseResult>)
        requires
            old(self).wf(),
        ensures
            final(self).wf(),
            final(self).input() == old(self).input(),
            final(self).comment_char() == old(self).comment_char(),
            final(self).trimming() == old(self).trimming(),
            ({
                let (t, rest) = sem_next(
                    old(self).remaining(),
                    old(self).comment_char(),
                    old(self).trimming(),
                );
                &&& final(self).remaining() == rest
                &&& (match t {
                    Some(tm) => r matches Some(ParseResult::Token(tok)) && tok@ == tm,
                    None => r is None,
                })
            }),
    {
        let ghost rem0 = self.remaining();
        let ghost cm = self.comment;
        let ghost tr = self.trim;
        let skip_ws = match self.reader.peek() {
            Some(c) => c != self.comment && c != '\n' && c != '[' && char_is_whitespace(c),
            None => false,
        };
        if skip_ws {
            let is_ws = (|ch: char| -> (b: bool)
                ensures
                    b == is_white(ch),
                { char_is_whitespace(ch) });
            let n = self.reader.drop_while(is_ws);
            proof {
                assert forall|i: int| 0 <= i < n implies white_pred()(rem0[i]) by {
                    assert(call_ensures(is_ws, (rem0[i],), true));
                }
                lemma_prefix_len_is(rem0, white_pred(), n as int);
            }
            self.pos = self.pos + n;
        }
        let ghost rem1 = self.remaining();
        proof {
            assert(sem_next(rem0, cm, tr) == sem_step(rem1, cm, tr));
        }
        match self.reader.peek() {
            None => None,
            Some(c) => {
                if c == self.comment {
                    self.reader.drop();
                    let not_nl = (|ch: char| -> (b: bool)
                        ensures
                            b == (ch != '\n'),
                        { ch != '\n' });
                    let text = self.reader.take_while(not_nl);
                    proof {
                        let after = rem1.skip(1);
                        assert forall|i: int| 0 <= i < text@.len() implies neq('\n')(after[i]) by {
                            assert(call_ensures(not_nl, (after[i],), true));
                        }
                        if text@.len() < after.len() {
                            assert(call_ensures(not_nl, (after[text@.len() as int],), false));
                        }
                        lemma_prefix_len_is(after, neq('\n'), text@.len() as int);
                        assert(text@ == after.take(prefix_len(after, neq('\n')) as int));
                    }
                    let tlen = text.as_str().unicode_len();
                    self.pos = self.pos + tlen + 1;
                    Some(ParseResult::Token(Token::Comment { text }))
                } else if c == '\n' {
                    self.reader.drop();
                    self.line = self.line + 1;
                    self.pos = 1;
                    Some(ParseResult::Token(Token::EndOfLine))
                } else if c == '[' {
                    self.reader.drop();
                    let not_rb = (|ch: char| -> (b: bool)
                        ensures
                            b == (ch != ']'),
                        { ch != ']' });
                    let name = self.reader.take_while(not_rb);
                    proof {
                        let after = rem1.skip(1);
                        assert forall|i: int| 0 <= i < name@.len() implies neq(']')(after[i]) by {
                            assert(call_ensures(not_rb, (after[i],), true));
                        }
                        if name@.len() < after.len() {
                            assert(call_ensures(not_rb, (after[name@.len() as int],), false));
                        }
                        lemma_prefix_len_is(after, neq(']'), name@.len() as int);
                        assert(name@ == after.take(prefix_len(after, neq(']')) as int));
                    }
                    self.reader.drop();
                    let nlen = name.as_str().unicode_len();
                    self.pos = self.pos + nlen + 2;
                    Some(ParseResult::Token(Token::Header { name }))
                } else if char_is_alphanumeric(c) {
                    let not_eq = (|ch: char| -> (b: bool)
                        ensures
                            b == (ch != '='),
                        { ch != '=' });
                    let raw_key = self.reader.take_while(not_eq);
                    proof {
                        assert forall|i: int| 0 <= i < raw_key@.len() implies neq('=')(rem1[i]) by {
                            assert(call_ensures(not_eq, (rem1[i],), true));
                        }
                        if raw_key@.len() < rem1.len() {
                            assert(call_ensures(not_eq, (rem1[raw_key@.len() as int],), false));
                        }
                        lemma_prefix_len_is(rem1, neq('='), raw_key@.len() as int);
                    }
                    self.reader.drop();
                    let ghost rest2 = self.remaining();
                    let cchar = self.comment;
                    let in_value = (|ch: char| -> (b: bool)
                        ensures
                            b == (ch != '\n' && ch != cchar),
                        { ch != '\n' && ch != cchar });
                    let raw_value = self.reader.take_while(in_value);
                    proof {
                        assert forall|i: int| 0 <= i < raw_value@.len() implies value_pred(cm)(
                            rest2[i],
                        ) by {
                            assert(call_ensures(in_value, (rest2[i],), true));
                        }
                        if raw_value@.len() < rest2.len() {
                            assert(call_ensures(in_value, (rest2[raw_value@.len() as int],), false));
                            assert(!value_pred(cm)(rest2[raw_value@.len() as int]));
                        }
                        lemma_prefix_len_is(rest2, value_pred(cm), raw_value@.len() as int);
                    }
                    let klen = raw_key.as_str().unicode_len();
                    let vlen = raw_value.as_str().unicode_len();
                    self.pos = self.pos + klen + vlen + 1;
                    if self.trim {
                        let key = trim_ws(raw_key.as_str());
                        let value = trim_ws(raw_value.as_str());
                        Some(ParseResult::Token(Token::KeyValue { key, value }))
                    } else {
                        Some(ParseResult::Token(Token::KeyValue { key: raw_key, value: raw_value }))
                    }
                } else {
                    None
                }
            },
        }
    }
}

/// Whitespace between constructs is never emitted: a leading whitespace
/// run — one that does not begin with the comment introducer, a line feed
/// or `[`, and runs up to the first non-whitespace character — changes
/// nothing about the next token. There is, moreover, no whitespace
/// variant of `TokenModel` at all.
pub proof fn lemma_whitespace_skipped(w: Seq<char>, s: Seq<char>, comment: char, trim: bool)
    requires
        w.len() >= 1,
        forall|i: int| 0 <= i < w.len() ==> is_white(w[i]),
        w[0] != comment,
        w[0] != '\n',
        w[0] != '[',
        s.len() > 0 ==> !is_white(s[0]),
    ensures
        sem_next(w + s, comment, trim) == sem_next(s, comment, trim),
{
    let u = w + s;
    assert(u[0] == w[0]);
    assert forall|i: int| 0 <= i < w.len() implies white_pred()(u[i]) by {
        assert(u[i] == w[i]);
    }
    if w.len() < u.len() {
        assert(u[w.len() as int] == s[0]);
    }
    lemma_prefix_len_is(u, white_pred(), w.len() as int);
    assert(u.skip(w.len() as int) =~= s);
}

/// A comment token's text never includes a line feed, and when no line
/// feed follows the introducer, the comment ends exactly at end of input,
/// consuming everything. A terminating line feed is left unconsumed, so —
/// whenever the introducer is not the line feed itself — the next token
/// is `EndOfLine`.
pub proof fn lemma_comment_scope(s: Seq<char>, comment: char, trim: bool)
    requires
        s.len() > 0,
        s[0] == comment,
    ensures
        ({
            let (t, rest) = sem_next(s, comment, trim);
            let n = prefix_len(s.skip(1), neq('\n')) as int;
            let text = s.skip(1).take(n);
            &&& t == Some(TokenModel::Comment { text })
            &&& rest == s.skip(1).skip(n)
            &&& forall|i: int| 0 <= i < text.len() ==> text[i] != '\n'
            &&& ((forall|i: int| 1 <= i < s.len() ==> s[i] != '\n') ==> text == s.skip(1)
                && rest.len() == 0)
            &&& (rest.len() > 0 ==> rest[0] == '\n')
            &&& (comment != '\n' && rest.len() > 0 ==> sem_next(rest, comment, trim) == (
                Some(TokenModel::EndOfLine),
                rest.skip(1),
            ))
        }),
{
    let after = s.skip(1);
    let n = prefix_len(after, neq('\n')) as int;
    lemma_prefix_len_holds(after, neq('\n'));
    let text = after.take(n);
    assert forall|i: int| 0 <= i < text.len() implies text[i] != '\n' by {
        assert(text[i] == after[i]);
        assert(neq('\n')(after[i]));
    }
    if forall|i: int| 1 <= i < s.len() ==> s[i] != '\n' {
        assert forall|i: int| 0 <= i < after.len() implies neq('\n')(after[i]) by {
            assert(after[i] == s[i + 1]);
        }
        lemma_prefix_len_is(after, neq('\n'), after.len() as int);
        assert(text =~= after);
    }
}

/// Re-lexing a lone line feed yields `EndOfLine` again (whenever the line
/// feed is not itself the comment introducer, without which no `EndOfLine`
/// is ever produced).
pub proof fn lemma_relex_end_of_line(comment: char, trim: bool)
    requires
        comment != '\n',
    ensures
        sem_next(seq!['\n'], comment, trim) == (
            Some(TokenModel::EndOfLine),
            Seq::<char>::empty(),
        ),
{
    let u = seq!['\n'];
    assert(u[0] == '\n');
    assert(u.skip(1) =~= Seq::<char>::empty());
}

/// Re-lexing the text a comment token was cut from — the introducer
/// followed by the comment's own text — yields the same comment again.
pub proof fn lemma_relex_comment(text: Seq<char>, comment: char, trim: bool)
    requires
        forall|i: int| 0 <= i < text.len() ==> text[i] != '\n',
    ensures
        sem_next(seq![comment] + text, comment, trim) == (
            Some(TokenModel::Comment { text }),
            Seq::<char>::empty(),
        ),
{
    let u = seq![comment] + text;
    assert(u[0] == comment);
    let after = u.skip(1);
    assert(after =~= text);
    assert forall|i: int| 0 <= i < text.len() implies neq('\n')(after[i]) by {
        assert(after[i] == text[i]);
    }
    lemma_prefix_len_is(after, neq('\n'), text.len() as int);
    assert(after.take(text.len() as int) =~= text);
    assert(after.skip(text.len() as int) =~= Seq::<char>::empty());
}

/// Re-wrapping a header token's name in `[` and `]` and lexing again
/// yields the same header. A produced name never contains `]`, which is
/// all this needs.
pub proof fn lemma_relex_header(name: Seq<char>, comment: char, trim: bool)
    requires
        comment != '[',
        forall|i: int| 0 <= i < name.len() ==> name[i] != ']',
    ensures
        sem_next(seq!['['] + name + seq![']'], comment, trim) == (
            Some(TokenModel::Header { name }),
            Seq::<char>::empty(),
        ),
{
    let u = seq!['['] + name + seq![']'];
    assert(u[0] == '[');
    let after = u.skip(1);
    assert(after =~= name + seq![']']);
    assert forall|i: int| 0 <= i < name.len() implies neq(']')(after[i]) by {
        assert(after[i] == name[i]);
    }
    assert(after[name.len() as int] == ']');
    lemma_prefix_len_is(after, neq(']'), name.len() as int);
    assert(after.take(name.len() as int) =~= name);
    let rest0 = after.skip(name.len() as int);
    assert(rest0 =~= seq![']']);
    assert(rest0.skip(1) =~= Seq::<char>::empty());
}

/// Re-joining an untrimmed key-value token's key and value around `=` and
/// lexing again, under the non-trimming policy, yields the same token. The
/// hypotheses are exactly what the producing step guarantees: the key
/// begins with the alphanumeric character that selected the branch, the
/// key contains no `=`, and the value neither a line feed nor the
/// introducer.
pub proof fn lemma_relex_key_value(key: Seq<char>, value: Seq<char>, comment: char)
    requires
        key.len() > 0,
        is_alnum(key[0]),
        !is_white(key[0]),
        key[0] != comment,
        key[0] != '\n',
        key[0] != '[',
        forall|i: int| 0 <= i < key.len() ==> key[i] != '=',
        forall|i: int| 0 <= i < value.len() ==> value[i] != '\n' && value[i] != comment,
    ensures
        sem_next(key + seq!['='] + value, comment, false) == (
            Some(TokenModel::KeyValue { key, value }),
            Seq::<char>::empty(),
        ),
{
    let u = key + seq!['='] + value;
    assert(u[0] == key[0]);
    assert forall|i: int| 0 <= i < key.len() implies neq('=')(u[i]) by {
        assert(u[i] == key[i]);
    }
    assert(u[key.len() as int] == '=');
    lemma_prefix_len_is(u, neq('='), key.len() as int);
    assert(u.take(key.len() as int) =~= key);
    let rest1 = u.skip(key.len() as int);
    assert(rest1 =~= seq!['='] + value);
    let rest2 = rest1.skip(1);
    assert(rest2 =~= value);
    assert forall|i: int| 0 <= i < value.len() implies value_pred(comment)(rest2[i]) by {
        assert(rest2[i] == value[i]);
    }
    lemma_prefix_len_is(rest2, value_pred(comment), value.len() as int);
    assert(rest2.take(value.len() as int) =~= value);
    assert(rest2.skip(value.len() as int) =~= Seq::<char>::empty());
}

/// The trimming-policy counterpart of `lemma_relex_key_value`: a key and
/// value that are already trimmed — as the trimming policy emits them —
/// re-lex to the same token.
pub proof fn lemma_relex_key_value_trimmed(key: Seq<char>, value: Seq<char>, comment: char)
    requires
        key.len() > 0,
        is_alnum(key[0]),
        !is_white(key[0]),
        !is_white(key[key.len() - 1]),
        key[0] != comment,
        key[0] != '\n',
        key[0] != '[',
        forall|i: int| 0 <= i < key.len() ==> key[i] != '=',
        forall|i: int| 0 <= i < value.len() ==> value[i] != '\n' && value[i] != comment,
        value.len() > 0 ==> !is_white(value[0]) && !is_white(value[value.len() - 1]),
    ensures
        sem_next(key + seq!['='] + value, comment, true) == (
            Some(TokenModel::KeyValue { key, value }),
            Seq::<char>::empty(),
        ),
{
    let u = key + seq!['='] + value;
    assert(u[0] == key[0]);
    assert forall|i: int| 0 <= i < key.len() implies neq('=')(u[i]) by {
        assert(u[i] == key[i]);
    }
    assert(u[key.len() as int] == '=');
    lemma_prefix_len_is(u, neq('='), key.len() as int);
    assert(u.take(key.len() as int) =~= key);
    let rest1 = u.skip(key.len() as int);
    assert(rest1 =~= seq!['='] + value);
    let rest2 = rest1.skip(1);
    assert(rest2 =~= value);
    assert forall|i: int| 0 <= i < value.len() implies value_pred(comment)(rest2[i]) by {
        assert(rest2[i] == value[i]);
    }
    lemma_prefix_len_is(rest2, value_pred(comment), value.len() as int);
    assert(rest2.take(value.len() as int) =~= value);
    assert(rest2.skip(value.len() as int) =~= Seq::<char>::empty());
    crate::trim::lemma_trim_idempotent(key);
    crate::trim::lemma_trim_idempotent(value);
}

/// Idempotent classification, closed end to end for headers: whatever
/// input a header token came out of, re-wrapping its name in `[` `]` and
/// lexing again yields the same header and exhausts the input.
pub proof fn lemma_produced_header_relexes(
    s: Seq<char>,
    comment: char,
    trim: bool,
    name: Seq<char>,
)
    requires
        comment != '[',
        sem_next(s, comment, trim).0 == Some(TokenModel::Header { name }),
    ensures
        sem_next(seq!['['] + name + seq![']'], comment, trim) == (
            Some(TokenModel::Header { name }),
            Seq::<char>::empty(),
        ),
{
    let u = if s.len() > 0 && s[0] != comment && s[0] != '\n' && s[0] != '[' && is_white(s[0]) {
        s.skip(prefix_len(s, white_pred()) as int)
    } else {
        s
    };
    assert(sem_next(s, comment, trim) == sem_step(u, comment, trim));
    let n = prefix_len(u.skip(1), neq(']')) as int;
    lemma_prefix_len_holds(u.skip(1), neq(']'));
    assert(name == u.skip(1).take(n));
    assert forall|i: int| 0 <= i < name.len() implies name[i] != ']' by {
        assert(name[i] == u.skip(1)[i]);
        assert(neq(']')(u.skip(1)[i]));
    }
    lemma_relex_header(name, comment, trim);
}

/// Idempotent classification, closed end to end for comments: whatever
/// input a comment token came out of, putting the introducer back in front
/// of its text and lexing again yields the same comment.
pub proof fn lemma_produced_comment_relexes(
    s: Seq<char>,
    comment: char,
    trim: bool,
    text: Seq<char>,
)
    requires
        sem_next(s, comment, trim).0 == Some(TokenModel::Comment { text }),
    ensures
        sem_next(seq![comment] + text, comment, trim) == (
            Some(TokenModel::Comment { text }),
            Seq::<char>::empty(),
        ),
{
    let u = if s.len() > 0 && s[0] != comment && s[0] != '\n' && s[0] != '[' && is_white(s[0]) {
        s.skip(prefix_len(s, white_pred()) as int)
    } else {
        s
    };
    assert(sem_next(s, comment, trim) == sem_step(u, comment, trim));
    let n = prefix_len(u.skip(1), neq('\n')) as int;
    lemma_prefix_len_holds(u.skip(1), neq('\n'));
    assert(text == u.skip(1).take(n));
    assert forall|i: int| 0 <= i < text.len() implies text[i] != '\n' by {
        assert(text[i] == u.skip(1)[i]);
        assert(neq('\n')(u.skip(1)[i]));
    }
    lemma_relex_comment(text, comment, trim);
}

} // verus!
