//! The flat lexer.
//!
//! Every distinguishable lexical unit is emitted: separators, whitespace
//! runs, comments, line ends and generic tokens. An optional CRLF-tolerant
//! variant additionally stops comment bodies at a carriage return and
//! absorbs a bare carriage return without emitting a lexeme.
//!
//! Error policy: unlike the semantic lexer, an unrecognized character is a
//! fatal condition, reported with the offending character and its
//! one-based line and column.
//!
//! A section header is assumed to close; on a missing `]` the header name
//! absorbs the rest of the input and no `Separator(']')` lexeme is
//! emitted — nothing stands for text that was never consumed, and the
//! policy agrees with the semantic lexer's.

use vstd::prelude::*;
use vstd::pervasive::unreached;
use vstd::string::StrSliceExecFns;

use crate::chars::{char_is_alphanumeric, char_is_ascii_punct, char_is_whitespace, is_alnum, is_ascii_punct, is_white};
use crate::reader::StringReader;
use crate::scan::{
    comment_pred, is_token_char, lemma_prefix_len_holds, lemma_prefix_len_is, lemma_prefix_len_le,
    neq, prefix_len, token_pred, white_pred,
};

verus! {

/// A flat lexeme: one elementary lexical fragment.
#[derive(Debug, PartialEq, Eq)]
pub enum Lexeme {
    EndOfLine,
    Separator(char),
    Whitespace(String),
    Comment(String),
    Token(String),
}

/// The mathematical shape of a flat lexeme.
pub enum LexemeModel {
    EndOfLine,
    Separator(char),
    Whitespace(Seq<char>),
    Comment(Seq<char>),
    Token(Seq<char>),
}

impl View for Lexeme {
    type V = LexemeModel;

    open spec fn view(&self) -> LexemeModel {
        match self {
            Lexeme::EndOfLine => LexemeModel::EndOfLine,
            Lexeme::Separator(c) => LexemeModel::Separator(*c),
            Lexeme::Whitespace(t) => LexemeModel::Whitespace(t@),
            Lexeme::Comment(t) => LexemeModel::Comment(t@),
            Lexeme::Token(t) => LexemeModel::Token(t@),
        }
    }
}

/// The fatal condition of the flat lexer: the offending character and its
/// one-based line and column.
#[derive(Debug, PartialEq, Eq, Clone, Copy)]
pub struct LexError {
    pub character: char,
    pub line: usize,
    pub pos: usize,
}

/// What lexing a whole input comes to: the full lexeme sequence, or the
/// fatal condition that aborted it.
pub enum FlatOutcome {
    Done(Seq<LexemeModel>),
    Fatal { character: char, line: int, pos: int },
}

/// `o` with the lexeme `m` emitted in front of it; a fatal outcome stands.
pub open spec fn prepend(m: LexemeModel, o: FlatOutcome) -> FlatOutcome {
    match o {
        FlatOutcome::Done(ls) => FlatOutcome::Done(seq![m] + ls),
        FlatOutcome::Fatal { .. } => o,
    }
}

/// `o` with the lexemes `acc` emitted in front of it; a fatal outcome
/// stands.
pub open spec fn chain(acc: Seq<LexemeModel>, o: FlatOutcome) -> FlatOutcome {
    match o {
        FlatOutcome::Done(ls) => FlatOutcome::Done(acc + ls),
        FlatOutcome::Fatal { .. } => o,
    }
}

/// The views of a sequence of lexemes.
pub open spec fn lexemes_view(s: Seq<Lexeme>) -> Seq<LexemeModel> {
    s.map_values(|l: Lexeme| l@)
}

/// Whether `character` counts as part of a generic flat-mode token:
/// alphanumeric, or ASCII punctuation other than the ignored
/// comment introducer.
pub fn is_token(character: char, ignore: char) -> (r: bool)
    ensures
        r == is_token_char(character, ignore),
{
    char_is_alphanumeric(character) || (char_is_ascii_punct(character) && character != ignore)
}

/// What the flat lexer makes of `s`, with `line` and `pos` the one-based
/// position of `s[0]` in the whole input. Each step classifies the head
/// character into exactly one category and consumes at least one
/// character.
pub open spec fn flat_lex(s: Seq<char>, comment: char, crlf: bool, line: int, pos: int) -> (o:
    FlatOutcome)
    decreases s.len(),
{
    if s.len() == 0 {
        FlatOutcome::Done(Seq::empty())
    } else {
        let c = s[0];
        if c == comment {
            let n = prefix_len(s.skip(1), comment_pred(crlf)) as int;
            proof {
                lemma_prefix_len_le(s.skip(1), comment_pred(crlf));
            }
            prepend(
                LexemeModel::Comment(s.skip(1).take(n)),
                flat_lex(s.skip(1 + n), comment, crlf, line, pos + 1 + n),
            )
        } else if c == '\n' {
            prepend(LexemeModel::EndOfLine, flat_lex(s.skip(1), comment, crlf, line + 1, 1))
        } else if crlf && c == '\r' {
            flat_lex(s.skip(1), comment, crlf, line, pos + 1)
        } else if c == '[' {
            let n = prefix_len(s.skip(1), neq(']')) as int;
            proof {
                lemma_prefix_len_le(s.skip(1), neq(']'));
            }
            if 1 + n < s.len() {
                prepend(
                    LexemeModel::Separator('['),
                    prepend(
                        LexemeModel::Token(s.skip(1).take(n)),
                        prepend(
                            LexemeModel::Separator(']'),
                            flat_lex(s.skip(2 + n), comment, crlf, line, pos + 2 + n),
                        ),
                    ),
                )
            } else {
                prepend(
                    LexemeModel::Separator('['),
                    prepend(
                        LexemeModel::Token(s.skip(1).take(n)),
                        flat_lex(s.skip(1 + n), comment, crlf, line, pos + 2 + n),
                    ),
                )
            }
        } else if c == '=' {
            prepend(
                LexemeModel::Separator('='),
                flat_lex(s.skip(1), comment, crlf, line, pos + 1),
            )
        } else if is_white(c) {
            let n = prefix_len(s, white_pred()) as int;
            proof {
                lemma_prefix_len_le(s, white_pred());
                assert(white_pred()(s[0]));
                assert(n >= 1);
            }
            prepend(
                LexemeModel::Whitespace(s.take(n)),
                flat_lex(s.skip(n), comment, crlf, line, pos + n),
            )
        } else if is_token_char(c, comment) {
            let n = prefix_len(s, token_pred(comment)) as int;
            proof {
                lemma_prefix_len_le(s, token_pred(comment));
                assert(token_pred(comment)(s[0]));
                assert(n >= 1);
            }
            prepend(
                LexemeModel::Token(s.take(n)),
                flat_lex(s.skip(n), comment, crlf, line, pos + n),
            )
        } else {
            FlatOutcome::Fatal { character: c, line, pos }
        }
    }
}

proof fn lemma_chain_prepend(acc: Seq<Lexeme>, l: Lexeme, o: FlatOutcome)
    ensures
        chain(lexemes_view(acc), prepend(l@, o)) == chain(lexemes_view(acc.push(l)), o),
{
    assert(lexemes_view(acc.push(l)) =~= lexemes_view(acc).push(l@));
    match o {
        FlatOutcome::Done(ls) => {
            assert(lexemes_view(acc) + (seq![l@] + ls) =~= lexemes_view(acc).push(l@) + ls);
        },
        FlatOutcome::Fatal { .. } => {},
    }
}

/// Lexes the whole of `data` into flat lexemes, or reports the first
/// unrecognized character with its exact line and column. `crlf` selects
/// the CRLF-tolerant variant.
#[verifier::rlimit(100)]
pub fn lex_flat(data: &str, comment: char, crlf: bool) -> (r: Result<Vec<Lexeme>, LexError>)
    requires
        data@.len() + 3 <= usize::MAX,
    ensures
        match r {
            Ok(v) => flat_lex(data@, comment, crlf, 1, 1) == FlatOutcome::Done(lexemes_view(v@)),
            Err(e) => flat_lex(data@, comment, crlf, 1, 1) == (FlatOutcome::Fatal {
                character: e.character,
                line: e.line as int,
                pos: e.pos as int,
            }),
        },
{
    let mut reader = StringReader::new(data);
    let mut result: Vec<Lexeme> = Vec::new();
    let mut line: usize = 1;
    let mut pos: usize = 1;
    let mut fatal: Option<LexError> = None;
    proof {
        assert(lexemes_view(result@) =~= Seq::<LexemeModel>::empty());
    }
    loop
        invariant_except_break
            fatal is None,
        invariant
            reader.wf(),
            reader.input() == data@,
            data@.len() + 3 <= usize::MAX,
            1 <= line,
            1 <= pos,
            reader.remaining().len() > 0 ==> pos + reader.remaining().len() <= data@.len() + 2
                && line + reader.remaining().len() <= data@.len() + 1,
            pos <= data@.len() + 3,
            line <= data@.len() + 1,
            flat_lex(data@, comment, crlf, 1, 1) == chain(
                lexemes_view(result@),
                flat_lex(reader.remaining(), comment, crlf, line as int, pos as int),
            ),
        ensures
            flat_lex(data@, comment, crlf, 1, 1) == chain(
                lexemes_view(result@),
                flat_lex(reader.remaining(), comment, crlf, line as int, pos as int),
            ),
            match fatal {
                Some(e) => flat_lex(reader.remaining(), comment, crlf, line as int, pos as int)
                    == (FlatOutcome::Fatal {
                    character: e.character,
                    line: e.line as int,
                    pos: e.pos as int,
                }),
                None => reader.remaining().len() == 0,
            },
        decreases reader.remaining().len(),
    {
        let ghost rem_it = reader.remaining();
        let ghost res_it = result@;
        let ghost line_it = line as int;
        let ghost pos_it = pos as int;
        let c = match reader.peek() {
            None => {
                break ;
            },
            Some(c) => c,
        };
        if c == comment {
            reader.drop();
            let in_comment = (|ch: char| -> (b: bool)
                ensures
                    b == (ch != '\n' && (crlf ==> ch != '\r')),
                { ch != '\n' && (!crlf || ch != '\r') });
            let text = reader.take_while(in_comment);
            proof {
                let after = rem_it.skip(1);
                assert forall|i: int| 0 <= i < text@.len() implies comment_pred(crlf)(
                    after[i],
                ) by {
                    assert(call_ensures(in_comment, (after[i],), true));
                }
                if text@.len() < after.len() {
                    assert(call_ensures(in_comment, (after[text@.len() as int],), false));
                }
                lemma_prefix_len_is(after, comment_pred(crlf), text@.len() as int);
                assert(reader.remaining() =~= rem_it.skip(1 + text@.len() as int));
                assert(flat_lex(rem_it, comment, crlf, line_it, pos_it) == prepend(
                    LexemeModel::Comment(text@),
                    flat_lex(
                        reader.remaining(),
                        comment,
                        crlf,
                        line_it,
                        pos_it + 1 + text@.len() as int,
                    ),
                ));
                lemma_chain_prepend(
                    result@,
                    Lexeme::Comment(text),
                    flat_lex(
                        reader.remaining(),
                        comment,
                        crlf,
                        line_it,
                        pos_it + 1 + text@.len() as int,
                    ),
                );
            }
            let tlen = text.as_str().unicode_len();
            pos = pos + 1 + tlen;
            result.push(Lexeme::Comment(text));
        } else if c == '\n' {
            reader.drop();
            proof {
                lemma_chain_prepend(
                    result@,
                    Lexeme::EndOfLine,
                    flat_lex(reader.remaining(), comment, crlf, line_it + 1, 1),
                );
            }
            line = line + 1;
            pos = 1;
            result.push(Lexeme::EndOfLine);
        } else if crlf && c == '\r' {
            reader.drop();
            pos = pos + 1;
        } else if c == '[' {
            reader.drop();
            result.push(Lexeme::Separator('['));
            let not_rb = (|ch: char| -> (b: bool)
                ensures
                    b == (ch != ']'),
                { ch != ']' });
            let name = reader.take_while(not_rb);
            let ghost after_name = reader.remaining();
            let nlen = name.as_str().unicode_len();
            result.push(Lexeme::Token(name));
            let closed = match reader.peek() {
                Some(_) => true,
                None => false,
            };
            if closed {
                reader.drop();
            }
            proof {
                let after = rem_it.skip(1);
                assert forall|i: int| 0 <= i < nlen implies neq(']')(after[i]) by {
                    assert(call_ensures(not_rb, (after[i],), true));
                }
                if (nlen as int) < after.len() {
                    assert(call_ensures(not_rb, (after[nlen as int],), false));
                }
                lemma_prefix_len_is(after, neq(']'), nlen as int);
                assert(after_name =~= rem_it.skip(1 + nlen as int));
                let o = flat_lex(
                    reader.remaining(),
                    comment,
                    crlf,
                    line_it,
                    pos_it + 2 + nlen as int,
                );
                if closed {
                    assert(1 + nlen < rem_it.len());
                    assert(reader.remaining() =~= rem_it.skip(2 + nlen as int));
                    assert(flat_lex(rem_it, comment, crlf, line_it, pos_it) == prepend(
                        LexemeModel::Separator('['),
                        prepend(
                            LexemeModel::Token(name@),
                            prepend(LexemeModel::Separator(']'), o),
                        ),
                    ));
                    lemma_chain_prepend(
                        res_it,
                        Lexeme::Separator('['),
                        prepend(
                            LexemeModel::Token(name@),
                            prepend(LexemeModel::Separator(']'), o),
                        ),
                    );
                    lemma_chain_prepend(
                        res_it.push(Lexeme::Separator('[')),
                        Lexeme::Token(name),
                        prepend(LexemeModel::Separator(']'), o),
                    );
                    lemma_chain_prepend(
                        res_it.push(Lexeme::Separator('[')).push(Lexeme::Token(name)),
                        Lexeme::Separator(']'),
                        o,
                    );
                } else {
                    assert(1 + nlen == rem_it.len());
                    assert(reader.remaining() == after_name);
                    assert(flat_lex(rem_it, comment, crlf, line_it, pos_it) == prepend(
                        LexemeModel::Separator('['),
                        prepend(LexemeModel::Token(name@), o),
                    ));
                    lemma_chain_prepend(
                        res_it,
                        Lexeme::Separator('['),
                        prepend(LexemeModel::Token(name@), o),
                    );
                    lemma_chain_prepend(
                        res_it.push(Lexeme::Separator('[')),
                        Lexeme::Token(name),
                        o,
                    );
                }
                assert(result@ == res_it.push(Lexeme::Separator('[')).push(Lexeme::Token(name)));
            }
            if closed {
                result.push(Lexeme::Separator(']'));
            }
            pos = pos + 2 + nlen;
        } else if c == '=' {
            reader.drop();
            proof {
                lemma_chain_prepend(
                    result@,
                    Lexeme::Separator('='),
                    flat_lex(reader.remaining(), comment, crlf, line_it, pos_it + 1),
                );
            }
            result.push(Lexeme::Separator('='));
            pos = pos + 1;
        } else if char_is_whitespace(c) {
            let is_ws = (|ch: char| -> (b: bool)
                ensures
                    b == is_white(ch),
                { char_is_whitespace(ch) });
            let text = reader.take_while(is_ws);
            proof {
                assert forall|i: int| 0 <= i < text@.len() implies white_pred()(rem_it[i]) by {
                    assert(call_ensures(is_ws, (rem_it[i],), true));
                }
                if text@.len() < rem_it.len() {
                    assert(call_ensures(is_ws, (rem_it[text@.len() as int],), false));
                }
                lemma_prefix_len_is(rem_it, white_pred(), text@.len() as int);
                assert(text@.len() >= 1);
                lemma_chain_prepend(
                    result@,
                    Lexeme::Whitespace(text),
                    flat_lex(
                        reader.remaining(),
                        comment,
                        crlf,
                        line_it,
                        pos_it + text@.len() as int,
                    ),
                );
            }
            let tlen = text.as_str().unicode_len();
            pos = pos + tlen;
            result.push(Lexeme::Whitespace(text));
        } else if is_token(c, comment) {
            let in_token = (|ch: char| -> (b: bool)
                ensures
                    b == is_token_char(ch, comment),
                { is_token(ch, comment) });
            let text = reader.take_while(in_token);
            proof {
                assert forall|i: int| 0 <= i < text@.len() implies token_pred(comment)(
                    rem_it[i],
                ) by {
                    assert(call_ensures(in_token, (rem_it[i],), true));
                }
                if text@.len() < rem_it.len() {
                    assert(call_ensures(in_token, (rem_it[text@.len() as int],), false));
                }
                lemma_prefix_len_is(rem_it, token_pred(comment), text@.len() as int);
                assert(text@.len() >= 1);
                lemma_chain_prepend(
                    result@,
                    Lexeme::Token(text),
                    flat_lex(
                        reader.remaining(),
                        comment,
                        crlf,
                        line_it,
                        pos_it + text@.len() as int,
                    ),
                );
            }
            let tlen = text.as_str().unicode_len();
            pos = pos + tlen;
            result.push(Lexeme::Token(text));
        } else {
            fatal = Some(LexError { character: c, line, pos });
            break ;
        }
    }
    match fatal {
        None => {
            proof {
                assert(lexemes_view(result@) + Seq::<LexemeModel>::empty() =~= lexemes_view(
                    result@,
                ));
            }
            Ok(result)
        },
        Some(e) => Err(e),
    }
}

/// Lexes an input known to contain no fatal character, in the
/// CRLF-tolerant variant, and returns the complete ordered lexeme list.
pub fn parse(data: &str, comment: char) -> (r: Vec<Lexeme>)
    requires
        data@.len() + 3 <= usize::MAX,
        flat_lex(data@, comment, true, 1, 1) is Done,
    ensures
        flat_lex(data@, comment, true, 1, 1) == FlatOutcome::Done(lexemes_view(r@)),
{
    match lex_flat(data, comment, true) {
        Ok(v) => v,
        Err(_) => unreached(),
    }
}

/// Lexes like `parse`, but first checks the input instead of demanding a
/// fatal-free one: `None` reports that lexing aborts on some character.
pub fn parse_checked(data: &str, comment: char) -> (r: Option<Vec<Lexeme>>)
    requires
        data@.len() + 3 <= usize::MAX,
    ensures
        match r {
            Some(v) => flat_lex(data@, comment, true, 1, 1) == FlatOutcome::Done(
                lexemes_view(v@),
            ),
            None => flat_lex(data@, comment, true, 1, 1) is Fatal,
        },
{
    match lex_flat(data, comment, true) {
        Ok(_) => Some(parse(data, comment)),
        Err(_) => None,
    }
}

/// The literal source text a lexeme stands for: the comment introducer is
/// put back in front of a comment's text; every other lexeme carries its
/// text as it was consumed.
pub open spec fn lexeme_text(m: LexemeModel, comment: char) -> Seq<char> {
    match m {
        LexemeModel::EndOfLine => seq!['\n'],
        LexemeModel::Separator(c) => seq![c],
        LexemeModel::Whitespace(t) => t,
        LexemeModel::Comment(t) => seq![comment] + t,
        LexemeModel::Token(t) => t,
    }
}

/// The literal source text of a whole lexeme sequence, in order.
pub open spec fn recon(ls: Seq<LexemeModel>, comment: char) -> Seq<char>
    decreases ls.len(),
{
    if ls.len() == 0 {
        Seq::empty()
    } else {
        lexeme_text(ls[0], comment) + recon(ls.skip(1), comment)
    }
}

proof fn lemma_recon_cons(m: LexemeModel, ls: Seq<LexemeModel>, comment: char)
    ensures
        recon(seq![m] + ls, comment) == lexeme_text(m, comment) + recon(ls, comment),
{
    let full = seq![m] + ls;
    assert(full[0] == m);
    assert(full.skip(1) =~= ls);
}

/// Round trip: for any input accepted without a fatal outcome,
/// concatenating the literal text of every emitted lexeme, in order,
/// reconstructs the input exactly. The CRLF-tolerant variant holds of
/// inputs without a carriage return, which it absorbs without a lexeme.
#[verifier::rlimit(100)]
pub proof fn lemma_flat_round_trip(
    s: Seq<char>,
    comment: char,
    crlf: bool,
    line: int,
    pos: int,
    ls: Seq<LexemeModel>,
)
    requires
        flat_lex(s, comment, crlf, line, pos) == FlatOutcome::Done(ls),
        crlf ==> forall|i: int| 0 <= i < s.len() ==> s[i] != '\r',
    ensures
        recon(ls, comment) == s,
    decreases s.len(),
{
    if s.len() == 0 {
        assert(ls =~= Seq::<LexemeModel>::empty());
        assert(recon(ls, comment) =~= s);
    } else {
        let c = s[0];
        if c == comment {
            let n = prefix_len(s.skip(1), comment_pred(crlf)) as int;
            lemma_prefix_len_le(s.skip(1), comment_pred(crlf));
            let m = LexemeModel::Comment(s.skip(1).take(n));
            let rest = s.skip(1 + n);
            match flat_lex(rest, comment, crlf, line, pos + 1 + n) {
                FlatOutcome::Done(ls2) => {
                    assert(ls == seq![m] + ls2);
                    if crlf {
                        assert forall|i: int| 0 <= i < rest.len() implies rest[i] != '\r' by {
                            assert(rest[i] == s[i + 1 + n]);
                        }
                    }
                    lemma_flat_round_trip(rest, comment, crlf, line, pos + 1 + n, ls2);
                    lemma_recon_cons(m, ls2, comment);
                    assert(lexeme_text(m, comment) =~= s.take(1 + n));
                    assert(recon(ls, comment) =~= s);
                },
                FlatOutcome::Fatal { .. } => {
                    assert(false);
                },
            }
        } else if c == '\n' {
            let m = LexemeModel::EndOfLine;
            let rest = s.skip(1);
            match flat_lex(rest, comment, crlf, line + 1, 1) {
                FlatOutcome::Done(ls2) => {
                    assert(ls == seq![m] + ls2);
                    if crlf {
                        assert forall|i: int| 0 <= i < rest.len() implies rest[i] != '\r' by {
                            assert(rest[i] == s[i + 1]);
                        }
                    }
                    lemma_flat_round_trip(rest, comment, crlf, line + 1, 1, ls2);
                    lemma_recon_cons(m, ls2, comment);
                    assert(lexeme_text(m, comment) =~= s.take(1));
                    assert(recon(ls, comment) =~= s);
                },
                FlatOutcome::Fatal { .. } => {
                    assert(false);
                },
            }
        } else if crlf && c == '\r' {
            assert(false);
        } else if c == '[' {
            let n = prefix_len(s.skip(1), neq(']')) as int;
            lemma_prefix_len_holds(s.skip(1), neq(']'));
            let name = s.skip(1).take(n);
            let consumed = if 1 + n < s.len() {
                2 + n
            } else {
                1 + n
            };
            let rest = s.skip(consumed);
            let a = LexemeModel::Separator('[');
            let b = LexemeModel::Token(name);
            let d = LexemeModel::Separator(']');
            match flat_lex(rest, comment, crlf, line, pos + 2 + n) {
                FlatOutcome::Done(ls2) => {
                    if crlf {
                        assert forall|i: int| 0 <= i < rest.len() implies rest[i] != '\r' by {
                            assert(rest[i] == s[i + consumed]);
                        }
                    }
                    lemma_flat_round_trip(rest, comment, crlf, line, pos + 2 + n, ls2);
                    if 1 + n < s.len() {
                        assert(ls == seq![a] + (seq![b] + (seq![d] + ls2)));
                        lemma_recon_cons(a, seq![b] + (seq![d] + ls2), comment);
                        lemma_recon_cons(b, seq![d] + ls2, comment);
                        lemma_recon_cons(d, ls2, comment);
                        assert(!neq(']')(s.skip(1)[n]));
                        assert(s[1 + n] == ']');
                        assert(seq!['['] + name + seq![']'] =~= s.take(2 + n));
                        assert(recon(ls, comment) =~= s);
                    } else {
                        assert(ls == seq![a] + (seq![b] + ls2));
                        lemma_recon_cons(a, seq![b] + ls2, comment);
                        lemma_recon_cons(b, ls2, comment);
                        assert(rest =~= Seq::<char>::empty());
                        assert(recon(ls2, comment) =~= Seq::<char>::empty());
                        assert(seq!['['] + name =~= s);
                        assert(recon(ls, comment) =~= s);
                    }
                },
                FlatOutcome::Fatal { .. } => {
                    assert(false);
                },
            }
        } else if c == '=' {
            let m = LexemeModel::Separator('=');
            let rest = s.skip(1);
            match flat_lex(rest, comment, crlf, line, pos + 1) {
                FlatOutcome::Done(ls2) => {
                    assert(ls == seq![m] + ls2);
                    if crlf {
                        assert forall|i: int| 0 <= i < rest.len() implies rest[i] != '\r' by {
                            assert(rest[i] == s[i + 1]);
                        }
                    }
                    lemma_flat_round_trip(rest, comment, crlf, line, pos + 1, ls2);
                    lemma_recon_cons(m, ls2, comment);
                    assert(lexeme_text(m, comment) =~= s.take(1));
                    assert(recon(ls, comment) =~= s);
                },
                FlatOutcome::Fatal { .. } => {
                    assert(false);
                },
            }
        } else if is_white(c) {
            let n = prefix_len(s, white_pred()) as int;
            lemma_prefix_len_le(s, white_pred());
            let m = LexemeModel::Whitespace(s.take(n));
            let rest = s.skip(n);
            match flat_lex(rest, comment, crlf, line, pos + n) {
                FlatOutcome::Done(ls2) => {
                    assert(ls == seq![m] + ls2);
                    if crlf {
                        assert forall|i: int| 0 <= i < rest.len() implies rest[i] != '\r' by {
                            assert(rest[i] == s[i + n]);
                        }
                    }
                    lemma_flat_round_trip(rest, comment, crlf, line, pos + n, ls2);
                    lemma_recon_cons(m, ls2, comment);
                    assert(recon(ls, comment) =~= s);
                },
                FlatOutcome::Fatal { .. } => {
                    assert(false);
                },
            }
        } else if is_token_char(c, comment) {
            let n = prefix_len(s, token_pred(comment)) as int;
            lemma_prefix_len_le(s, token_pred(comment));
            let m = LexemeModel::Token(s.take(n));
            let rest = s.skip(n);
            match flat_lex(rest, comment, crlf, line, pos + n) {
                FlatOutcome::Done(ls2) => {
                    assert(ls == seq![m] + ls2);
                    if crlf {
                        assert forall|i: int| 0 <= i < rest.len() implies rest[i] != '\r' by {
                            assert(rest[i] == s[i + n]);
                        }
                    }
                    lemma_flat_round_trip(rest, comment, crlf, line, pos + n, ls2);
                    lemma_recon_cons(m, ls2, comment);
                    assert(recon(ls, comment) =~= s);
                },
                FlatOutcome::Fatal { .. } => {
                    assert(false);
                },
            }
        } else {
            assert(false);
        }
    }
}

/// A maximal whitespace run is emitted as exactly one `Whitespace` lexeme:
/// when the head is whitespace and no earlier branch claims it, the lexer
/// emits one lexeme carrying the whole maximal run and continues right
/// after it.
pub proof fn lemma_flat_whitespace_run(
    s: Seq<char>,
    comment: char,
    crlf: bool,
    line: int,
    pos: int,
)
    requires
        s.len() > 0,
        is_white(s[0]),
        s[0] != comment,
        s[0] != '\n',
        crlf ==> s[0] != '\r',
        s[0] != '[',
        s[0] != '=',
    ensures
        ({
            let n = prefix_len(s, white_pred()) as int;
            &&& 1 <= n <= s.len()
            &&& forall|i: int| 0 <= i < n ==> is_white(s[i])
            &&& n < s.len() ==> !is_white(s[n])
            &&& flat_lex(s, comment, crlf, line, pos) == prepend(
                LexemeModel::Whitespace(s.take(n)),
                flat_lex(s.skip(n), comment, crlf, line, pos + n),
            )
        }),
{
    lemma_prefix_len_holds(s, white_pred());
    assert(white_pred()(s[0]));
}

/// No two adjacent `Whitespace` lexemes are ever emitted (base variant):
/// each maximal whitespace run is one lexeme, never split. In the
/// CRLF-tolerant variant a discarded carriage return may stand between two
/// whitespace runs, so this is stated of the base variant.
pub proof fn lemma_flat_whitespace_separated(
    s: Seq<char>,
    comment: char,
    line: int,
    pos: int,
    ls: Seq<LexemeModel>,
)
    requires
        flat_lex(s, comment, false, line, pos) == FlatOutcome::Done(ls),
    ensures
        forall|i: int|
            0 <= i && i + 1 < ls.len() ==> !((#[trigger] ls[i]) is Whitespace && ls[i + 1] is Whitespace),
        ls.len() > 0 && ls[0] is Whitespace ==> s.len() > 0 && is_white(s[0]),
    decreases s.len(),
{
    let crlf = false;
    if s.len() == 0 {
        assert(ls =~= Seq::<LexemeModel>::empty());
    } else {
        let c = s[0];
        if c == comment {
            let n = prefix_len(s.skip(1), comment_pred(crlf)) as int;
            lemma_prefix_len_le(s.skip(1), comment_pred(crlf));
            let m = LexemeModel::Comment(s.skip(1).take(n));
            let rest = s.skip(1 + n);
            match flat_lex(rest, comment, crlf, line, pos + 1 + n) {
                FlatOutcome::Done(ls2) => {
                    assert(ls == seq![m] + ls2);
                    lemma_flat_whitespace_separated(rest, comment, line, pos + 1 + n, ls2);
                    lemma_step_separated(m, ls2, rest, ls);
                },
                FlatOutcome::Fatal { .. } => {
                    assert(false);
                },
            }
        } else if c == '\n' {
            let m = LexemeModel::EndOfLine;
            let rest = s.skip(1);
            match flat_lex(rest, comment, crlf, line + 1, 1) {
                FlatOutcome::Done(ls2) => {
                    assert(ls == seq![m] + ls2);
                    lemma_flat_whitespace_separated(rest, comment, line + 1, 1, ls2);
                    lemma_step_separated(m, ls2, rest, ls);
                },
                FlatOutcome::Fatal { .. } => {
                    assert(false);
                },
            }
        } else if c == '[' {
            let n = prefix_len(s.skip(1), neq(']')) as int;
            lemma_prefix_len_le(s.skip(1), neq(']'));
            let name = s.skip(1).take(n);
            let consumed = if 1 + n < s.len() {
                2 + n
            } else {
                1 + n
            };
            let rest = s.skip(consumed);
            let a = LexemeModel::Separator('[');
            let b = LexemeModel::Token(name);
            let d = LexemeModel::Separator(']');
            match flat_lex(rest, comment, crlf, line, pos + 2 + n) {
                FlatOutcome::Done(ls2) => {
                    lemma_flat_whitespace_separated(rest, comment, line, pos + 2 + n, ls2);
                    if 1 + n < s.len() {
                        lemma_step_separated(d, ls2, rest, seq![d] + ls2);
                        lemma_step_separated(b, seq![d] + ls2, rest, seq![b] + (seq![d] + ls2));
                        lemma_step_separated(
                            a,
                            seq![b] + (seq![d] + ls2),
                            rest,
                            seq![a] + (seq![b] + (seq![d] + ls2)),
                        );
                        assert(ls == seq![a] + (seq![b] + (seq![d] + ls2)));
                    } else {
                        lemma_step_separated(b, ls2, rest, seq![b] + ls2);
                        lemma_step_separated(a, seq![b] + ls2, rest, seq![a] + (seq![b] + ls2));
                        assert(ls == seq![a] + (seq![b] + ls2));
                    }
                },
                FlatOutcome::Fatal { .. } => {
                    assert(false);
                },
            }
        } else if c == '=' {
            let m = LexemeModel::Separator('=');
            let rest = s.skip(1);
            match flat_lex(rest, comment, crlf, line, pos + 1) {
                FlatOutcome::Done(ls2) => {
                    assert(ls == seq![m] + ls2);
                    lemma_flat_whitespace_separated(rest, comment, line, pos + 1, ls2);
                    lemma_step_separated(m, ls2, rest, ls);
                },
                FlatOutcome::Fatal { .. } => {
                    assert(false);
                },
            }
        } else if is_white(c) {
            let n = prefix_len(s, white_pred()) as int;
            lemma_prefix_len_holds(s, white_pred());
            let m = LexemeModel::Whitespace(s.take(n));
            let rest = s.skip(n);
            match flat_lex(rest, comment, crlf, line, pos + n) {
                FlatOutcome::Done(ls2) => {
                    assert(ls == seq![m] + ls2);
                    lemma_flat_whitespace_separated(rest, comment, line, pos + n, ls2);
                    if rest.len() > 0 {
                        assert(rest[0] == s[n]);
                        assert(!is_white(rest[0]));
                    }
                    assert(ls2.len() > 0 ==> !(ls2[0] is Whitespace));
                    lemma_step_separated(m, ls2, rest, ls);
                },
                FlatOutcome::Fatal { .. } => {
                    assert(false);
                },
            }
        } else if is_token_char(c, comment) {
            let n = prefix_len(s, token_pred(comment)) as int;
            lemma_prefix_len_le(s, token_pred(comment));
            let m = LexemeModel::Token(s.take(n));
            let rest = s.skip(n);
            match flat_lex(rest, comment, crlf, line, pos + n) {
                FlatOutcome::Done(ls2) => {
                    assert(ls == seq![m] + ls2);
                    lemma_flat_whitespace_separated(rest, comment, line, pos + n, ls2);
                    lemma_step_separated(m, ls2, rest, ls);
                },
                FlatOutcome::Fatal { .. } => {
                    assert(false);
                },
            }
        } else {
            assert(false);
        }
    }
}

/// Prepending one lexeme to a sequence already free of adjacent
/// `Whitespace` pairs keeps it free of them, provided the new head and the
/// old head are not both `Whitespace`.
proof fn lemma_step_separated(
    m: LexemeModel,
    ls2: Seq<LexemeModel>,
    rest: Seq<char>,
    ls: Seq<LexemeModel>,
)
    requires
        ls == seq![m] + ls2,
        forall|i: int|
            0 <= i && i + 1 < ls2.len() ==> !((#[trigger] ls2[i]) is Whitespace && ls2[i + 1] is Whitespace),
        m is Whitespace ==> !(ls2.len() > 0 && ls2[0] is Whitespace),
    ensures
        forall|i: int|
            0 <= i && i + 1 < ls.len() ==> !((#[trigger] ls[i]) is Whitespace && ls[i + 1] is Whitespace),
        ls.len() > 0 && ls[0] is Whitespace ==> m is Whitespace,
{
    assert forall|i: int|
        0 <= i && i + 1 < ls.len() implies !((#[trigger] ls[i]) is Whitespace && ls[i + 1]
        is Whitespace) by {
        if i == 0 {
            assert(ls[0] == m);
            assert(ls[1] == ls2[0]);
        } else {
            assert(ls[i] == ls2[i - 1]);
            assert(ls[i + 1] == ls2[i]);
        }
    }
    assert(ls[0] == m);
}

/// A comment lexeme's text never includes a line feed (nor, in the
/// CRLF-tolerant variant, a carriage return); when nothing in the rest of
/// the input would end it, the comment runs exactly to end of input.
pub proof fn lemma_flat_comment_scope(
    s: Seq<char>,
    comment: char,
    crlf: bool,
    line: int,
    pos: int,
)
    requires
        s.len() > 0,
        s[0] == comment,
    ensures
        ({
            let n = prefix_len(s.skip(1), comment_pred(crlf)) as int;
            let text = s.skip(1).take(n);
            &&& flat_lex(s, comment, crlf, line, pos) == prepend(
                LexemeModel::Comment(text),
                flat_lex(s.skip(1 + n), comment, crlf, line, pos + 1 + n),
            )
            &&& forall|i: int|
                0 <= i < text.len() ==> text[i] != '\n' && (crlf ==> text[i] != '\r')
            &&& ((forall|i: int| 1 <= i < s.len() ==> s[i] != '\n' && (crlf ==> s[i] != '\r'))
                ==> text == s.skip(1) && s.skip(1 + n).len() == 0)
        }),
{
    let after = s.skip(1);
    let n = prefix_len(after, comment_pred(crlf)) as int;
    lemma_prefix_len_holds(after, comment_pred(crlf));
    let text = after.take(n);
    assert forall|i: int| 0 <= i < text.len() implies text[i] != '\n' && (crlf ==> text[i]
        != '\r') by {
        assert(text[i] == after[i]);
        assert(comment_pred(crlf)(after[i]));
    }
    if forall|i: int| 1 <= i < s.len() ==> s[i] != '\n' && (crlf ==> s[i] != '\r') {
        assert forall|i: int| 0 <= i < after.len() implies comment_pred(crlf)(after[i]) by {
            assert(after[i] == s[i + 1]);
        }
        lemma_prefix_len_is(after, comment_pred(crlf), after.len() as int);
        assert(text =~= after);
    }
}

/// The fatal-character property: a character that is not alphanumeric, not
/// whitespace, not ASCII punctuation (which covers `[`, `]` and `=`), not
/// the comment introducer, and not a line end, aborts lexing the moment it
/// is reached, citing that character and the current line and column. The
/// ensures of `lex_flat` carries this to the executable lexer.
pub proof fn lemma_flat_fatal_char(s: Seq<char>, comment: char, crlf: bool, line: int, pos: int)
    requires
        s.len() > 0,
        !is_alnum(s[0]),
        !is_white(s[0]),
        !is_ascii_punct(s[0]),
        s[0] != comment,
        s[0] != '\n',
        crlf ==> s[0] != '\r',
    ensures
        flat_lex(s, comment, crlf, line, pos) == (FlatOutcome::Fatal {
            character: s[0],
            line,
            pos,
        }),
{
    assert(is_ascii_punct('['));
    assert(is_ascii_punct('='));
    assert(!is_token_char(s[0], comment));
}

/// The text a comment lexeme may carry: free of a line feed, and in the
/// CRLF-tolerant variant also free of a carriage return.
pub open spec fn comment_text_ok(t: Seq<char>, crlf: bool) -> bool {
    forall|i: int| 0 <= i < t.len() ==> t[i] != '\n' && (crlf ==> t[i] != '\r')
}

/// Prepending one lexeme keeps every comment's text in scope, provided
/// the new head's is.
proof fn lemma_step_comments(m: LexemeModel, ls2: Seq<LexemeModel>, ls: Seq<LexemeModel>, crlf: bool)
    requires
        ls == seq![m] + ls2,
        forall|k: int|
            0 <= k < ls2.len() && (#[trigger] ls2[k]) is Comment ==> comment_text_ok(
                ls2[k]->Comment_0,
                crlf,
            ),
        m is Comment ==> comment_text_ok(m->Comment_0, crlf),
    ensures
        forall|k: int|
            0 <= k < ls.len() && (#[trigger] ls[k]) is Comment ==> comment_text_ok(
                ls[k]->Comment_0,
                crlf,
            ),
{
    assert forall|k: int|
        0 <= k < ls.len() && (#[trigger] ls[k]) is Comment implies comment_text_ok(
        ls[k]->Comment_0,
        crlf,
    ) by {
        if k == 0 {
            assert(ls[0] == m);
        } else {
            assert(ls[k] == ls2[k - 1]);
        }
    }
}

/// Comment scope, lifted to the whole result: every `Comment` lexeme
/// anywhere in an accepted lexeme sequence carries text without a line
/// feed (nor, in the CRLF-tolerant variant, a carriage return).
pub proof fn lemma_flat_all_comments_scoped(
    s: Seq<char>,
    comment: char,
    crlf: bool,
    line: int,
    pos: int,
    ls: Seq<LexemeModel>,
)
    requires
        flat_lex(s, comment, crlf, line, pos) == FlatOutcome::Done(ls),
    ensures
        forall|k: int|
            0 <= k < ls.len() && (#[trigger] ls[k]) is Comment ==> comment_text_ok(
                ls[k]->Comment_0,
                crlf,
            ),
    decreases s.len(),
{
    if s.len() == 0 {
        assert(ls =~= Seq::<LexemeModel>::empty());
    } else {
        let c = s[0];
        if c == comment {
            let n = prefix_len(s.skip(1), comment_pred(crlf)) as int;
            lemma_prefix_len_holds(s.skip(1), comment_pred(crlf));
            let text = s.skip(1).take(n);
            let m = LexemeModel::Comment(text);
            let rest = s.skip(1 + n);
            match flat_lex(rest, comment, crlf, line, pos + 1 + n) {
                FlatOutcome::Done(ls2) => {
                    assert(ls == seq![m] + ls2);
                    lemma_flat_all_comments_scoped(rest, comment, crlf, line, pos + 1 + n, ls2);
                    assert forall|i: int| 0 <= i < text.len() implies text[i] != '\n' && (crlf
                        ==> text[i] != '\r') by {
                        assert(text[i] == s.skip(1)[i]);
                        assert(comment_pred(crlf)(s.skip(1)[i]));
                    }
                    lemma_step_comments(m, ls2, ls, crlf);
                },
                FlatOutcome::Fatal { .. } => {
                    assert(false);
                },
            }
        } else if c == '\n' {
            let m = LexemeModel::EndOfLine;
            let rest = s.skip(1);
            match flat_lex(rest, comment, crlf, line + 1, 1) {
                FlatOutcome::Done(ls2) => {
                    assert(ls == seq![m] + ls2);
                    lemma_flat_all_comments_scoped(rest, comment, crlf, line + 1, 1, ls2);
                    lemma_step_comments(m, ls2, ls, crlf);
                },
                FlatOutcome::Fatal { .. } => {
                    assert(false);
                },
            }
        } else if crlf && c == '\r' {
            lemma_flat_all_comments_scoped(s.skip(1), comment, crlf, line, pos + 1, ls);
        } else if c == '[' {
            let n = prefix_len(s.skip(1), neq(']')) as int;
            lemma_prefix_len_le(s.skip(1), neq(']'));
            let name = s.skip(1).take(n);
            let consumed = if 1 + n < s.len() {
                2 + n
            } else {
                1 + n
            };
            let rest = s.skip(consumed);
            let a = LexemeModel::Separator('[');
            let b = LexemeModel::Token(name);
            let d = LexemeModel::Separator(']');
            match flat_lex(rest, comment, crlf, line, pos + 2 + n) {
                FlatOutcome::Done(ls2) => {
                    lemma_flat_all_comments_scoped(rest, comment, crlf, line, pos + 2 + n, ls2);
                    if 1 + n < s.len() {
                        lemma_step_comments(d, ls2, seq![d] + ls2, crlf);
                        lemma_step_comments(b, seq![d] + ls2, seq![b] + (seq![d] + ls2), crlf);
                        lemma_step_comments(
                            a,
                            seq![b] + (seq![d] + ls2),
                            seq![a] + (seq![b] + (seq![d] + ls2)),
                            crlf,
                        );
                        assert(ls == seq![a] + (seq![b] + (seq![d] + ls2)));
                    } else {
                        lemma_step_comments(b, ls2, seq![b] + ls2, crlf);
                        lemma_step_comments(a, seq![b] + ls2, seq![a] + (seq![b] + ls2), crlf);
                        assert(ls == seq![a] + (seq![b] + ls2));
                    }
                },
                FlatOutcome::Fatal { .. } => {
                    assert(false);
                },
            }
        } else if c == '=' {
            let m = LexemeModel::Separator('=');
            let rest = s.skip(1);
            match flat_lex(rest, comment, crlf, line, pos + 1) {
                FlatOutcome::Done(ls2) => {
                    assert(ls == seq![m] + ls2);
                    lemma_flat_all_comments_scoped(rest, comment, crlf, line, pos + 1, ls2);
                    lemma_step_comments(m, ls2, ls, crlf);
                },
                FlatOutcome::Fatal { .. } => {
                    assert(false);
                },
            }
        } else if is_white(c) {
            let n = prefix_len(s, white_pred()) as int;
            lemma_prefix_len_le(s, white_pred());
            let m = LexemeModel::Whitespace(s.take(n));
            let rest = s.skip(n);
            match flat_lex(rest, comment, crlf, line, pos + n) {
                FlatOutcome::Done(ls2) => {
                    assert(ls == seq![m] + ls2);
                    lemma_flat_all_comments_scoped(rest, comment, crlf, line, pos + n, ls2);
                    lemma_step_comments(m, ls2, ls, crlf);
                },
                FlatOutcome::Fatal { .. } => {
                    assert(false);
                },
            }
        } else if is_token_char(c, comment) {
            let n = prefix_len(s, token_pred(comment)) as int;
            lemma_prefix_len_le(s, token_pred(comment));
            let m = LexemeModel::Token(s.take(n));
            let rest = s.skip(n);
            match flat_lex(rest, comment, crlf, line, pos + n) {
                FlatOutcome::Done(ls2) => {
                    assert(ls == seq![m] + ls2);
                    lemma_flat_all_comments_scoped(rest, comment, crlf, line, pos + n, ls2);
                    lemma_step_comments(m, ls2, ls, crlf);
                },
                FlatOutcome::Fatal { .. } => {
                    assert(false);
                },
            }
        } else {
            assert(false);
        }
    }
}

} // verus!
