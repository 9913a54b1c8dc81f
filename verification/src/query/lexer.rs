//! Splits a query into tokens.
use vstd::prelude::*;
use crate::text::{chars_of, chars_eq, is_whitespace, spec_is_whitespace, string_of};

verus! {

#[derive(Clone, Debug, PartialEq)]
pub enum Token {
    Atom(String),
    And,
    Or,
    Not,
    Arrow,
    Relation(RelationToken),
    LeftParen,
    RightParen,
}

#[derive(Clone, Copy, Debug, PartialEq, Eq, Structural)]
pub enum RelationToken {
    Child,
    Descendant,
    Ancestor,
}

/// A token with its text as a sequence of characters.
pub enum TokenView {
    Atom(Seq<char>),
    And,
    Or,
    Not,
    Arrow,
    Relation(RelationToken),
    LeftParen,
    RightParen,
}

impl View for Token {
    type V = TokenView;

    open spec fn view(&self) -> TokenView {
        match self {
            Token::Atom(s) => TokenView::Atom(s@),
            Token::And => TokenView::And,
            Token::Or => TokenView::Or,
            Token::Not => TokenView::Not,
            Token::Arrow => TokenView::Arrow,
            Token::Relation(r) => TokenView::Relation(*r),
            Token::LeftParen => TokenView::LeftParen,
            Token::RightParen => TokenView::RightParen,
        }
    }
}

pub open spec fn tokens_view(tokens: Seq<Token>) -> Seq<TokenView> {
    tokens.map_values(|t: Token| t@)
}

/// The token that a finished word stands for: a keyword or an atom.
pub proof fn lemma_tokens_view_push(s: Seq<Token>, t: Token)
    ensures
        tokens_view(s.push(t)) == tokens_view(s).push(t@),
{
    assert(tokens_view(s.push(t)) =~= tokens_view(s).push(t@));
}

pub open spec fn spec_word_token(word: Seq<char>) -> TokenView {
    if word == seq!['A', 'N', 'D'] {
        TokenView::And
    } else if word == seq!['O', 'R'] {
        TokenView::Or
    } else if word == seq!['N', 'O', 'T'] {
        TokenView::Not
    } else if word == seq!['c', 'h', 'i', 'l', 'd'] {
        TokenView::Relation(RelationToken::Child)
    } else if word == seq!['d', 'e', 's', 'c', 'e', 'n', 'd', 'a', 'n', 't'] {
        TokenView::Relation(RelationToken::Descendant)
    } else if word == seq!['a', 'n', 'c', 'e', 's', 't', 'o', 'r'] || word == seq![
        'i',
        'n',
        's',
        'i',
        'd',
        'e',
    ] {
        TokenView::Relation(RelationToken::Ancestor)
    } else {
        TokenView::Atom(word)
    }
}

/// Ends the current word, if there is one.
pub open spec fn spec_flush(tokens: Seq<TokenView>, word: Seq<char>) -> Seq<TokenView> {
    if word.len() == 0 {
        tokens
    } else {
        tokens.push(spec_word_token(word))
    }
}

/// The state of the tokenizer between two characters.
pub struct LexState {
    pub tokens: Seq<TokenView>,
    pub word: Seq<char>,
    pub quote: Option<char>,
    pub escaped: bool,
}

pub open spec fn lex_initial() -> LexState {
    LexState { tokens: seq![], word: seq![], quote: None, escaped: false }
}

/// The tokens of `chars[i..]`, starting in state `st`, or the error message.
///
/// A backslash is kept and makes the next character literal; inside quotes
/// every character but the closing quote is literal; outside quotes, `->`,
/// `(` and `)` are tokens of their own and whitespace separates words.
pub open spec fn spec_lex(chars: Seq<char>, i: int, st: LexState) -> Result<Seq<TokenView>, Seq<char>>
    decreases chars.len() - i,
{
    if i < 0 || i >= chars.len() {
        if st.quote is Some {
            Err("unterminated quoted value"@)
        } else {
            let tokens = spec_flush(st.tokens, st.word);
            if tokens.len() == 0 {
                Err("the query cannot be empty"@)
            } else {
                Ok(tokens)
            }
        }
    } else {
        let c = chars[i];
        if st.escaped {
            spec_lex(chars, i + 1, LexState { word: st.word.push(c), escaped: false, ..st })
        } else if c == '\\' {
            spec_lex(chars, i + 1, LexState { word: st.word.push(c), escaped: true, ..st })
        } else if st.quote is Some {
            if Some(c) == st.quote {
                spec_lex(chars, i + 1, LexState { quote: None, ..st })
            } else {
                spec_lex(chars, i + 1, LexState { word: st.word.push(c), ..st })
            }
        } else if c == '"' || c == '\'' {
            spec_lex(chars, i + 1, LexState { quote: Some(c), ..st })
        } else if c == '-' && i + 1 < chars.len() && chars[i + 1] == '>' {
            spec_lex(
                chars,
                i + 2,
                LexState {
                    tokens: spec_flush(st.tokens, st.word).push(TokenView::Arrow),
                    word: seq![],
                    ..st
                },
            )
        } else if c == '(' {
            spec_lex(
                chars,
                i + 1,
                LexState {
                    tokens: spec_flush(st.tokens, st.word).push(TokenView::LeftParen),
                    word: seq![],
                    ..st
                },
            )
        } else if c == ')' {
            spec_lex(
                chars,
                i + 1,
                LexState {
                    tokens: spec_flush(st.tokens, st.word).push(TokenView::RightParen),
                    word: seq![],
                    ..st
                },
            )
        } else if spec_is_whitespace(c) {
            spec_lex(
                chars,
                i + 1,
                LexState { tokens: spec_flush(st.tokens, st.word), word: seq![], ..st },
            )
        } else {
            spec_lex(chars, i + 1, LexState { word: st.word.push(c), ..st })
        }
    }
}

pub open spec fn spec_tokenize(query: Seq<char>) -> Result<Seq<TokenView>, Seq<char>> {
    spec_lex(query, 0, lex_initial())
}

/// Splits a query into tokens.
pub fn tokenize(query: &str) -> (r: Result<Vec<Token>, String>)
    ensures
        r matches Ok(tokens) ==> spec_tokenize(query@) == Ok::<Seq<TokenView>, Seq<char>>(
            tokens_view(tokens@),
        ),
        r matches Err(e) ==> spec_tokenize(query@) == Err::<Seq<TokenView>, Seq<char>>(e@),
{
    let chars = chars_of(query);
    let mut tokens: Vec<Token> = Vec::new();
    let mut current: Vec<char> = Vec::new();
    let mut quote: Option<char> = None;
    let mut escaped = false;
    let mut i: usize = 0;
    assert(tokens_view(tokens@) =~= seq![]);
    while i < chars.len()
        invariant
            i <= chars@.len(),
            chars@ == query@,
            spec_tokenize(query@) == spec_lex(
                chars@,
                i as int,
                LexState { tokens: tokens_view(tokens@), word: current@, quote, escaped },
            ),
        decreases chars@.len() - i,
    {
        let c = chars[i];
        if escaped {
            current.push(c);
            escaped = false;
            i = i + 1;
        } else if c == '\\' {
            current.push(c);
            escaped = true;
            i = i + 1;
        } else if quote.is_some() {
            if Some(c) == quote {
                quote = None;
            } else {
                current.push(c);
            }
            i = i + 1;
        } else if c == '"' || c == '\'' {
            quote = Some(c);
            i = i + 1;
        } else if c == '-' && i + 1 < chars.len() && chars[i + 1] == '>' {
            push_current(&mut current, &mut tokens);
            proof {
                lemma_tokens_view_push(tokens@, Token::Arrow);
            }
            tokens.push(Token::Arrow);
            i = i + 2;
        } else if c == '(' {
            push_current(&mut current, &mut tokens);
            proof {
                lemma_tokens_view_push(tokens@, Token::LeftParen);
            }
            tokens.push(Token::LeftParen);
            i = i + 1;
        } else if c == ')' {
            push_current(&mut current, &mut tokens);
            proof {
                lemma_tokens_view_push(tokens@, Token::RightParen);
            }
            tokens.push(Token::RightParen);
            i = i + 1;
        } else if is_whitespace(c) {
            push_current(&mut current, &mut tokens);
            i = i + 1;
        } else {
            current.push(c);
            i = i + 1;
        }
    }
    if quote.is_some() {
        return Err("unterminated quoted value".to_owned());
    }
    push_current(&mut current, &mut tokens);
    if tokens.len() == 0 {
        Err("the query cannot be empty".to_owned())
    } else {
        Ok(tokens)
    }
}

/// Ends the current word: a keyword becomes its token, anything else an atom.
fn push_current(current: &mut Vec<char>, tokens: &mut Vec<Token>)
    ensures
        final(current)@ == Seq::<char>::empty(),
        tokens_view(final(tokens)@) == spec_flush(tokens_view(old(tokens)@), old(current)@),
{
    if current.len() == 0 {
        return;
    }
    let token = if chars_eq(current, &['A', 'N', 'D']) {
        Token::And
    } else if chars_eq(current, &['O', 'R']) {
        Token::Or
    } else if chars_eq(current, &['N', 'O', 'T']) {
        Token::Not
    } else if chars_eq(current, &['c', 'h', 'i', 'l', 'd']) {
        Token::Relation(RelationToken::Child)
    } else if chars_eq(current, &['d', 'e', 's', 'c', 'e', 'n', 'd', 'a', 'n', 't']) {
        Token::Relation(RelationToken::Descendant)
    } else if chars_eq(current, &['a', 'n', 'c', 'e', 's', 't', 'o', 'r']) || chars_eq(
        current,
        &['i', 'n', 's', 'i', 'd', 'e'],
    ) {
        Token::Relation(RelationToken::Ancestor)
    } else {
        Token::Atom(string_of(current))
    };
    proof {
        assert(token@ == spec_word_token(current@));
    }
    proof {
        lemma_tokens_view_push(tokens@, token);
    }
    tokens.push(token);
    *current = Vec::new();
}


/// The quote left open after scanning `chars[i..]` from quote state `quote`
/// and escape state `escaped`: a backslash makes the next character literal,
/// and outside a quote `'` or `"` opens one that only the same character
/// closes.
pub open spec fn open_quote(chars: Seq<char>, i: int, quote: Option<char>, escaped: bool) -> Option<char>
    decreases chars.len() - i,
{
    if i < 0 || i >= chars.len() {
        quote
    } else {
        let c = chars[i];
        if escaped {
            open_quote(chars, i + 1, quote, false)
        } else if c == '\\' {
            open_quote(chars, i + 1, quote, true)
        } else if quote is Some {
            open_quote(chars, i + 1, if Some(c) == quote { None } else { quote }, false)
        } else if c == '"' || c == '\'' {
            open_quote(chars, i + 1, Some(c), false)
        } else {
            open_quote(chars, i + 1, quote, false)
        }
    }
}

proof fn lemma_lex_unterminated(chars: Seq<char>, i: int, st: LexState)
    requires
        0 <= i,
    ensures
        (spec_lex(chars, i, st) == Err::<Seq<TokenView>, Seq<char>>("unterminated quoted value"@)) <==> open_quote(
            chars,
            i,
            st.quote,
            st.escaped,
        ) is Some,
    decreases chars.len() - i,
{
    reveal_strlit("unterminated quoted value");
    reveal_strlit("the query cannot be empty");
    assert("unterminated quoted value"@[0] != "the query cannot be empty"@[0]);
    if i < chars.len() {
        let c = chars[i];
        if !st.escaped && c != '\\' && st.quote is None && !(c == '"' || c == '\'') && c == '-' && i + 1
            < chars.len() && chars[i + 1] == '>' {
            let next = LexState {
                tokens: spec_flush(st.tokens, st.word).push(TokenView::Arrow),
                word: seq![],
                ..st
            };
            lemma_lex_unterminated(chars, i + 2, next);
            assert(open_quote(chars, i + 1, None, false) == open_quote(chars, i + 2, None, false));
        } else if st.escaped {
            lemma_lex_unterminated(chars, i + 1, LexState { word: st.word.push(c), escaped: false, ..st });
        } else if c == '\\' {
            lemma_lex_unterminated(chars, i + 1, LexState { word: st.word.push(c), escaped: true, ..st });
        } else if st.quote is Some {
            if Some(c) == st.quote {
                lemma_lex_unterminated(chars, i + 1, LexState { quote: None, ..st });
            } else {
                lemma_lex_unterminated(chars, i + 1, LexState { word: st.word.push(c), ..st });
            }
        } else if c == '"' || c == '\'' {
            lemma_lex_unterminated(chars, i + 1, LexState { quote: Some(c), ..st });
        } else if c == '(' {
            lemma_lex_unterminated(
                chars,
                i + 1,
                LexState { tokens: spec_flush(st.tokens, st.word).push(TokenView::LeftParen), word: seq![], ..st },
            );
        } else if c == ')' {
            lemma_lex_unterminated(
                chars,
                i + 1,
                LexState { tokens: spec_flush(st.tokens, st.word).push(TokenView::RightParen), word: seq![], ..st },
            );
        } else if spec_is_whitespace(c) {
            lemma_lex_unterminated(
                chars,
                i + 1,
                LexState { tokens: spec_flush(st.tokens, st.word), word: seq![], ..st },
            );
        } else {
            lemma_lex_unterminated(chars, i + 1, LexState { word: st.word.push(c), ..st });
        }
    }
}

/// Tokenizing fails with `unterminated quoted value` exactly where the
/// scan of the query ends inside an open quote.
pub proof fn unterminated_exactly_when_quote_left_open(query: Seq<char>)
    ensures
        (spec_tokenize(query) == Err::<Seq<TokenView>, Seq<char>>("unterminated quoted value"@)) <==> open_quote(
            query,
            0,
            None,
            false,
        ) is Some,
{
    lemma_lex_unterminated(query, 0, lex_initial());
}

/// The keywords, which never stand as atoms.
pub open spec fn is_keyword(word: Seq<char>) -> bool {
    word == seq!['A', 'N', 'D'] || word == seq!['O', 'R'] || word == seq!['N', 'O', 'T'] || word == seq![
        'c',
        'h',
        'i',
        'l',
        'd',
    ] || word == seq!['d', 'e', 's', 'c', 'e', 'n', 'd', 'a', 'n', 't'] || word == seq![
        'a',
        'n',
        'c',
        'e',
        's',
        't',
        'o',
        'r',
    ] || word == seq!['i', 'n', 's', 'i', 'd', 'e']
}

/// Every atom among `tokens` is a non-empty word that is no keyword.
pub open spec fn atoms_are_words(tokens: Seq<TokenView>) -> bool {
    forall|k: int|
        0 <= k < tokens.len() ==> (#[trigger] tokens[k] matches TokenView::Atom(w) ==> w.len() > 0 && !is_keyword(w))
}

proof fn lemma_flush_words(tokens: Seq<TokenView>, word: Seq<char>)
    requires
        atoms_are_words(tokens),
    ensures
        atoms_are_words(spec_flush(tokens, word)),
        forall|t: TokenView| !(t is Atom) ==> atoms_are_words(#[trigger] spec_flush(tokens, word).push(t)),
{
    let f = spec_flush(tokens, word);
    if word.len() > 0 {
        assert forall|k: int| 0 <= k < f.len() implies (#[trigger] f[k] matches TokenView::Atom(w) ==> w.len() > 0
            && !is_keyword(w)) by {
            if k < tokens.len() {
                assert(f[k] == tokens[k]);
            }
        }
    }
    assert forall|t: TokenView| !(t is Atom) implies atoms_are_words(#[trigger] f.push(t)) by {
        assert forall|k: int| 0 <= k < f.push(t).len() implies (#[trigger] f.push(t)[k] matches TokenView::Atom(w)
            ==> w.len() > 0 && !is_keyword(w)) by {
            if k < f.len() {
                assert(f.push(t)[k] == f[k]);
            }
        }
    }
}

proof fn lemma_lex_words(chars: Seq<char>, i: int, st: LexState)
    requires
        0 <= i,
        atoms_are_words(st.tokens),
    ensures
        spec_lex(chars, i, st) matches Ok(ts) ==> ts.len() > 0 && atoms_are_words(ts),
    decreases chars.len() - i,
{
    lemma_flush_words(st.tokens, st.word);
    if i < chars.len() {
        let c = chars[i];
        if st.escaped {
            lemma_lex_words(chars, i + 1, LexState { word: st.word.push(c), escaped: false, ..st });
        } else if c == '\\' {
            lemma_lex_words(chars, i + 1, LexState { word: st.word.push(c), escaped: true, ..st });
        } else if st.quote is Some {
            if Some(c) == st.quote {
                lemma_lex_words(chars, i + 1, LexState { quote: None, ..st });
            } else {
                lemma_lex_words(chars, i + 1, LexState { word: st.word.push(c), ..st });
            }
        } else if c == '"' || c == '\'' {
            lemma_lex_words(chars, i + 1, LexState { quote: Some(c), ..st });
        } else if c == '-' && i + 1 < chars.len() && chars[i + 1] == '>' {
            lemma_lex_words(
                chars,
                i + 2,
                LexState { tokens: spec_flush(st.tokens, st.word).push(TokenView::Arrow), word: seq![], ..st },
            );
        } else if c == '(' {
            lemma_lex_words(
                chars,
                i + 1,
                LexState { tokens: spec_flush(st.tokens, st.word).push(TokenView::LeftParen), word: seq![], ..st },
            );
        } else if c == ')' {
            lemma_lex_words(
                chars,
                i + 1,
                LexState { tokens: spec_flush(st.tokens, st.word).push(TokenView::RightParen), word: seq![], ..st },
            );
        } else if spec_is_whitespace(c) {
            lemma_lex_words(chars, i + 1, LexState { tokens: spec_flush(st.tokens, st.word), word: seq![], ..st });
        } else {
            lemma_lex_words(chars, i + 1, LexState { word: st.word.push(c), ..st });
        }
    }
}

/// A query that tokenizes gives at least one token, and its atoms are
/// never empty and never keywords: those words always become operators.
pub proof fn atoms_are_never_empty_or_keywords(query: Seq<char>)
    ensures
        spec_tokenize(query) matches Ok(ts) ==> ts.len() > 0 && atoms_are_words(ts),
{
    lemma_lex_words(query, 0, lex_initial());
}

/// A character that is part of a word wherever it stands: no whitespace,
/// quote, backslash, parenthesis or `-`.
pub open spec fn plain_char(c: char) -> bool {
    !spec_is_whitespace(c) && c != '"' && c != '\'' && c != '\\' && c != '(' && c != ')' && c != '-'
}

/// A word made of plain characters only.
pub open spec fn plain_word(w: Seq<char>) -> bool {
    forall|k: int| 0 <= k < w.len() ==> plain_char(#[trigger] w[k])
}

proof fn lemma_lex_word(chars: Seq<char>, i: int, st: LexState, n: int)
    requires
        0 <= i,
        0 <= n,
        i + n <= chars.len(),
        forall|k: int| i <= k < i + n ==> plain_char(#[trigger] chars[k]),
        st.quote is None,
        !st.escaped,
    ensures
        spec_lex(chars, i, st) == spec_lex(
            chars,
            i + n,
            LexState { word: st.word + chars.subrange(i, i + n), ..st },
        ),
    decreases n,
{
    if n == 0 {
        assert(st.word + chars.subrange(i, i) =~= st.word);
        assert(LexState { word: st.word + chars.subrange(i, i + n), ..st } == st);
    } else {
        let c = chars[i];
        assert(plain_char(c));
        let next = LexState { word: st.word.push(c), ..st };
        lemma_lex_word(chars, i + 1, next, n - 1);
        assert(next.word + chars.subrange(i + 1, i + n) =~= st.word + chars.subrange(i, i + n));
    }
}

/// The text `a -> b` tokenizes as the atom `a`, the arrow and the atom `b`,
/// and `a AND descendant b` as the atom `a`, `AND`, the descendant relation
/// and the atom `b`, where `a` and `b` are plain words and no keywords.
pub proof fn arrow_and_descendant_texts_tokenize(a: Seq<char>, b: Seq<char>)
    requires
        a.len() > 0,
        b.len() > 0,
        plain_word(a),
        plain_word(b),
        !is_keyword(a),
        !is_keyword(b),
    ensures
        spec_tokenize(a + seq![' ', '-', '>', ' '] + b) == Ok::<Seq<TokenView>, Seq<char>>(
            seq![TokenView::Atom(a), TokenView::Arrow, TokenView::Atom(b)],
        ),
        spec_tokenize(
            a + seq![' ', 'A', 'N', 'D', ' ', 'd', 'e', 's', 'c', 'e', 'n', 'd', 'a', 'n', 't', ' '] + b,
        ) == Ok::<Seq<TokenView>, Seq<char>>(
            seq![
                TokenView::Atom(a),
                TokenView::And,
                TokenView::Relation(RelationToken::Descendant),
                TokenView::Atom(b),
            ],
        ),
{
    let la = a.len() as int;
    let lb = b.len() as int;
    assert(spec_is_whitespace(' '));
    let init = lex_initial();
    // a -> b
    let q = a + seq![' ', '-', '>', ' '] + b;
    assert(q.subrange(0, la) =~= a);
    assert(q.subrange(la + 4, la + 4 + lb) =~= b);
    assert forall|k: int| 0 <= k < la implies plain_char(#[trigger] q[k]) by {
        assert(q[k] == a[k]);
    }
    assert forall|k: int| la + 4 <= k < la + 4 + lb implies plain_char(#[trigger] q[k]) by {
        assert(q[k] == b[k - la - 4]);
    }
    lemma_lex_word(q, 0, init, la);
    let s1 = LexState { word: init.word + q.subrange(0, la), ..init };
    assert(init.word + q.subrange(0, la) =~= a);
    assert(q[la] == ' ' && q[la + 1] == '-' && q[la + 2] == '>' && q[la + 3] == ' ');
    assert(spec_word_token(a) == TokenView::Atom(a));
    let s2 = LexState { tokens: spec_flush(s1.tokens, s1.word), word: seq![], ..s1 };
    assert(spec_lex(q, la, s1) == spec_lex(q, la + 1, s2));
    let s3 = LexState { tokens: spec_flush(s2.tokens, s2.word).push(TokenView::Arrow), word: seq![], ..s2 };
    assert(spec_lex(q, la + 1, s2) == spec_lex(q, la + 3, s3));
    let s4 = LexState { tokens: spec_flush(s3.tokens, s3.word), word: seq![], ..s3 };
    assert(spec_lex(q, la + 3, s3) == spec_lex(q, la + 4, s4));
    lemma_lex_word(q, la + 4, s4, lb);
    assert(s4.word + q.subrange(la + 4, la + 4 + lb) =~= b);
    assert(spec_word_token(b) == TokenView::Atom(b));
    assert(s4.tokens =~= seq![TokenView::Atom(a), TokenView::Arrow]);
    assert(spec_flush(s4.tokens, b) =~= seq![TokenView::Atom(a), TokenView::Arrow, TokenView::Atom(b)]);
    // a AND descendant b
    let mid = seq![' ', 'A', 'N', 'D', ' ', 'd', 'e', 's', 'c', 'e', 'n', 'd', 'a', 'n', 't', ' '];
    let r = a + mid + b;
    let and_word = seq!['A', 'N', 'D'];
    let desc_word = seq!['d', 'e', 's', 'c', 'e', 'n', 'd', 'a', 'n', 't'];
    assert forall|k: int| 0 <= k < la implies plain_char(#[trigger] r[k]) by {
        assert(r[k] == a[k]);
    }
    assert forall|k: int| la + 1 <= k < la + 4 implies plain_char(#[trigger] r[k]) by {
        assert(r[k] == mid[k - la]);
    }
    assert forall|k: int| la + 5 <= k < la + 15 implies plain_char(#[trigger] r[k]) by {
        assert(r[k] == mid[k - la]);
    }
    assert forall|k: int| la + 16 <= k < la + 16 + lb implies plain_char(#[trigger] r[k]) by {
        assert(r[k] == b[k - la - 16]);
    }
    assert(r[la] == ' ' && r[la + 4] == ' ' && r[la + 15] == ' ');
    lemma_lex_word(r, 0, init, la);
    let t1 = LexState { word: init.word + r.subrange(0, la), ..init };
    assert(init.word + r.subrange(0, la) =~= a);
    let t2 = LexState { tokens: spec_flush(t1.tokens, t1.word), word: seq![], ..t1 };
    assert(spec_lex(r, la, t1) == spec_lex(r, la + 1, t2));
    lemma_lex_word(r, la + 1, t2, 3);
    let t3 = LexState { word: t2.word + r.subrange(la + 1, la + 4), ..t2 };
    assert(t2.word + r.subrange(la + 1, la + 4) =~= and_word);
    let t4 = LexState { tokens: spec_flush(t3.tokens, t3.word), word: seq![], ..t3 };
    assert(spec_lex(r, la + 4, t3) == spec_lex(r, la + 5, t4));
    lemma_lex_word(r, la + 5, t4, 10);
    let t5 = LexState { word: t4.word + r.subrange(la + 5, la + 15), ..t4 };
    assert(t4.word + r.subrange(la + 5, la + 15) =~= desc_word);
    let t6 = LexState { tokens: spec_flush(t5.tokens, t5.word), word: seq![], ..t5 };
    assert(spec_lex(r, la + 15, t5) == spec_lex(r, la + 16, t6));
    lemma_lex_word(r, la + 16, t6, lb);
    assert(t6.word + r.subrange(la + 16, la + 16 + lb) =~= b);
    assert(spec_word_token(and_word) == TokenView::And);
    assert(spec_word_token(desc_word) == TokenView::Relation(RelationToken::Descendant));
    assert(t6.tokens =~= seq![TokenView::Atom(a), TokenView::And, TokenView::Relation(RelationToken::Descendant)]);
    assert(spec_flush(t6.tokens, b) =~= seq![
        TokenView::Atom(a),
        TokenView::And,
        TokenView::Relation(RelationToken::Descendant),
        TokenView::Atom(b),
    ]);
}

} // verus!
