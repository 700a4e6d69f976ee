//! A lexer for gossip files.
//!
//! At each position the lexer takes the longest token that matches there;
//! among tokens of the same length it takes the one of highest priority:
//! `begin` (10), `->` (4), the one-character tokens and identifiers (2), text
//! (1). A position where no token matches is a lexing error.
//!
//! Identifiers are runs of ASCII letters, digits, `_` and spaces; text is a run
//! of ASCII letters, digits, spaces and `!@#$%&*.?;`.
use vstd::prelude::*;
use crate::reader::{FileType, GossipFile};
use crate::text::{chars_of, lemma_scan, scan, string_from_chars};

verus! {

#[derive(Debug, Clone, Copy, PartialEq, Eq, Structural)]
pub enum Token {
    LeftSquareBracket,
    RightSquareBracket,
    LeftBrace,
    RightBrace,
    Colon,
    Arrow,
    At,
    NewLine,
    Begin,
    Identifier,
    Text,
}

/// A token and the text it matched.
#[derive(Debug, PartialEq, Eq)]
pub struct EnrichedToken {
    pub token: Token,
    pub slice: String,
}

impl DeepView for EnrichedToken {
    type V = (Token, Seq<char>);

    open spec fn deep_view(&self) -> (Token, Seq<char>) {
        (self.token, self.slice@)
    }
}

/// The tokens of a file, with the file's kind.
#[derive(Debug, PartialEq, Eq)]
pub struct TokenisedFile {
    pub file_type: FileType,
    pub tokens: Vec<EnrichedToken>,
}

pub struct TokenisedFileView {
    pub file_type: FileType,
    pub tokens: Seq<(Token, Seq<char>)>,
}

impl DeepView for TokenisedFile {
    type V = TokenisedFileView;

    open spec fn deep_view(&self) -> TokenisedFileView {
        TokenisedFileView { file_type: self.file_type, tokens: self.tokens.deep_view() }
    }
}

/// A position (counted in characters) where no token matches.
#[derive(Debug, Clone, Copy, PartialEq, Eq, Structural)]
pub struct LexError {
    pub position: usize,
}

pub open spec fn is_ascii_alphanumeric(c: char) -> bool {
    ('a' <= c && c <= 'z') || ('A' <= c && c <= 'Z') || ('0' <= c && c <= '9')
}

pub open spec fn is_identifier_char(c: char) -> bool {
    is_ascii_alphanumeric(c) || c == '_' || c == ' '
}

pub open spec fn is_text_char(c: char) -> bool {
    is_ascii_alphanumeric(c) || c == ' ' || c == '!' || c == '@' || c == '#' || c == '$' || c
        == '%' || c == '&' || c == '*' || c == '.' || c == '?' || c == ';'
}

/// The fixed token that matches at `i`: the token, its length and its priority.
pub open spec fn fixed_token(s: Seq<char>, i: int) -> Option<(Token, int, int)> {
    if !(0 <= i < s.len()) {
        None
    } else if s[i] == '[' {
        Some((Token::LeftSquareBracket, 1, 2))
    } else if s[i] == ']' {
        Some((Token::RightSquareBracket, 1, 2))
    } else if s[i] == '{' {
        Some((Token::LeftBrace, 1, 2))
    } else if s[i] == '}' {
        Some((Token::RightBrace, 1, 2))
    } else if s[i] == ':' {
        Some((Token::Colon, 1, 2))
    } else if s[i] == '@' {
        Some((Token::At, 1, 2))
    } else if s[i] == '\n' {
        Some((Token::NewLine, 1, 2))
    } else if s[i] == '-' && i + 1 < s.len() && s[i + 1] == '>' {
        Some((Token::Arrow, 2, 4))
    } else if i + 5 <= s.len() && s.subrange(i, i + 5) == seq!['b', 'e', 'g', 'i', 'n'] {
        Some((Token::Begin, 5, 10))
    } else {
        None
    }
}

/// The length of the identifier at `i` (0 when none).
pub open spec fn identifier_len(s: Seq<char>, i: int) -> int {
    scan(s, i, |c: char| is_identifier_char(c)) - i
}

/// The length of the text at `i` (0 when none).
pub open spec fn text_len(s: Seq<char>, i: int) -> int {
    scan(s, i, |c: char| is_text_char(c)) - i
}

/// Whether a match of length `l1` and priority `p1` beats one of length `l2`
/// and priority `p2`.
pub open spec fn beats(l1: int, p1: int, l2: int, p2: int) -> bool {
    l1 > l2 || (l1 == l2 && p1 > p2)
}

/// The token that the lexer takes at `i`, and its length.
pub open spec fn token_at(s: Seq<char>, i: int) -> Option<(Token, int)> {
    let a = identifier_len(s, i);
    let b = text_len(s, i);
    let (ft, fl, fp) = match fixed_token(s, i) {
        Some(f) => f,
        None => (Token::Text, 0, 0),
    };
    // The best of the fixed token and an identifier.
    let (t1, l1, p1) = if beats(a, 2, fl, fp) {
        (Token::Identifier, a, 2)
    } else {
        (ft, fl, fp)
    };
    let (t2, l2) = if beats(b, 1, l1, p1) {
        (Token::Text, b)
    } else {
        (t1, l1)
    };
    if l2 == 0 {
        None
    } else {
        Some((t2, l2))
    }
}

proof fn lemma_token_at_len(s: Seq<char>, i: int)
    requires
        0 <= i < s.len(),
    ensures
        token_at(s, i) matches Some((t, n)) ==> 1 <= n && i + n <= s.len(),
{
    lemma_scan(s, i, |c: char| is_identifier_char(c));
    lemma_scan(s, i, |c: char| is_text_char(c));
}

/// The tokens from position `i` to the end, or the first position where no
/// token matches.
pub open spec fn lex_from(s: Seq<char>, i: int) -> Result<Seq<(Token, Seq<char>)>, int>
    decreases s.len() - i,
    when 0 <= i <= s.len()
    via lex_from_decreases
{
    if i == s.len() {
        Ok(Seq::empty())
    } else {
        match token_at(s, i) {
            None => Err(i),
            Some((t, n)) => match lex_from(s, i + n) {
                Ok(rest) => Ok(seq![(t, s.subrange(i, i + n))] + rest),
                Err(k) => Err(k),
            },
        }
    }
}

#[via_fn]
proof fn lex_from_decreases(s: Seq<char>, i: int) {
    if i < s.len() {
        lemma_token_at_len(s, i);
    }
}

/// The tokens of a text, or the first position where no token matches.
pub open spec fn lex(s: Seq<char>) -> Result<Seq<(Token, Seq<char>)>, int> {
    lex_from(s, 0)
}

/// The texts of the tokens, one after the other.
pub open spec fn token_texts(tokens: Seq<(Token, Seq<char>)>) -> Seq<char>
    decreases tokens.len(),
{
    if tokens.len() == 0 {
        Seq::empty()
    } else {
        tokens[0].1 + token_texts(tokens.drop_first())
    }
}

proof fn lemma_lex_from_texts(s: Seq<char>, i: int)
    requires
        0 <= i <= s.len(),
    ensures
        lex_from(s, i) matches Ok(tokens) ==> token_texts(tokens) == s.subrange(i, s.len() as int),
    decreases s.len() - i,
{
    if i == s.len() {
        assert(s.subrange(i, i) =~= Seq::<char>::empty());
    } else {
        lemma_token_at_len(s, i);
        if let Some((t, n)) = token_at(s, i) {
            lemma_lex_from_texts(s, i + n);
            if let Ok(rest) = lex_from(s, i + n) {
                let tokens = seq![(t, s.subrange(i, i + n))] + rest;
                assert(tokens.drop_first() == rest);
                assert(s.subrange(i, s.len() as int) =~= s.subrange(i, i + n) + s.subrange(
                    i + n,
                    s.len() as int,
                ));
            }
        }
    }
}

/// Lexing loses nothing: the texts of the tokens, one after the other, give
/// back the input.
pub proof fn lemma_lex_lossless(s: Seq<char>)
    ensures
        lex(s) matches Ok(tokens) ==> token_texts(tokens) == s,
{
    lemma_lex_from_texts(s, 0);
    assert(s.subrange(0, s.len() as int) == s);
}

/// Whether `c` is an ASCII letter or digit, a space, or one of `!@#$%&*.?;`.
pub open spec fn is_letter_digit_space_or_mark(c: char) -> bool {
    ||| ('a' <= c && c <= 'z')
    ||| ('A' <= c && c <= 'Z')
    ||| ('0' <= c && c <= '9')
    ||| c == ' '
    ||| c == '!'
    ||| c == '@'
    ||| c == '#'
    ||| c == '$'
    ||| c == '%'
    ||| c == '&'
    ||| c == '*'
    ||| c == '.'
    ||| c == '?'
    ||| c == ';'
}

proof fn lemma_lex_from_marks(s: Seq<char>, i: int)
    requires
        0 <= i <= s.len(),
        forall|k: int| 0 <= k < s.len() ==> is_letter_digit_space_or_mark(#[trigger] s[k]),
    ensures
        lex_from(s, i) is Ok,
    decreases s.len() - i,
{
    if i < s.len() {
        lemma_scan(s, i, |c: char| is_identifier_char(c));
        lemma_scan(s, i, |c: char| is_text_char(c));
        assert(is_letter_digit_space_or_mark(s[i]));
        assert(text_len(s, i) >= 1);
        lemma_token_at_len(s, i);
        let (t, n) = token_at(s, i)->Some_0;
        lemma_lex_from_marks(s, i + n);
    }
}

/// A text made only of ASCII letters and digits, spaces and the marks
/// `!@#$%&*.?;` always lexes: every such character can start a token, at
/// worst a text token.
pub proof fn lemma_letters_and_marks_lex(s: Seq<char>)
    requires
        forall|k: int| 0 <= k < s.len() ==> is_letter_digit_space_or_mark(#[trigger] s[k]),
    ensures
        lex(s) is Ok,
{
    lemma_lex_from_marks(s, 0);
}

proof fn lemma_lex_from_text_tokens(s: Seq<char>, i: int)
    requires
        0 <= i <= s.len(),
    ensures
        lex_from(s, i) matches Ok(tokens) ==> forall|j: int, k: int|
            0 <= j < tokens.len() && tokens[j].0 == Token::Text && 0 <= k < tokens[j].1.len()
                ==> is_letter_digit_space_or_mark(#[trigger] tokens[j].1[k]),
    decreases s.len() - i,
{
    if i < s.len() {
        lemma_token_at_len(s, i);
        lemma_scan(s, i, |c: char| is_text_char(c));
        if let Some((t, n)) = token_at(s, i) {
            lemma_lex_from_text_tokens(s, i + n);
            if let Ok(rest) = lex_from(s, i + n) {
                let tokens = seq![(t, s.subrange(i, i + n))] + rest;
                assert forall|j: int, k: int|
                    0 <= j < tokens.len() && tokens[j].0 == Token::Text && 0 <= k
                        < tokens[j].1.len() implies is_letter_digit_space_or_mark(
                    #[trigger] tokens[j].1[k],
                ) by {
                    if j == 0 {
                        assert(n == text_len(s, i));
                        assert(tokens[j].1[k] == s[i + k]);
                        assert(is_text_char(s[i + k]));
                    } else {
                        assert(tokens[j] == rest[j - 1]);
                    }
                }
            }
        }
    }
}

/// Every text token is a run of ASCII letters and digits, spaces and
/// the marks `!@#$%&*.?;`.
pub proof fn lemma_text_tokens_are_letters_and_marks(s: Seq<char>)
    ensures
        lex(s) matches Ok(tokens) ==> forall|j: int, k: int|
            0 <= j < tokens.len() && tokens[j].0 == Token::Text && 0 <= k < tokens[j].1.len()
                ==> is_letter_digit_space_or_mark(#[trigger] tokens[j].1[k]),
{
    lemma_lex_from_text_tokens(s, 0);
}

fn is_ascii_alphanumeric_exec(c: char) -> (b: bool)
    ensures
        b == is_ascii_alphanumeric(c),
{
    ('a' <= c && c <= 'z') || ('A' <= c && c <= 'Z') || ('0' <= c && c <= '9')
}

fn is_identifier_char_exec(c: char) -> (b: bool)
    ensures
        b == is_identifier_char(c),
{
    is_ascii_alphanumeric_exec(c) || c == '_' || c == ' '
}

fn is_text_char_exec(c: char) -> (b: bool)
    ensures
        b == is_text_char(c),
{
    is_ascii_alphanumeric_exec(c) || c == ' ' || c == '!' || c == '@' || c == '#' || c == '$'
        || c == '%' || c == '&' || c == '*' || c == '.' || c == '?' || c == ';'
}

fn identifier_len_at(s: &Vec<char>, i: usize) -> (n: usize)
    requires
        i <= s.len(),
    ensures
        n == identifier_len(s@, i as int),
{
    let mut j = i;
    while j < s.len() && is_identifier_char_exec(s[j])
        invariant
            i <= j <= s.len(),
            scan(s@, j as int, |c: char| is_identifier_char(c)) == scan(
                s@,
                i as int,
                |c: char| is_identifier_char(c),
            ),
        decreases s.len() - j,
    {
        j = j + 1;
    }
    j - i
}

fn text_len_at(s: &Vec<char>, i: usize) -> (n: usize)
    requires
        i <= s.len(),
    ensures
        n == text_len(s@, i as int),
{
    let mut j = i;
    while j < s.len() && is_text_char_exec(s[j])
        invariant
            i <= j <= s.len(),
            scan(s@, j as int, |c: char| is_text_char(c)) == scan(s@, i as int, |c: char| is_text_char(c)),
        decreases s.len() - j,
    {
        j = j + 1;
    }
    j - i
}

fn fixed_token_at(s: &Vec<char>, i: usize) -> (res: Option<(Token, usize, u8)>)
    requires
        i < s.len(),
    ensures
        match fixed_token(s@, i as int) {
            None => res is None,
            Some((t, l, p)) => res matches Some((t2, l2, p2)) && t2 == t && l2 == l && p2 == p,
        },
{
    let c = s[i];
    if c == '[' {
        Some((Token::LeftSquareBracket, 1, 2))
    } else if c == ']' {
        Some((Token::RightSquareBracket, 1, 2))
    } else if c == '{' {
        Some((Token::LeftBrace, 1, 2))
    } else if c == '}' {
        Some((Token::RightBrace, 1, 2))
    } else if c == ':' {
        Some((Token::Colon, 1, 2))
    } else if c == '@' {
        Some((Token::At, 1, 2))
    } else if c == '\n' {
        Some((Token::NewLine, 1, 2))
    } else if c == '-' && s.len() - i > 1 && s[i + 1] == '>' {
        Some((Token::Arrow, 2, 4))
    } else if s.len() - i >= 5 && c == 'b' && s[i + 1] == 'e' && s[i + 2] == 'g' && s[i + 3]
        == 'i' && s[i + 4] == 'n' {
        assert(s@.subrange(i as int, i + 5) =~= seq!['b', 'e', 'g', 'i', 'n']);
        Some((Token::Begin, 5, 10))
    } else {
        proof {
            if i + 5 <= s.len() && s@.subrange(i as int, i + 5) == seq!['b', 'e', 'g', 'i', 'n'] {
                assert(s@.subrange(i as int, i + 5)[1] == s@[i + 1]);
                assert(s@.subrange(i as int, i + 5)[2] == s@[i + 2]);
                assert(s@.subrange(i as int, i + 5)[3] == s@[i + 3]);
                assert(s@.subrange(i as int, i + 5)[4] == s@[i + 4]);
                assert(s@.subrange(i as int, i + 5)[0] == s@[i as int]);
            }
        }
        None
    }
}

fn beats_exec(l1: usize, p1: u8, l2: usize, p2: u8) -> (b: bool)
    ensures
        b == beats(l1 as int, p1 as int, l2 as int, p2 as int),
{
    l1 > l2 || (l1 == l2 && p1 > p2)
}

/// The token at position `i` and its length.
fn token_at_exec(s: &Vec<char>, i: usize) -> (res: Option<(Token, usize)>)
    requires
        i < s.len(),
    ensures
        match token_at(s@, i as int) {
            None => res is None,
            Some((t, n)) => res matches Some((t2, n2)) && t2 == t && n2 == n,
        },
{
    let a = identifier_len_at(s, i);
    let b = text_len_at(s, i);
    let (ft, fl, fp) = match fixed_token_at(s, i) {
        Some(f) => f,
        None => (Token::Text, 0, 0),
    };
    let (t1, l1, p1) = if beats_exec(a, 2, fl, fp) {
        (Token::Identifier, a, 2)
    } else {
        (ft, fl, fp)
    };
    let (t2, l2) = if beats_exec(b, 1, l1, p1) {
        (Token::Text, b)
    } else {
        (t1, l1)
    };
    if l2 == 0 {
        None
    } else {
        Some((t2, l2))
    }
}

/// The tokens of a text, each with the text it matched; or the first position
/// where no token matches.
fn lex_text(contents: &str) -> (res: Result<Vec<EnrichedToken>, LexError>)
    ensures
        match lex(contents@) {
            Ok(tokens) => res matches Ok(v) && v.deep_view() == tokens,
            Err(k) => res matches Err(e) && e.position == k,
        },
{
    let s = chars_of(contents);
    let mut tokens: Vec<EnrichedToken> = Vec::new();
    let mut i: usize = 0;
    assert(tokens.deep_view() =~= Seq::<(Token, Seq<char>)>::empty());
    loop
        invariant
            i <= s.len(),
            s@ == contents@,
            match lex_from(s@, 0) {
                Ok(all) => lex_from(s@, i as int) matches Ok(rest) && all == tokens.deep_view()
                    + rest,
                Err(k) => lex_from(s@, i as int) == Err::<Seq<(Token, Seq<char>)>, int>(k),
            },
        decreases s.len() - i,
    {
        if i == s.len() {
            proof {
                if let Ok(all) = lex_from(s@, 0) {
                    assert(all =~= tokens.deep_view());
                }
            }
            return Ok(tokens);
        }
        proof {
            lemma_token_at_len(s@, i as int);
        }
        match token_at_exec(&s, i) {
            None => {
                return Err(LexError { position: i });
            },
            Some((token, n)) => {
                let slice = string_from_chars(&s, i, i + n);
                let t = EnrichedToken { token, slice };
                let ghost tv = t.deep_view();
                let ghost before = tokens.deep_view();
                tokens.push(t);
                assert(tokens.deep_view() =~= before.push(tv));
                proof {
                    if let Ok(rest) = lex_from(s@, (i + n) as int) {
                        assert(before + (seq![tv] + rest) =~= tokens.deep_view() + rest);
                    }
                }
                i = i + n;
            },
        }
    }
}

/// Checks that a file's contents lex: `Ok` when `get_tokens` accepts them,
/// otherwise the first position where no token matches.
pub fn check_tokens(contents: &str) -> (res: Result<(), LexError>)
    ensures
        match lex(contents@) {
            Ok(_) => res is Ok,
            Err(k) => res matches Err(e) && e.position == k,
        },
{
    match lex_text(contents) {
        Ok(_) => Ok(()),
        Err(e) => Err(e),
    }
}

/// The tokens of a file's contents, each with the text it matched. Every
/// character must belong to a token (`check_tokens` says whether it does).
pub fn get_tokens(contents: String, file_name: String) -> (res: Vec<EnrichedToken>)
    requires
        lex(contents@) is Ok,
    ensures
        res.deep_view() == lex(contents@)->Ok_0,
{
    match lex_text(contents.as_str()) {
        Ok(tokens) => tokens,
        Err(_) => Vec::new(),
    }
}

/// A file with its tokens. Its contents must lex.
pub fn tokenise_file(file: GossipFile) -> (res: TokenisedFile)
    requires
        lex(file.contents@) is Ok,
    ensures
        res.deep_view() == (TokenisedFileView {
            file_type: file.file_type,
            tokens: lex(file.contents@)->Ok_0,
        }),
{
    let file_type = file.file_type;
    TokenisedFile { file_type, tokens: get_tokens(file.contents, file.file_path) }
}

/// The tokens of each file, in order, or the first lexing error.
pub open spec fn tokenised_files(files: Seq<(FileType, Seq<char>)>) -> Result<
    Seq<TokenisedFileView>,
    int,
>
    decreases files.len(),
{
    if files.len() == 0 {
        Ok(Seq::empty())
    } else {
        match tokenised_files(files.drop_last()) {
            Err(k) => Err(k),
            Ok(done) => match lex(files.last().1) {
                Err(k) => Err(k),
                Ok(tokens) => Ok(done.push(TokenisedFileView { file_type: files.last().0, tokens })),
            },
        }
    }
}

pub open spec fn file_inputs(files: Seq<GossipFile>) -> Seq<(FileType, Seq<char>)> {
    files.map_values(|f: GossipFile| (f.file_type, f.contents@))
}

proof fn lemma_tokenised_error_stays(files: Seq<(FileType, Seq<char>)>, n: int)
    requires
        0 <= n <= files.len(),
        tokenised_files(files.take(n)) is Err,
    ensures
        tokenised_files(files) == tokenised_files(files.take(n)),
    decreases files.len() - n,
{
    if n < files.len() {
        assert(files.take(n + 1).drop_last() == files.take(n));
        lemma_tokenised_error_stays(files, n + 1);
    } else {
        assert(files.take(n) == files);
    }
}

/// Checks that every file lexes: `Ok` when `get_tokenised_files` accepts the
/// files, otherwise the first lexing error, in the files' order.
pub fn check_tokenised_files(files: &Vec<GossipFile>) -> (res: Result<(), LexError>)
    ensures
        match tokenised_files(file_inputs(files@)) {
            Ok(_) => res is Ok,
            Err(k) => res matches Err(e) && e.position == k,
        },
{
    let ghost inputs = file_inputs(files@);
    let mut i: usize = 0;
    assert(inputs.take(0) =~= Seq::<(FileType, Seq<char>)>::empty());
    while i < files.len()
        invariant
            i <= files.len(),
            inputs == file_inputs(files@),
            tokenised_files(inputs.take(i as int)) is Ok,
        decreases files.len() - i,
    {
        assert(inputs.take(i + 1).drop_last() == inputs.take(i as int));
        assert(inputs.take(i + 1).last() == (files@[i as int].file_type, files@[i as int].contents@));
        match check_tokens(files[i].contents.as_str()) {
            Err(e) => {
                proof {
                    lemma_tokenised_error_stays(inputs, i + 1);
                }
                return Err(e);
            },
            Ok(()) => {},
        }
        i = i + 1;
    }
    assert(inputs.take(inputs.len() as int) == inputs);
    Ok(())
}

/// The tokens of each file, with its kind, in order. Every file must lex
/// (`check_tokenised_files` says whether each does).
pub fn get_tokenised_files(files: Vec<GossipFile>) -> (res: Vec<TokenisedFile>)
    requires
        tokenised_files(file_inputs(files@)) is Ok,
    ensures
        res.deep_view() == tokenised_files(file_inputs(files@))->Ok_0,
{
    let ghost inputs = file_inputs(files@);
    let ghost orig = files@;
    let mut done: Vec<TokenisedFile> = Vec::new();
    assert(inputs.take(0) =~= Seq::<(FileType, Seq<char>)>::empty());
    assert(done.deep_view() =~= Seq::<TokenisedFileView>::empty());
    for f in it: files.into_iter()
        invariant
            it.seq() == orig,
            inputs == file_inputs(orig),
            tokenised_files(inputs) is Ok,
            tokenised_files(inputs.take(it.index() as int)) == Ok::<Seq<TokenisedFileView>, int>(
                done.deep_view(),
            ),
    {
        let ghost i = it.index();
        assert(inputs.take(i + 1).drop_last() == inputs.take(i as int));
        assert(inputs.take(i + 1).last() == (f.file_type, f.contents@));
        proof {
            if lex(f.contents@) is Err {
                lemma_tokenised_error_stays(inputs, i + 1);
            }
        }
        let t = tokenise_file(f);
        let ghost tv = t.deep_view();
        let ghost before = done.deep_view();
        done.push(t);
        assert(done.deep_view() =~= before.push(tv));
    }
    assert(inputs.take(inputs.len() as int) == inputs);
    done
}

} // verus!
