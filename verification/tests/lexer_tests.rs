use gossip::lexer::{
    check_tokenised_files, check_tokens, get_tokenised_files, get_tokens, tokenise_file, EnrichedToken,
    LexError, Token,
};
use gossip::reader::{FileType, GossipFile};

fn tok(token: Token, slice: &str) -> EnrichedToken {
    EnrichedToken { token, slice: slice.to_string() }
}

#[test]
fn lexes_header_and_speech() {
    let tokens = get_tokens("[intro]\nAlice: Hello there!".to_string(), "f".to_string());
    assert_eq!(
        tokens,
        vec![
            tok(Token::LeftSquareBracket, "["),
            tok(Token::Identifier, "intro"),
            tok(Token::RightSquareBracket, "]"),
            tok(Token::NewLine, "\n"),
            tok(Token::Identifier, "Alice"),
            tok(Token::Colon, ":"),
            tok(Token::Text, " Hello there!"),
        ]
    );
}

#[test]
fn begin_keyword_and_longer_matches() {
    let t = |x: &str| get_tokens(x.to_string(), String::new());
    assert_eq!(t("begin"), vec![tok(Token::Begin, "begin")]);
    assert_eq!(t("beginning"), vec![tok(Token::Identifier, "beginning")]);
    assert_eq!(t("begin!"), vec![tok(Token::Text, "begin!")]);
    assert_eq!(t("begin{"), vec![tok(Token::Begin, "begin"), tok(Token::LeftBrace, "{")]);
}

#[test]
fn at_arrow_and_braces() {
    let t = |x: &str| get_tokens(x.to_string(), String::new());
    assert_eq!(t("@"), vec![tok(Token::At, "@")]);
    assert_eq!(t("@x"), vec![tok(Token::Text, "@x")]);
    assert_eq!(
        t("a->b}"),
        vec![tok(Token::Identifier, "a"), tok(Token::Arrow, "->"), tok(Token::Identifier, "b"), tok(Token::RightBrace, "}")]
    );
    assert_eq!(t("x_y z"), vec![tok(Token::Identifier, "x_y z")]);
}

#[test]
fn lexing_errors_give_position() {
    assert_eq!(check_tokens("-"), Err(LexError { position: 0 }));
    assert_eq!(check_tokens("ab\tc"), Err(LexError { position: 2 }));
    assert_eq!(check_tokens("a,b"), Err(LexError { position: 1 }));
    assert_eq!(check_tokens(""), Ok(()));
    assert_eq!(get_tokens("".to_string(), String::new()), vec![]);
}

#[test]
fn lexing_is_lossless() {
    let input = "[a]\n{begin} x -> y @z: Hi! ok_1\n";
    let tokens = get_tokens(input.to_string(), String::new());
    let joined: String = tokens.iter().map(|t| t.slice.as_str()).collect();
    assert_eq!(joined, input);
}

#[test]
fn tokenises_each_file() {
    let files = vec![
        GossipFile { file_path: "a".to_string(), file_type: FileType::Characters, contents: "Alice\n".to_string() },
        GossipFile { file_path: "b".to_string(), file_type: FileType::Dialogue, contents: "[x]".to_string() },
    ];
    assert_eq!(check_tokenised_files(&files), Ok(()));
    let tf = get_tokenised_files(files);
    assert_eq!(tf.len(), 2);
    assert_eq!(tf[0].file_type, FileType::Characters);
    assert_eq!(tf[0].tokens, vec![tok(Token::Identifier, "Alice"), tok(Token::NewLine, "\n")]);
    assert_eq!(tf[1].file_type, FileType::Dialogue);
    assert_eq!(tf[1].tokens.len(), 3);
}

#[test]
fn tokenised_files_stop_at_first_error() {
    let files = vec![
        GossipFile { file_path: "a".to_string(), file_type: FileType::Characters, contents: "ok".to_string() },
        GossipFile { file_path: "b".to_string(), file_type: FileType::Dialogue, contents: "x-y".to_string() },
    ];
    assert_eq!(check_tokenised_files(&files), Err(LexError { position: 1 }));
    let mut files = files;
    files.pop();
    let tf = tokenise_file(files.pop().unwrap());
    assert_eq!(tf.tokens, vec![tok(Token::Identifier, "ok")]);
}
