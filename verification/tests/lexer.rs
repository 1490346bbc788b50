use bed::token::tokenize;
use bed::token::TokenKind;

fn concat_texts(input: &str) -> String {
    let toks = tokenize(input);
    let mut out = String::new();
    for t in &toks {
        out.push_str(&t.text);
    }
    out
}

#[test]
fn tokenize_keyword_precedence() {
    let toks = tokenize("\"hello\" + 42 LET");
    let kinds: Vec<TokenKind> = toks.iter().map(|t| t.kind).collect();
    assert_eq!(
        kinds,
        vec![
            TokenKind::Str,
            TokenKind::Space,
            TokenKind::Operator,
            TokenKind::Space,
            TokenKind::Number,
            TokenKind::Space,
            TokenKind::Keyword,
        ]
    );
    assert_eq!(toks[0].text, "\"hello\"");
    assert_eq!(toks[2].text, "+");
    assert_eq!(toks[4].text, "42");
    assert_eq!(toks[6].text, "LET");
}

#[test]
fn tokenize_covers_plain_program_line() {
    let input = "10 LET X = 1";
    assert_eq!(concat_texts(input), input);
}

#[test]
fn tokenize_covers_unrecognized_characters() {
    let input = "x = @#7\t\"open";
    assert_eq!(concat_texts(input), input);
    let toks = tokenize(input);
    assert!(toks.iter().any(|t| t.kind == TokenKind::Unrecognized));
}

#[test]
fn tokenize_empty_input() {
    assert_eq!(tokenize("").len(), 0);
}

#[test]
fn tokenize_ident_shadows_nothing() {
    let toks = tokenize("FORTY LETX");
    assert_eq!(toks[0].kind, TokenKind::Ident);
    assert_eq!(toks[0].text, "FORTY");
    assert_eq!(toks[2].kind, TokenKind::Ident);
    assert_eq!(toks[2].text, "LETX");
}

#[test]
fn tokenize_every_keyword() {
    let keywords = [
        "LET", "PRINT", "END", "FOR", "NEXT", "GOTO", "GOSUB", "RETURN", "IF", "THEN", "DEF",
        "READ", "DATA", "DIM", "REM",
    ];
    for kw in keywords {
        let toks = tokenize(kw);
        assert_eq!(toks.len(), 1);
        assert_eq!(toks[0].kind, TokenKind::Keyword);
        assert_eq!(toks[0].text, *kw);
    }
}

#[test]
fn tokenize_number_then_letters() {
    let toks = tokenize("42abc");
    assert_eq!(toks.len(), 2);
    assert_eq!(toks[0].kind, TokenKind::Number);
    assert_eq!(toks[0].text, "42");
    assert_eq!(toks[1].kind, TokenKind::Ident);
    assert_eq!(toks[1].text, "abc");
}

#[test]
fn tokenize_unterminated_quote_advances_one() {
    let toks = tokenize("\"abc");
    assert_eq!(toks.len(), 2);
    assert_eq!(toks[0].kind, TokenKind::Unrecognized);
    assert_eq!(toks[0].text, "\"");
    assert_eq!(toks[1].kind, TokenKind::Ident);
    assert_eq!(toks[1].text, "abc");
}

#[test]
fn tokenize_empty_string_literal() {
    let toks = tokenize("\"\"");
    assert_eq!(toks.len(), 1);
    assert_eq!(toks[0].kind, TokenKind::Str);
    assert_eq!(toks[0].text, "\"\"");
}

#[test]
fn tokenize_whitespace_classes() {
    let toks = tokenize("a \t\nb");
    let kinds: Vec<TokenKind> = toks.iter().map(|t| t.kind).collect();
    assert_eq!(
        kinds,
        vec![
            TokenKind::Ident,
            TokenKind::Space,
            TokenKind::Tab,
            TokenKind::Newline,
            TokenKind::Ident,
        ]
    );
}

#[test]
fn tokenize_operators_one_by_one() {
    let toks = tokenize("+-*/^");
    assert_eq!(toks.len(), 5);
    for (t, expect) in toks.iter().zip(["+", "-", "*", "/", "^"]) {
        assert_eq!(t.kind, TokenKind::Operator);
        assert_eq!(t.text, expect);
    }
}
