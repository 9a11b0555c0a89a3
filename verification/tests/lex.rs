use ninja_front::intern::Table;
use ninja_front::lex::{DeclKind, LexError, Lexer, Token, TokenKind};

fn lex_all<'a>(lexer: &mut Lexer<'a>) -> Result<Vec<Token<TokenKind>>, LexError> {
    let mut tokens = vec![];
    while let Some(token) = lexer.lex()? {
        tokens.push(token)
    }
    Ok(tokens)
}

fn assert_token(t: &Token<TokenKind>, kind: TokenKind, range: (usize, usize), line: usize) {
    assert_eq!(t.kind(), kind);
    assert_eq!(t.location().range(), range);
    assert_eq!(t.location().line(), line);
}

#[test]
fn construction() {
    let _lexer = Lexer::new(b"");
}

#[test]
fn lex_empty() {
    let mut lexer = Lexer::new(b"");
    let tokens = lex_all(&mut lexer).expect("failed to lex empty string");
    assert!(tokens.is_empty());
}

#[test]
fn bare_dollar_sign() {
    let mut lexer = Lexer::new(b"$");
    match lexer.lex() {
        Err(LexError::UnknownToken) => (),
        _ => panic!("incorrectly lexed a bare dollar sign"),
    }
}

#[test]
fn cr_without_newline() {
    let mut lexer = Lexer::new(b"\r");
    match lex_all(&mut lexer) {
        Err(LexError::UnknownToken) => (),
        _ => panic!("incorrectly lexed a carriage return"),
    }
}

#[test]
fn unknown_characters() {
    for unknown in [
        b"~", b"`", b"!", b"@", b"%", b"^", b"&", b"*", b"(", b")", b"[", b"]", b"{", b"}", b"'",
        b"\"", b",", b"<", b">", b"/", b"?", b"+", b"\\", b";",
    ]
    .iter()
    {
        let mut lexer = Lexer::new(*unknown);
        match lexer.lex() {
            Err(LexError::UnknownToken) => (),
            _ => panic!("incorrectly lexed an invalid character"),
        }
    }
}

#[test]
fn one_line() {
    let mut lexer = Lexer::new(b"builddir = b\n");
    let tokens = lex_all(&mut lexer).expect("failed to lex");
    assert_eq!(tokens.len(), 4);
    assert_token(&tokens[0], TokenKind::Identifier, (0, 8), 1);
    assert_token(&tokens[1], TokenKind::Equal, (9, 10), 1);
    assert_token(&tokens[2], TokenKind::Identifier, (11, 12), 1);
    assert_token(&tokens[3], TokenKind::Newline, (12, 13), 1);
}

#[test]
fn escaped_newline() {
    let mut lexer = Lexer::new(b"builddir = $\n    b\n");
    let tokens = lex_all(&mut lexer).expect("failed to lex");
    assert_eq!(tokens.len(), 4);
    assert_token(&tokens[0], TokenKind::Identifier, (0, 8), 1);
    assert_token(&tokens[1], TokenKind::Equal, (9, 10), 1);
    assert_token(&tokens[2], TokenKind::Identifier, (17, 18), 1);
    assert_token(&tokens[3], TokenKind::Newline, (18, 19), 1);
}

#[test]
fn escaped_cr_newline() {
    let mut lexer = Lexer::new(b"builddir = $\r\nb\n");
    let tokens = lex_all(&mut lexer).expect("failed to lex");
    assert_eq!(tokens.len(), 4);
    assert_token(&tokens[0], TokenKind::Identifier, (0, 8), 1);
    assert_token(&tokens[1], TokenKind::Equal, (9, 10), 1);
    assert_token(&tokens[2], TokenKind::Identifier, (14, 15), 1);
    assert_token(&tokens[3], TokenKind::Newline, (15, 16), 1);
}

#[test]
fn multiple_lines() {
    let mut lexer = Lexer::new(b"a\na\na\na\n");
    let tokens = lex_all(&mut lexer).expect("failed to lex");
    assert_eq!(tokens.len(), 8);
    assert_token(&tokens[0], TokenKind::Identifier, (0, 1), 1);
    assert_token(&tokens[1], TokenKind::Newline, (1, 2), 1);
    assert_token(&tokens[2], TokenKind::Identifier, (2, 3), 2);
    assert_token(&tokens[3], TokenKind::Newline, (3, 4), 2);
    assert_token(&tokens[4], TokenKind::Identifier, (4, 5), 3);
    assert_token(&tokens[5], TokenKind::Newline, (5, 6), 3);
    assert_token(&tokens[6], TokenKind::Identifier, (6, 7), 4);
    assert_token(&tokens[7], TokenKind::Newline, (7, 8), 4);
}

#[test]
fn one_line_value() {
    let mut arena = Table::new();
    let mut lexer = Lexer::new(b"builddir = $BUILDDIR\n");

    let identifier = lexer
        .lex_decl()
        .expect("failed to lex identifier")
        .expect("failed to lex identifier");
    assert_eq!(identifier.kind(), DeclKind::Identifier);

    let equal = lexer.lex().expect("failed to lex equal").expect("failed to lex equal");
    assert_eq!(equal.kind(), TokenKind::Equal);

    let _value = lexer
        .lex_value(&mut arena)
        .expect("failed to lex value")
        .expect("failed to lex value");

    let equal = lexer.lex().expect("failed to lex newline").expect("failed to lex newline");
    assert_eq!(equal.kind(), TokenKind::Newline);

    let eof = lexer.lex().expect("failed to lex EOF");
    assert!(eof.is_none());
}

#[test]
fn lex_build() {
    let mut arena = Table::new();

    let mut lexer = Lexer::new(b"build output1 output2 | implicit_output1 implicit_output2: rulename input1 input2 | implicit_input1 implicit_input2 || order_input1 order_input2\n");

    let build = lexer.lex_decl().expect("failed to lex build").expect("failed to lex build");
    assert_eq!(build.kind(), DeclKind::Build);

    let _output1 = lexer
        .lex_target(&mut arena)
        .expect("failed to lex output1")
        .expect("failed to lex output1");
    let _output2 = lexer
        .lex_target(&mut arena)
        .expect("failed to lex output2")
        .expect("failed to lex output2");
    let nothing = lexer.lex_target(&mut arena).expect("failed to lex nothing");
    assert!(nothing.is_none());

    let pipe = lexer.lex().expect("failed to lex pipe").expect("failed to lex pipe");
    assert_eq!(pipe.kind(), TokenKind::Pipe);

    let _implicit_output1 = lexer
        .lex_target(&mut arena)
        .expect("failed to lex implicit_output1")
        .expect("failed to lex implicit_output1");
    let _implicit_output2 = lexer
        .lex_target(&mut arena)
        .expect("failed to lex implicit_output2")
        .expect("failed to lex implicit_output2");
    let nothing = lexer.lex_target(&mut arena).expect("failed to lex nothing");
    assert!(nothing.is_none());

    let colon = lexer.lex().expect("failed to lex colon").expect("failed to lex colon");
    assert_eq!(colon.kind(), TokenKind::Colon);

    let rulename = lexer.lex().expect("failed to lex rulename").expect("failed to lex rulename");
    assert_eq!(rulename.kind(), TokenKind::Identifier);

    let _input1 = lexer
        .lex_target(&mut arena)
        .expect("failed to lex input1")
        .expect("failed to lex input1");
    let _input2 = lexer
        .lex_target(&mut arena)
        .expect("failed to lex input2")
        .expect("failed to lex input2");
    let nothing = lexer.lex_target(&mut arena).expect("failed to lex nothing");
    assert!(nothing.is_none());

    let pipe = lexer.lex().expect("failed to lex pipe").expect("failed to lex pipe");
    assert_eq!(pipe.kind(), TokenKind::Pipe);

    let _implicit_input1 = lexer
        .lex_target(&mut arena)
        .expect("failed to lex implicit_input1")
        .expect("failed to lex implicit_input1");
    let _implicit_input2 = lexer
        .lex_target(&mut arena)
        .expect("failed to lex implicit_input2")
        .expect("failed to lex implicit_input2");
    let nothing = lexer.lex_target(&mut arena).expect("failed to lex nothing");
    assert!(nothing.is_none());

    let pipe_pipe = lexer.lex().expect("failed to lex pipe_pipe").expect("failed to lex pipe_pipe");
    assert_eq!(pipe_pipe.kind(), TokenKind::PipePipe);

    let _order_input1 = lexer
        .lex_target(&mut arena)
        .expect("failed to lex order_input1")
        .expect("failed to lex order_input1");
    let _order_input2 = lexer
        .lex_target(&mut arena)
        .expect("failed to lex order_input2")
        .expect("failed to lex order_input2");
    let nothing = lexer.lex_target(&mut arena).expect("failed to lex nothing");
    assert!(nothing.is_none());

    let newline = lexer.lex().expect("failed to lex newline").expect("failed to lex newline");
    assert_eq!(newline.kind(), TokenKind::Newline);
}

#[test]
fn value() {
    let mut arena = Table::new();
    let inputs: &[&[u8]] = &[b"${my_variable}\n", b"$my_variable\n"];
    for input in inputs.iter() {
        let mut lexer = Lexer::new(input);
        let value = lexer
            .lex_value(&mut arena)
            .expect("failed to lex value")
            .expect("failed to lex value");
        assert_eq!(value.parts.len(), 1);
    }
}

#[test]
fn target() {
    let mut arena = Table::new();
    let inputs: &[&[u8]] = &[b"${my_variable}\n", b"$my_variable\n"];
    for input in inputs.iter() {
        let mut lexer = Lexer::new(input);
        let value = lexer
            .lex_target(&mut arena)
            .expect("failed to lex target")
            .expect("failed to lex target");
        assert_eq!(value.parts.len(), 1);
    }
}

#[test]
fn comment_is_discarded() {
    let mut lexer = Lexer::new(b"# a comment\nname\n");
    let tokens = lex_all(&mut lexer).expect("failed to lex");
    assert_eq!(tokens.len(), 2);
    assert_token(&tokens[0], TokenKind::Identifier, (12, 16), 2);
    assert_token(&tokens[1], TokenKind::Newline, (16, 17), 2);
}

#[test]
fn comment_without_newline_fails() {
    let mut lexer = Lexer::new(b"# never ends");
    match lexer.lex() {
        Err(LexError::UnknownToken) => (),
        _ => panic!("incorrectly lexed an unterminated comment"),
    }
}

#[test]
fn lexeme_recovers_token_text() {
    let mut lexer = Lexer::new(b"builddir = b\n");
    let token = lexer.lex().expect("failed to lex").expect("failed to lex");
    assert_eq!(lexer.lexeme(token), b"builddir");
}

#[test]
fn try_indent_reports_leading_space() {
    let mut lexer = Lexer::new(b"  x");
    assert!(lexer.try_indent());
    let mut lexer = Lexer::new(b"x");
    assert!(!lexer.try_indent());
}

#[test]
fn decl_keywords_are_recognized() {
    let cases: &[(&[u8], DeclKind)] = &[
        (b"default \n", DeclKind::Default),
        (b"rule \n", DeclKind::Rule),
        (b"build \n", DeclKind::Build),
        (b"pool \n", DeclKind::Pool),
        (b"include \n", DeclKind::Include),
        (b"subninja \n", DeclKind::Subninja),
        (b"builddir \n", DeclKind::Identifier),
        (b"\n", DeclKind::Newline),
    ];
    for (input, kind) in cases.iter() {
        let mut lexer = Lexer::new(input);
        let token = lexer.lex_decl().expect("failed to lex").expect("failed to lex");
        assert_eq!(token.kind(), *kind);
    }
}

#[test]
fn decl_start_must_be_identifier_or_newline() {
    let mut lexer = Lexer::new(b"| x\n");
    match lexer.lex_decl() {
        Err(LexError::InvalidDeclStart) => (),
        _ => panic!("incorrectly accepted a declaration starting with a pipe"),
    }
}

#[test]
fn escaped_literals_in_value() {
    let mut arena = Table::new();
    let mut lexer = Lexer::new(b"a$ b$:c$$d\n");
    let value = lexer
        .lex_value(&mut arena)
        .expect("failed to lex value")
        .expect("failed to lex value");
    // one one-byte literal part per byte: a, ' ', b, ':', c, '$', d
    assert_eq!(value.parts.len(), 7);
}

#[test]
fn braced_variable_requires_close() {
    let mut arena = Table::new();
    let mut lexer = Lexer::new(b"${unclosed\n");
    match lexer.lex_value(&mut arena) {
        Err(LexError::UnknownToken) => (),
        _ => panic!("incorrectly lexed an unterminated braced variable"),
    }
}
