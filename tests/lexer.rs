use machina::error::MachinaError;
use machina::lexer::{Lexer, Token};

fn next_token(lexer: &mut Lexer) -> (Token, Option<String>) {
    (lexer.next().unwrap().unwrap(), lexer.take_value())
}

#[test]
fn lex_instruction() {
    let mut lexer = Lexer::new("CALL");

    let (call, _) = next_token(&mut lexer);

    assert_eq!(call, Token::Call);
}

#[test]
fn lex_register() {
    let mut lexer = Lexer::new("MOVE %0, 1");

    let _ = lexer.next();
    let (reg, num) = next_token(&mut lexer);

    assert_eq!(reg, Token::Register);
    assert_eq!(num, Some("0".into()));
}

#[test]
fn lex_label() {
    let mut lexer = Lexer::new(".L0");

    let (label, name) = next_token(&mut lexer);

    assert_eq!(label, Token::Label);
    assert_eq!(name, Some("L0".into()));
}

#[test]
fn lex_function() {
    let mut lexer = Lexer::new("@entrypoint");

    let (fun, name) = next_token(&mut lexer);

    assert_eq!(fun, Token::Function);
    assert_eq!(name, Some("entrypoint".into()));
}

#[test]
fn lex_complete_instruction() {
    let source = "ADD %0, 1";
    let mut lexer = Lexer::new(&source);

    let (add, _) = next_token(&mut lexer);
    let (reg, reg_value) = next_token(&mut lexer);
    let _ = lexer.next();
    let (num, num_value) = next_token(&mut lexer);

    assert_eq!(add, Token::Add);
    assert_eq!(reg, Token::Register);
    assert_eq!(reg_value, Some("0".into()));
    assert_eq!(num, Token::Number);
    assert_eq!(num_value, Some("1".into()));
}

#[test]
fn lex_number() {
    let source = "MOVE %0, 42";
    let mut lexer = Lexer::new(&source);

    let _ = lexer.next();
    let _ = lexer.next();
    let _ = lexer.next();
    let (number, number_value) = next_token(&mut lexer);

    assert_eq!(number, Token::Number);
    assert_eq!(number_value, Some("42".into()));
}

#[test]
fn lex_float_number() {
    let source = "MOVE %0, 3.14519";
    let mut lexer = Lexer::new(&source);

    let _ = lexer.next();
    let _ = lexer.next();
    let _ = lexer.next();
    let (number, number_value) = next_token(&mut lexer);

    assert_eq!(number, Token::Number);
    assert_eq!(number_value, Some("3.14519".into()));
}

#[test]
fn lex_simple_string() {
    let source = "MOVE %0, \"Hello, World\"";
    let mut lexer = Lexer::new(&source);

    let _ = lexer.next();
    let _ = lexer.next();
    let _ = lexer.next();
    let (string, string_value) = next_token(&mut lexer);

    assert_eq!(string, Token::String);
    assert_eq!(string_value, Some("Hello, World".into()));
}

// Escapes inside a string are decoded: `\"` stands for a quote.
#[test]
fn lex_complex_string() {
    let source = r#"MOVE %0, "MOVE %0, \"MOVE...\"""#;
    let mut lexer = Lexer::new(&source);

    let _ = lexer.next();
    let _ = lexer.next();
    let _ = lexer.next();
    let (string, string_value) = next_token(&mut lexer);

    assert_eq!(string, Token::String);
    assert_eq!(string_value, Some(r#"MOVE %0, "MOVE...""#.into()));
}

#[test]
fn lex_complete() {
    let source = r#"

            @entrypoint
              MOVE  %0, 1
              MOVE  %1, 2
              ADD   %0, %1
              RET   %0
        "#;

    let mut lexer = Lexer::new(&source);

    let mut tokens = vec![];

    loop {
        let (token, value) = next_token(&mut lexer);

        if token == Token::EOF {
            break;
        }

        tokens.push((token, value));
    }

    let kinds: Vec<Token> = tokens.iter().map(|(token, _)| *token).collect();

    assert_eq!(
        kinds,
        vec![
            Token::Function,
            Token::EOL,
            Token::Move,
            Token::Register,
            Token::Comma,
            Token::Number,
            Token::EOL,
            Token::Move,
            Token::Register,
            Token::Comma,
            Token::Number,
            Token::EOL,
            Token::Add,
            Token::Register,
            Token::Comma,
            Token::Register,
            Token::EOL,
            Token::Ret,
            Token::Register,
            Token::EOL,
        ]
    );
}

#[test]
fn lex_escapes_and_unknown_escape() {
    let mut lexer = Lexer::new(r#""a\tb\qc\\""#);
    let (tok, value) = next_token(&mut lexer);
    assert_eq!(tok, Token::String);
    assert_eq!(value, Some("a\tb\\qc\\".to_string()));
}

#[test]
fn lex_unterminated_string() {
    let mut lexer = Lexer::new("\"abc\nRET");
    assert_eq!(lexer.next_token(), Err(MachinaError::UnterminatedString));
    assert_eq!(lexer.next_token(), Ok(Token::EOL));
    assert_eq!(lexer.next_token(), Ok(Token::Ret));
}

#[test]
fn lex_invalid_instruction_and_character() {
    let mut lexer = Lexer::new("FOO #");
    assert_eq!(
        lexer.next_token(),
        Err(MachinaError::InvalidInstruction("FOO".to_string()))
    );
    assert_eq!(lexer.next_token(), Err(MachinaError::InvalidCharacter('#')));
    assert_eq!(lexer.next_token(), Ok(Token::EOF));
    assert_eq!(lexer.next_token(), Ok(Token::EOF));
}

#[test]
fn lex_comments_mnemonic_case_and_signed_numbers() {
    let mut lexer = Lexer::new("mOvE ; a comment\n-12 +3.50 -x 7.");
    assert_eq!(next_token(&mut lexer).0, Token::Move);
    assert_eq!(next_token(&mut lexer).0, Token::EOL);
    assert_eq!(lexer.line(), 1);
    assert_eq!(next_token(&mut lexer), (Token::Number, Some("-12".to_string())));
    assert_eq!(next_token(&mut lexer), (Token::Number, Some("+3.50".to_string())));
    assert_eq!(
        lexer.next_token(),
        Err(MachinaError::InvalidCharacter('-'))
    );
    assert_eq!(
        lexer.next_token(),
        Err(MachinaError::InvalidInstruction("x".to_string()))
    );
    assert_eq!(next_token(&mut lexer), (Token::Number, Some("7".to_string())));
}

#[test]
fn token_texts() {
    assert_eq!(Token::Register.text(), "register");
    assert_eq!(Token::JLe.text(), "jle");
    assert_eq!(Token::EOL.text(), "end of line");
}

#[test]
fn lex_round_trip_of_tokens() {
    let source = "@f\n  MOVE %0, 1\n  JLT .end, %0, 2.5\n.end\n  RET %0\n";
    let mut lexer = Lexer::new(source);
    let mut text = String::new();
    loop {
        let (token, value) = next_token(&mut lexer);
        let piece = match token {
            Token::EOF => break,
            Token::EOL => "\n".to_string(),
            Token::Function => format!("@{}", value.unwrap()),
            Token::Label => format!(".{}", value.unwrap()),
            Token::Register => format!("%{}", value.unwrap()),
            Token::Number => value.unwrap(),
            other => other.text().to_string(),
        };
        text.push_str(&piece);
        text.push(' ');
    }
    let mut again = Lexer::new(&text);
    let mut first = Lexer::new(source);
    loop {
        let a = next_token(&mut first);
        let b = next_token(&mut again);
        assert_eq!(a, b);
        if a.0 == Token::EOF {
            break;
        }
    }
}
