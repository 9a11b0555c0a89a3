use ninja_front::ast::{AstError, File};
use ninja_front::intern::Table;
use ninja_front::lex::LexError;
use ninja_front::parse::{ParseError, Parser};

fn parse(input: &[u8]) -> Result<File, ParseError> {
    let mut arena = Table::new();
    let mut parser = Parser::new(input);
    parser.parse(&mut arena)
}

#[test]
fn parse_empty() {
    let ninja = b"";
    let file = parse(ninja).expect("failed to parse empty string");
    assert_eq!(file.declarations().count(), 0);
}

#[test]
fn parse_build() {
    for num_outputs in 1..4 {
        for num_implicit_outputs in 0..3 {
            for num_inputs in 0..3 {
                for num_implicit_inputs in 0..3 {
                    for _num_order_inputs in 0..3 {
                        for num_bindings in 0..3 {
                            let mut ninja = vec![];
                            ninja.extend("build".bytes());
                            for output in 0..num_outputs {
                                ninja.extend(format!(" output{}", output).bytes());
                            }
                            if num_implicit_outputs > 0 {
                                ninja.extend(" |".bytes())
                            }
                            for implicit_output in 0..num_implicit_outputs {
                                ninja.extend(
                                    format!(" implicit_output{}", implicit_output).bytes(),
                                );
                            }
                            ninja.extend(": rulename".bytes());
                            for input in 0..num_inputs {
                                ninja.extend(format!(" input{}", input).bytes());
                            }
                            if num_implicit_inputs > 0 {
                                ninja.extend(" |".bytes())
                            }
                            for implicit_input in 0..num_implicit_inputs {
                                ninja.extend(format!(" implicit_input{}", implicit_input).bytes());
                            }
                            if num_implicit_inputs > 0 {
                                ninja.extend(" ||".bytes())
                            }
                            for order_input in 0..num_implicit_inputs {
                                ninja.extend(format!(" order_input{}", order_input).bytes());
                            }
                            ninja.extend("\n".bytes());
                            for binding in 0..num_bindings {
                                ninja.extend(
                                    format!("    var{} = value{}\n", binding, binding).bytes(),
                                )
                            }

                            let file = parse(&ninja).expect("failed to parse build");
                            assert_eq!(file.declarations().count(), 1);
                        }
                    }
                }
            }
        }
    }
}

#[test]
fn invalid_build() {
    let invalid_builds: &[&[u8]] = &[
        b"build output = input\n",
        b"build output : rulename :\n",
        b"build",
    ];
    for ninja in invalid_builds.iter() {
        let result = parse(ninja);
        assert!(result.is_err());
    }
}

#[test]
fn pool() {
    let ninja = b"pool mypool\n    depth = 23\n";
    parse(ninja).expect("failed to parse pool");
}

#[test]
fn pool_variable_pre() {
    let ninja = b"d = 23\npool mypool\n    depth = $d\n";
    parse(ninja).expect("failed to parse pool");
}

#[test]
fn pool_invalid_variable_pre() {
    let ninja = b"d = -23\npool mypool\n    depth = $d\n";
    let err = parse(ninja);
    assert!(err.is_err());
}

#[test]
fn pool_invalid_variable_post() {
    let ninja = b"pool mypool\n    depth = $d\nd = -23\n";
    parse(ninja).expect("failed to parse pool");
}

#[test]
fn build_unset_pool() {
    let ninja = b"build mything : myrule myinput\n    pool =\n";
    parse(ninja).expect("failed to parse pool");
}

#[test]
fn duplicate_binding_in_block() {
    let ninja = b"rule r\n    x = 1\n    x = 1\n";
    let result = parse(ninja);
    assert!(matches!(
        result,
        Err(ParseError::AstError(AstError::DuplicateBinding))
    ));
}

#[test]
fn duplicate_top_level_binding() {
    let ninja = b"x = 1\nx = 2\n";
    let result = parse(ninja);
    assert!(matches!(
        result,
        Err(ParseError::AstError(AstError::DuplicateBinding))
    ));
}

#[test]
fn pool_depth_must_be_numeric() {
    let result = parse(b"pool mypool\n    depth = abc\n");
    assert!(matches!(result, Err(ParseError::PoolDepthInvalid)));
}

#[test]
fn pool_needs_exactly_one_binding() {
    let result = parse(b"pool mypool\n    depth = 1\n    extra = 2\n");
    assert!(matches!(result, Err(ParseError::PoolDepthInvalid)));
    let result = parse(b"pool mypool\n");
    assert!(matches!(result, Err(ParseError::PoolDepthInvalid)));
    let result = parse(b"pool mypool\n    other = 1\n");
    assert!(matches!(result, Err(ParseError::PoolDepthInvalid)));
}

#[test]
fn pool_depth_boundaries() {
    // usize::MAX on a 64-bit machine parses; one past it overflows.
    parse(b"pool p\n    depth = 18446744073709551615\n").expect("maximum depth must parse");
    let result = parse(b"pool p\n    depth = 18446744073709551616\n");
    assert!(matches!(result, Err(ParseError::PoolDepthInvalid)));
    // a leading plus sign is part of a valid base-10 literal
    parse(b"pool p\n    depth = +23\n").expect("signed depth must parse");
    let result = parse(b"pool p\n    depth = +\n");
    assert!(matches!(result, Err(ParseError::PoolDepthInvalid)));
}

#[test]
fn undefined_variable_expands_empty_in_depth() {
    // an undefined variable expands to the empty byte sequence, and an
    // empty depth value means zero
    parse(b"pool p\n    depth = $undefined\n").expect("empty depth must parse");
}

#[test]
fn include_and_subninja_are_unimplemented() {
    let result = parse(b"include other\n");
    assert!(matches!(result, Err(ParseError::Unimplemented)));
    let result = parse(b"subninja other\n");
    assert!(matches!(result, Err(ParseError::Unimplemented)));
}

#[test]
fn declaration_must_start_with_identifier() {
    let result = parse(b"| x\n");
    assert!(matches!(
        result,
        Err(ParseError::LexError(LexError::InvalidDeclStart))
    ));
}

#[test]
fn rule_name_must_be_identifier() {
    let result = parse(b"rule =\n");
    assert!(matches!(result, Err(ParseError::Expected { .. })));
}

#[test]
fn unexpected_eof_mid_build() {
    let result = parse(b"build out : rulename");
    assert!(matches!(result, Err(ParseError::LexError(LexError::UnknownToken))));
    let result = parse(b"build out :");
    assert!(matches!(result, Err(ParseError::UnexpectedEof)));
}

#[test]
fn stray_second_colon_is_rejected() {
    let result = parse(b"build output : rulename :\n");
    assert!(matches!(
        result,
        Err(ParseError::UnexpectedToken { got: _ })
    ));
}

#[test]
fn blank_lines_are_skipped() {
    let file = parse(b"\n\nrule r\n\ndefault t\n").expect("failed to parse");
    assert_eq!(file.declarations().count(), 2);
}

#[test]
fn source_order_is_kept() {
    let ninja = b"rule r\nbuild o : r i\ndefault o\npool q\n    depth = 1\n";
    let file = parse(ninja).expect("failed to parse");
    assert_eq!(file.declarations().count(), 4);
}
