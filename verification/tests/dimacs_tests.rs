use dpll_sat::dimacs::format_assignment;
use dpll_sat::dimacs::load;
use dpll_sat::dimacs::parse_formula;
use dpll_sat::dimacs::parse_header;
use dpll_sat::dimacs::Error;
use dpll_sat::dimacs::Header;
use dpll_sat::sat::check_sat;
use dpll_sat::sat::Assignment;
use dpll_sat::sat::Formula;
use dpll_sat::sat::Not;
use dpll_sat::sat::Var;

#[test]
fn test_load() {
    let src = "c example\np cnf 3 2\n1 -2 3 0\n-1 -3 0\n";
    let result = load(src.as_bytes());
    let expect = vec![vec![Var(0), Not(1), Var(2)], vec![Not(0), Not(2)]];
    match result {
        Ok(actual) => assert_eq!(actual, expect),
        Err(err) => panic!("unexpected: {:?}", err),
    }
}

#[test]
fn test_parse_header_no_header() {
    let src = "1 2 3 4\n";
    let result = parse_header(src.as_bytes());
    match result {
        Ok(_) => panic!(),
        Err(err) => match err {
            Error::NoHeader => {}
            _ => panic!("unexpected: {:?}", err),
        },
    }
}

#[test]
fn test_parse_header_valid_header() {
    let src = "p cnf 3 2\n";
    let result = parse_header(src.as_bytes());
    let expect = Header {
        num_variables: 3,
        num_clauses: 2,
    };
    match result {
        Ok(actual) => assert_eq!(actual, expect),
        Err(err) => panic!("error: {:?}", err),
    }
}

#[test]
fn test_parse_header_comment() {
    let src = "c comment\np cnf 3 2\n";
    let result = parse_header(src.as_bytes());
    let expect = Header {
        num_variables: 3,
        num_clauses: 2,
    };
    match result {
        Ok(actual) => assert_eq!(actual, expect),
        Err(err) => panic!("error: {:?}", err),
    }
}

#[test]
fn test_parse_header_empty_lines() {
    let src = "\n\np cnf 3 2\n";
    let result = parse_header(src.as_bytes());
    let expect = Header {
        num_variables: 3,
        num_clauses: 2,
    };
    match result {
        Ok(actual) => assert_eq!(actual, expect),
        Err(err) => panic!("error: {:?}", err),
    }
}

#[test]
fn test_parse_header_no_required_fields() {
    let src = "p cnf\n";
    let result = parse_header(src.as_bytes());
    match result {
        Ok(_) => panic!(),
        Err(err) => match err {
            Error::BadHeader => {}
            _ => panic!("unexpected: {:?}", err),
        },
    }
}

#[test]
fn test_parse_header_extra_fields() {
    let src = "p cnf 3 2 1\n";
    let result = parse_header(src.as_bytes());
    match result {
        Ok(_) => panic!(),
        Err(err) => match err {
            Error::BadHeader => {}
            _ => panic!("unexpected: {:?}", err),
        },
    }
}

#[test]
fn test_parse_header_not_cnf() {
    let src = "p dnf 3 2\n";
    let result = parse_header(src.as_bytes());
    match result {
        Ok(_) => panic!(),
        Err(err) => match err {
            Error::BadHeader => {}
            _ => panic!("unexpected: {:?}", err),
        },
    }
}

#[test]
fn test_parse_header_negative_variables() {
    let src = "p cnf -1 2\n";
    let result = parse_header(src.as_bytes());
    match result {
        Ok(_) => panic!(),
        Err(err) => match err {
            Error::BadHeader => {}
            _ => panic!("unexpected: {:?}", err),
        },
    }
}

#[test]
fn test_parse_header_negative_clauses() {
    let src = "p cnf 1 -2\n";
    let result = parse_header(src.as_bytes());
    match result {
        Ok(_) => panic!(),
        Err(err) => match err {
            Error::BadHeader => {}
            _ => panic!("unexpected: {:?}", err),
        },
    }
}

#[test]
fn test_parse_header_count_overflow() {
    // A variable count beyond the machine word is a malformed header.
    let src = "p cnf 99999999999999999999999999 2\n";
    let result = parse_header(src.as_bytes());
    match result {
        Ok(_) => panic!(),
        Err(err) => match err {
            Error::BadHeader => {}
            _ => panic!("unexpected: {:?}", err),
        },
    }
}

#[test]
fn test_parse_formula_empty() {
    let src = "";
    let header = Header {
        num_variables: 0,
        num_clauses: 0,
    };
    let result = parse_formula(src.as_bytes(), &header);
    let expect = Formula::new();
    match result {
        Ok(actual) => assert_eq!(actual, expect),
        Err(err) => panic!("unexpected: {:?}", err),
    }
}

#[test]
fn test_parse_formula_valid() {
    let src = "1 2 0\nc comment\n-3 -4 -5 0\n";
    let header = Header {
        num_variables: 5,
        num_clauses: 2,
    };
    let result = parse_formula(src.as_bytes(), &header);
    let expect = vec![vec![Var(0), Var(1)], vec![Not(2), Not(3), Not(4)]];
    match result {
        Ok(actual) => assert_eq!(actual, expect),
        Err(err) => panic!("unexpected: {:?}", err),
    }
}

#[test]
fn test_parse_formula_coalesced() {
    let src = "1 2 0 -1 -2 0\n";
    let header = Header {
        num_variables: 2,
        num_clauses: 2,
    };
    let result = parse_formula(src.as_bytes(), &header);
    let expect = vec![vec![Var(0), Var(1)], vec![Not(0), Not(1)]];
    match result {
        Ok(actual) => assert_eq!(actual, expect),
        Err(err) => panic!("unexpected: {:?}", err),
    }
}

#[test]
fn test_parse_formula_too_many_variables() {
    let src = "1 2 3 4 0\n";
    let header = Header {
        num_variables: 3,
        num_clauses: 1,
    };
    let result = parse_formula(src.as_bytes(), &header);
    match result {
        Ok(_) => panic!(),
        Err(err) => match err {
            Error::VariableCount => {}
            _ => panic!("unexpected: {:?}", err),
        },
    }
}

#[test]
fn test_parse_formula_too_many_clauses() {
    let src = "1 2 0 1 2 0 1 2 0\n";
    let header = Header {
        num_variables: 2,
        num_clauses: 2,
    };
    let result = parse_formula(src.as_bytes(), &header);
    match result {
        Ok(_) => panic!(),
        Err(err) => match err {
            Error::ClauseCount => {}
            _ => panic!("unexpected: {:?}", err),
        },
    }
}

#[test]
fn test_parse_formula_too_less_clauses() {
    let src = "1 2 0\n";
    let header = Header {
        num_variables: 2,
        num_clauses: 2,
    };
    let result = parse_formula(src.as_bytes(), &header);
    match result {
        Ok(_) => panic!(),
        Err(err) => match err {
            Error::ClauseCount => {}
            _ => panic!("unexpected: {:?}", err),
        },
    }
}

#[test]
fn test_parse_formula_bad_token() {
    let src = "1 x 0\n";
    let header = Header {
        num_variables: 2,
        num_clauses: 1,
    };
    let result = parse_formula(src.as_bytes(), &header);
    match result {
        Ok(_) => panic!(),
        Err(err) => match err {
            Error::BadClause => {}
            _ => panic!("unexpected: {:?}", err),
        },
    }
}

#[test]
fn test_parse_formula_extreme_negative_literal() {
    // The most negative 32-bit number parses when the header declares room.
    let src = "-2147483648 0\n";
    let header = Header {
        num_variables: 2147483648,
        num_clauses: 1,
    };
    let result = parse_formula(src.as_bytes(), &header);
    let expect = vec![vec![Not(2147483647)]];
    match result {
        Ok(actual) => assert_eq!(actual, expect),
        Err(err) => panic!("unexpected: {:?}", err),
    }
}

#[test]
fn test_format_assignment_empty() {
    let vars = Assignment::new();
    let actual = format_assignment(&vars);
    let expect = "";
    assert_eq!(actual, expect);
}

#[test]
fn test_format_assignment_one_based_signed() {
    let vars = vec![true, false, true, false];
    let actual = format_assignment(&vars);
    let expect = "1 -2 3 -4";
    assert_eq!(actual, expect);
}

#[test]
fn test_format_assignment_multi_digit() {
    let vars = vec![
        true, true, true, true, true, true, true, true, true, false, true,
    ];
    let actual = format_assignment(&vars);
    let expect = "1 2 3 4 5 6 7 8 9 -10 11";
    assert_eq!(actual, expect);
}

#[test]
fn test_round_trip_satisfying_line() {
    // Parse, solve, print: the printed tokens must satisfy both clauses.
    let src = "p cnf 3 2\n1 -2 3 0\n-1 -3 0\n";
    let formula = load(src.as_bytes()).expect("the input is well-formed");
    assert_eq!(
        formula,
        vec![vec![Var(0), Not(1), Var(2)], vec![Not(0), Not(2)]]
    );
    let witness = check_sat(&formula).expect("the formula is satisfiable");
    let line = format_assignment(&witness);
    let numbers: Vec<i32> = line
        .split_whitespace()
        .map(|tok| tok.parse().expect("each token is a signed number"))
        .collect();
    assert_eq!(numbers.len(), 3);
    for (i, &n) in numbers.iter().enumerate() {
        assert_eq!(n.unsigned_abs() as usize, i + 1);
    }
    let truth = |one_based: usize| numbers[one_based - 1] > 0;
    assert!(truth(1) || !truth(2) || truth(3));
    assert!(!truth(1) || !truth(3));
}
