use dpll_sat::sat::check_sat;
use dpll_sat::sat::find_dominant_variable;
use dpll_sat::sat::simplify;
use dpll_sat::sat::unit_propagate;
use dpll_sat::sat::Not;
use dpll_sat::sat::Var;

#[test]
fn test_check_sat() {
    // Empty formula
    {
        let formula = vec![];
        let sat = check_sat(&formula);

        assert!(sat == Some(vec![]));
    }

    // Satisfiable example
    {
        let formula = vec![
            vec![Var(0), Var(0), Var(1)],
            vec![Not(0), Not(1), Not(1)],
            vec![Not(0), Var(1), Var(1)],
        ];
        let sat = check_sat(&formula);

        assert!(sat == Some(vec![false, true]));
    }

    // Unsatisfiable example
    {
        let formula = vec![
            vec![Var(0), Var(1)],
            vec![Not(0), Not(1)],
            vec![Var(1), Var(2)],
            vec![Not(1), Not(2)],
            vec![Var(2), Var(0)],
            vec![Not(2), Not(0)],
        ];
        let sat = check_sat(&formula);

        assert!(sat == None);
    }
}

#[test]
fn test_unit_propagate() {
    let mut formula = vec![
        vec![Var(1)],                 // (unit clause)
        vec![Not(2)],                 // (unit clause)
        vec![Var(1), Var(2)],         // => true
        vec![Not(1), Var(2), Var(3)], // => 3 (unit clause)
        vec![Var(0), Not(3), Var(4)], // => 0 | 4
    ];
    let mut vars = vec![false; 5];

    unit_propagate(&mut formula, &mut vars);

    assert!(formula == vec![vec![Var(0), Var(4)]]);
    assert!(vars == vec![false, true, false, true, false]);
}

#[test]
fn test_simplify() {
    // Raw and negated literals are resolved differently.
    {
        let mut formula = vec![vec![Var(1), Var(2)], vec![Not(1), Var(3)]];
        simplify(&mut formula, 1, true);
        assert!(formula == vec![vec![Var(3)]]);
    }

    // Falsey unit clause becomes an empty clause.
    {
        let mut formula = vec![vec![Var(1)], vec![Var(2)]];
        simplify(&mut formula, 1, false);
        assert!(formula == vec![vec![], vec![Var(2)]]);
    }
}

#[test]
fn test_find_dominant_variable() {
    let formula = vec![
        vec![Var(0), Var(1), Var(2)],
        vec![Not(0), Var(1)],
        vec![Not(1), Var(2)],
        vec![Var(0), Not(1), Not(2)],
    ];
    assert!(find_dominant_variable(&formula, 3) == 1);
}

#[test]
fn test_check_sat_witness_satisfies_formula() {
    let formula = vec![
        vec![Var(0), Var(1), Var(2)],
        vec![Not(0), Var(1)],
        vec![Not(1), Var(2)],
        vec![Var(0), Not(1), Not(2)],
    ];
    let sat = check_sat(&formula);
    let witness = sat.expect("the formula is satisfiable");
    for clause in &formula {
        let holds = clause.iter().any(|lit| match lit {
            &Var(i) => witness[i],
            &Not(i) => !witness[i],
        });
        assert!(holds);
    }
}

#[test]
fn test_check_sat_empty_clause_unsat() {
    // An empty clause makes any formula unsatisfiable.
    let formula = vec![vec![Var(0)], vec![], vec![Not(1), Var(2)]];
    assert!(check_sat(&formula) == None);
}

#[test]
fn test_check_sat_deterministic() {
    let formula = vec![vec![Var(0), Not(1)], vec![Var(1), Var(2)], vec![Not(0), Not(2)]];
    let first = check_sat(&formula);
    let second = check_sat(&formula);
    assert!(first.is_some() == second.is_some());
    assert!(first == second);
}

#[test]
fn test_simplify_duplicate_literals_confluent() {
    // A clause with a duplicated literal simplifies like the deduplicated one.
    let mut with_dup = vec![vec![Var(0), Var(0), Var(1)], vec![Not(0), Var(2)]];
    let mut without_dup = vec![vec![Var(0), Var(1)], vec![Not(0), Var(2)]];
    simplify(&mut with_dup, 0, true);
    simplify(&mut without_dup, 0, true);
    assert!(with_dup == without_dup);

    let mut stripped_dup = vec![vec![Not(0), Not(0), Var(1)]];
    let mut stripped_plain = vec![vec![Not(0), Var(1)]];
    simplify(&mut stripped_dup, 0, true);
    simplify(&mut stripped_plain, 0, true);
    assert!(stripped_dup == vec![vec![Var(1)]]);
    assert!(stripped_dup == stripped_plain);
}

#[test]
fn test_find_dominant_variable_tie_breaks_low() {
    // Equal counts: the lowest index wins.
    let formula = vec![vec![Var(2)], vec![Var(1)], vec![Var(0)]];
    assert!(find_dominant_variable(&formula, 3) == 0);
}
