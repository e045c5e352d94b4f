use whidl::expr::{eval_expr, eval_expr_numeric, GenericWidth, Op, Terminal};
use whidl::parser::Identifier;
use whidl::strmap::StrMap;


#[test]
fn test_expr_simplify_2_add_2() {
    let state = StrMap::new();
    let input = GenericWidth::Expr(
        Op::Add,
        Box::new(GenericWidth::Terminal(Terminal::Num(2))),
        Box::new(GenericWidth::Terminal(Terminal::Num(2))),
    );
    let expected = GenericWidth::Terminal(Terminal::Num(4));
    let actual = eval_expr(&input, &state);
    assert_eq!(actual, expected);
}

#[test]
fn test_expr_simplify_2_sub_2() {
    let state = StrMap::new();
    let input = GenericWidth::Expr(
        Op::Sub,
        Box::new(GenericWidth::Terminal(Terminal::Num(2))),
        Box::new(GenericWidth::Terminal(Terminal::Num(2))),
    );
    let expected = GenericWidth::Terminal(Terminal::Num(0));
    let actual = eval_expr(&input, &state);
    assert_eq!(actual, expected);
}

#[test]
fn test_expr_simplify_n_add_1() {
    let state = StrMap::new();
    let input = GenericWidth::Expr(
        Op::Add,
        Box::new(GenericWidth::Terminal(Terminal::Var(Identifier::from("N")))),
        Box::new(GenericWidth::Terminal(Terminal::Num(1))),
    );
    let expected = GenericWidth::Expr(
        Op::Add,
        Box::new(GenericWidth::Terminal(Terminal::Var(Identifier::from("N")))),
        Box::new(GenericWidth::Terminal(Terminal::Num(1))),
    );
    let actual = eval_expr(&input, &state);
    assert_eq!(actual, expected);
}

#[test]
fn test_expr_assoc_norm() {
    let state = StrMap::new();
    let input = GenericWidth::Expr(
        Op::Add,
        Box::new(GenericWidth::Terminal(Terminal::Num(1))),
        Box::new(GenericWidth::Terminal(Terminal::Var(Identifier::from("N")))),
    );
    let expected = GenericWidth::Expr(
        Op::Add,
        Box::new(GenericWidth::Terminal(Terminal::Var(Identifier::from("N")))),
        Box::new(GenericWidth::Terminal(Terminal::Num(1))),
    );
    let actual = eval_expr(&input, &state);
    assert_eq!(actual, expected);
}

#[test]
fn test_expr_simplify_n_plus_1_plus_1() {
    let state = StrMap::new();
    let input = GenericWidth::Expr(
        Op::Add,
        Box::new(GenericWidth::Expr(
            Op::Add,
            Box::new(GenericWidth::Terminal(Terminal::Var(Identifier::from("N")))),
            Box::new(GenericWidth::Terminal(Terminal::Num(1))),
        )),
        Box::new(GenericWidth::Terminal(Terminal::Num(1))),
    );
    let expected = GenericWidth::Expr(
        Op::Add,
        Box::new(GenericWidth::Terminal(Terminal::Var(Identifier::from("N")))),
        Box::new(GenericWidth::Terminal(Terminal::Num(2))),
    );
    let actual = eval_expr(&input, &state);
    assert_eq!(actual, expected);
}

#[test]
fn test_expr_simplify_1_plus_n_plus_1() {
    let state = StrMap::new();
    let input = GenericWidth::Expr(
        Op::Add,
        Box::new(GenericWidth::Expr(
            Op::Add,
            Box::new(GenericWidth::Terminal(Terminal::Num(1))),
            Box::new(GenericWidth::Terminal(Terminal::Var(Identifier::from("N")))),
        )),
        Box::new(GenericWidth::Terminal(Terminal::Num(1))),
    );
    let expected = GenericWidth::Expr(
        Op::Add,
        Box::new(GenericWidth::Terminal(Terminal::Var(Identifier::from("N")))),
        Box::new(GenericWidth::Terminal(Terminal::Num(2))),
    );
    let actual = eval_expr(&input, &state);
    assert_eq!(actual, expected);
}

#[test]
fn test_expr_simplify_n_minus_2_plus_1() {
    let state = StrMap::new();
    let input = GenericWidth::Expr(
        Op::Add,
        Box::new(GenericWidth::Expr(
            Op::Sub,
            Box::new(GenericWidth::Terminal(Terminal::Var(Identifier::from("N")))),
            Box::new(GenericWidth::Terminal(Terminal::Num(2))),
        )),
        Box::new(GenericWidth::Terminal(Terminal::Num(1))),
    );
    let expected = GenericWidth::Expr(
        Op::Sub,
        Box::new(GenericWidth::Terminal(Terminal::Var(Identifier::from("N")))),
        Box::new(GenericWidth::Terminal(Terminal::Num(1))),
    );
    let actual = eval_expr(&input, &state);
    assert_eq!(actual, expected);
}

#[test]
fn test_expr_simplify_n_minus_1_plus_2() {
    let state = StrMap::new();
    let input = GenericWidth::Expr(
        Op::Add,
        Box::new(GenericWidth::Expr(
            Op::Sub,
            Box::new(GenericWidth::Terminal(Terminal::Var(Identifier::from("N")))),
            Box::new(GenericWidth::Terminal(Terminal::Num(1))),
        )),
        Box::new(GenericWidth::Terminal(Terminal::Num(2))),
    );
    let expected = GenericWidth::Expr(
        Op::Add,
        Box::new(GenericWidth::Terminal(Terminal::Var(Identifier::from("N")))),
        Box::new(GenericWidth::Terminal(Terminal::Num(1))),
    );
    let actual = eval_expr(&input, &state);
    assert_eq!(actual, expected);
}

#[test]
fn test_expr_simplify_n_minus_2_minus_1() {
    let state = StrMap::new();
    let input = GenericWidth::Expr(
        Op::Sub,
        Box::new(GenericWidth::Expr(
            Op::Sub,
            Box::new(GenericWidth::Terminal(Terminal::Var(Identifier::from("N")))),
            Box::new(GenericWidth::Terminal(Terminal::Num(2))),
        )),
        Box::new(GenericWidth::Terminal(Terminal::Num(1))),
    );
    let expected = GenericWidth::Expr(
        Op::Sub,
        Box::new(GenericWidth::Terminal(Terminal::Var(Identifier::from("N")))),
        Box::new(GenericWidth::Terminal(Terminal::Num(3))),
    );
    let actual = eval_expr(&input, &state);
    assert_eq!(actual, expected);
}

#[test]
fn test_expr_simplify_n_minus_1_plus_1() {
    let state = StrMap::new();
    let input = GenericWidth::Expr(
        Op::Add,
        Box::new(GenericWidth::Expr(
            Op::Sub,
            Box::new(GenericWidth::Terminal(Terminal::Var(Identifier::from("N")))),
            Box::new(GenericWidth::Terminal(Terminal::Num(1))),
        )),
        Box::new(GenericWidth::Terminal(Terminal::Num(1))),
    );
    let expected = GenericWidth::Terminal(Terminal::Var(Identifier::from("N")));
    let actual = eval_expr(&input, &state);
    assert_eq!(actual, expected);
}

#[test]
fn test_expr_simplify_n_plus_1_minus_1() {
    let state = StrMap::new();
    let input = GenericWidth::Expr(
        Op::Sub,
        Box::new(GenericWidth::Expr(
            Op::Add,
            Box::new(GenericWidth::Terminal(Terminal::Var(Identifier::from("N")))),
            Box::new(GenericWidth::Terminal(Terminal::Num(1))),
        )),
        Box::new(GenericWidth::Terminal(Terminal::Num(1))),
    );
    let expected = GenericWidth::Terminal(Terminal::Var(Identifier::from("N")));
    let actual = eval_expr(&input, &state);
    assert_eq!(actual, expected);
}

// N, D -> LHS
#[test]
fn test_expr_simplify_max_n_d() {
    let state = StrMap::new();
    let input = GenericWidth::Expr(
        Op::Max,
        Box::new(GenericWidth::Terminal(Terminal::Var(Identifier::from("N")))),
        Box::new(GenericWidth::Terminal(Terminal::Num(1))),
    );
    let expected = GenericWidth::Terminal(Terminal::Var(Identifier::from("N")));
    let actual = eval_expr(&input, &state);
    assert_eq!(actual, expected);
}

// D, N -> RHS
#[test]
fn test_expr_simplify_max_d_n() {
    let state = StrMap::new();
    let input = GenericWidth::Expr(
        Op::Max,
        Box::new(GenericWidth::Terminal(Terminal::Num(1))),
        Box::new(GenericWidth::Terminal(Terminal::Var(Identifier::from("N")))),
    );
    let expected = GenericWidth::Terminal(Terminal::Var(Identifier::from("N")));
    let actual = eval_expr(&input, &state);
    assert_eq!(actual, expected);
}

// N op C, D -> LHS
#[test]
fn test_expr_simplify_max_n_plus_c_d() {
    let state = StrMap::new();
    let input = GenericWidth::Expr(
        Op::Max,
        Box::new(GenericWidth::Expr(
            Op::Add,
            Box::new(GenericWidth::Terminal(Terminal::Var(Identifier::from("N")))),
            Box::new(GenericWidth::Terminal(Terminal::Num(1))),
        )),
        Box::new(GenericWidth::Terminal(Terminal::Num(1))),
    );
    let expected = GenericWidth::Expr(
        Op::Add,
        Box::new(GenericWidth::Terminal(Terminal::Var(Identifier::from("N")))),
        Box::new(GenericWidth::Terminal(Terminal::Num(1))),
    );
    let actual = eval_expr(&input, &state);
    assert_eq!(actual, expected);
}

// N, N
#[test]
fn test_expr_simplify_max_n_n() {
    let state = StrMap::new();
    let input = GenericWidth::Expr(
        Op::Max,
        Box::new(GenericWidth::Terminal(Terminal::Var(Identifier::from("N")))),
        Box::new(GenericWidth::Terminal(Terminal::Var(Identifier::from("N")))),
    );
    let expected = GenericWidth::Terminal(Terminal::Var(Identifier::from("N")));
    let actual = eval_expr(&input, &state);
    assert_eq!(actual, expected);
}

// D, N op C -> RHS
#[test]
fn test_expr_simplify_max_d_n_plus_c() {
    let state = StrMap::new();
    let input = GenericWidth::Expr(
        Op::Max,
        Box::new(GenericWidth::Terminal(Terminal::Num(1))),
        Box::new(GenericWidth::Expr(
            Op::Add,
            Box::new(GenericWidth::Terminal(Terminal::Var(Identifier::from("N")))),
            Box::new(GenericWidth::Terminal(Terminal::Num(1))),
        )),
    );
    let expected = GenericWidth::Expr(
        Op::Add,
        Box::new(GenericWidth::Terminal(Terminal::Var(Identifier::from("N")))),
        Box::new(GenericWidth::Terminal(Terminal::Num(1))),
    );
    let actual = eval_expr(&input, &state);
    assert_eq!(actual, expected);
}

// N, N - C     -> LHS
#[test]
fn test_expr_simplify_max_n_n_minus_c() {
    let state = StrMap::new();
    let input = GenericWidth::Expr(
        Op::Max,
        Box::new(GenericWidth::Terminal(Terminal::Var(Identifier::from("N")))),
        Box::new(GenericWidth::Expr(
            Op::Sub,
            Box::new(GenericWidth::Terminal(Terminal::Var(Identifier::from("N")))),
            Box::new(GenericWidth::Terminal(Terminal::Num(1))),
        )),
    );
    let expected = GenericWidth::Terminal(Terminal::Var(Identifier::from("N")));
    let actual = eval_expr(&input, &state);
    assert_eq!(actual, expected);
}

// N - C, N     -> RHS
#[test]
fn test_expr_simplify_max_n_minus_c_n() {
    let state = StrMap::new();
    let input = GenericWidth::Expr(
        Op::Max,
        Box::new(GenericWidth::Expr(
            Op::Sub,
            Box::new(GenericWidth::Terminal(Terminal::Var(Identifier::from("N")))),
            Box::new(GenericWidth::Terminal(Terminal::Num(1))),
        )),
        Box::new(GenericWidth::Terminal(Terminal::Var(Identifier::from("N")))),
    );
    let expected = GenericWidth::Terminal(Terminal::Var(Identifier::from("N")));
    let actual = eval_expr(&input, &state);
    assert_eq!(actual, expected);
}

// N + C, N     -> LHS
#[test]
fn test_expr_simplify_max_n_plus_c_n() {
    let state = StrMap::new();
    let input = GenericWidth::Expr(
        Op::Max,
        Box::new(GenericWidth::Expr(
            Op::Add,
            Box::new(GenericWidth::Terminal(Terminal::Var(Identifier::from("N")))),
            Box::new(GenericWidth::Terminal(Terminal::Num(1))),
        )),
        Box::new(GenericWidth::Terminal(Terminal::Var(Identifier::from("N")))),
    );
    let expected = GenericWidth::Expr(
        Op::Add,
        Box::new(GenericWidth::Terminal(Terminal::Var(Identifier::from("N")))),
        Box::new(GenericWidth::Terminal(Terminal::Num(1))),
    );
    let actual = eval_expr(&input, &state);
    assert_eq!(actual, expected);
}

// N, N + C     -> RHS
#[test]
fn test_expr_simplify_max_n_n_plus_c() {
    let state = StrMap::new();
    let input = GenericWidth::Expr(
        Op::Max,
        Box::new(GenericWidth::Terminal(Terminal::Var(Identifier::from("N")))),
        Box::new(GenericWidth::Expr(
            Op::Add,
            Box::new(GenericWidth::Terminal(Terminal::Var(Identifier::from("N")))),
            Box::new(GenericWidth::Terminal(Terminal::Num(1))),
        )),
    );
    let expected = GenericWidth::Expr(
        Op::Add,
        Box::new(GenericWidth::Terminal(Terminal::Var(Identifier::from("N")))),
        Box::new(GenericWidth::Terminal(Terminal::Num(1))),
    );
    let actual = eval_expr(&input, &state);
    assert_eq!(actual, expected);
}

// N + C, N + D -> LHS if C > D
#[test]
fn test_expr_simplify_max_n_plus_c_n_plus_d_big_c() {
    let state = StrMap::new();
    let input = GenericWidth::Expr(
        Op::Max,
        Box::new(GenericWidth::Expr(
            Op::Add,
            Box::new(GenericWidth::Terminal(Terminal::Var(Identifier::from("N")))),
            Box::new(GenericWidth::Terminal(Terminal::Num(2))),
        )),
        Box::new(GenericWidth::Expr(
            Op::Add,
            Box::new(GenericWidth::Terminal(Terminal::Var(Identifier::from("N")))),
            Box::new(GenericWidth::Terminal(Terminal::Num(1))),
        )),
    );
    let expected = GenericWidth::Expr(
        Op::Add,
        Box::new(GenericWidth::Terminal(Terminal::Var(Identifier::from("N")))),
        Box::new(GenericWidth::Terminal(Terminal::Num(2))),
    );
    let actual = eval_expr(&input, &state);
    assert_eq!(actual, expected);
}

// N + C, N + D -> RHS if D > C
#[test]
fn test_expr_simplify_max_n_plus_c_n_plus_d_big_d() {
    let state = StrMap::new();
    let input = GenericWidth::Expr(
        Op::Max,
        Box::new(GenericWidth::Expr(
            Op::Add,
            Box::new(GenericWidth::Terminal(Terminal::Var(Identifier::from("N")))),
            Box::new(GenericWidth::Terminal(Terminal::Num(4))),
        )),
        Box::new(GenericWidth::Expr(
            Op::Add,
            Box::new(GenericWidth::Terminal(Terminal::Var(Identifier::from("N")))),
            Box::new(GenericWidth::Terminal(Terminal::Num(55))),
        )),
    );
    let expected = GenericWidth::Expr(
        Op::Add,
        Box::new(GenericWidth::Terminal(Terminal::Var(Identifier::from("N")))),
        Box::new(GenericWidth::Terminal(Terminal::Num(55))),
    );
    let actual = eval_expr(&input, &state);
    assert_eq!(actual, expected);
}

// N + C, N + D -> EQ if D = C
#[test]
fn test_expr_simplify_max_n_plus_c_n_plus_d_equal_nonzero() {
    let state = StrMap::new();
    let input = GenericWidth::Expr(
        Op::Max,
        Box::new(GenericWidth::Expr(
            Op::Add,
            Box::new(GenericWidth::Terminal(Terminal::Var(Identifier::from("N")))),
            Box::new(GenericWidth::Terminal(Terminal::Num(4))),
        )),
        Box::new(GenericWidth::Expr(
            Op::Add,
            Box::new(GenericWidth::Terminal(Terminal::Var(Identifier::from("N")))),
            Box::new(GenericWidth::Terminal(Terminal::Num(4))),
        )),
    );
    let expected = GenericWidth::Expr(
        Op::Add,
        Box::new(GenericWidth::Terminal(Terminal::Var(Identifier::from("N")))),
        Box::new(GenericWidth::Terminal(Terminal::Num(4))),
    );
    let actual = eval_expr(&input, &state);
    assert_eq!(actual, expected);
}

// N - C, N - D -> LHS if C = D and C == 0
#[test]
fn test_expr_simplify_max_n_plus_c_n_plus_d_equal_zero() {
    let state = StrMap::new();
    let input = GenericWidth::Expr(
        Op::Max,
        Box::new(GenericWidth::Expr(
            Op::Add,
            Box::new(GenericWidth::Terminal(Terminal::Var(Identifier::from("N")))),
            Box::new(GenericWidth::Terminal(Terminal::Num(0))),
        )),
        Box::new(GenericWidth::Expr(
            Op::Add,
            Box::new(GenericWidth::Terminal(Terminal::Var(Identifier::from("N")))),
            Box::new(GenericWidth::Terminal(Terminal::Num(0))),
        )),
    );
    let actual = eval_expr(&input, &state);
    let expected = GenericWidth::Terminal(Terminal::Var(Identifier::from("N")));
    assert_eq!(actual, expected);
}

// N - C, N + D -> RHS if C > D
#[test]
fn test_expr_simplify_max_n_minus_c_n_plus_d_big_c() {
    let state = StrMap::new();
    let input = GenericWidth::Expr(
        Op::Max,
        Box::new(GenericWidth::Expr(
            Op::Sub,
            Box::new(GenericWidth::Terminal(Terminal::Var(Identifier::from("N")))),
            Box::new(GenericWidth::Terminal(Terminal::Num(4))),
        )),
        Box::new(GenericWidth::Expr(
            Op::Add,
            Box::new(GenericWidth::Terminal(Terminal::Var(Identifier::from("N")))),
            Box::new(GenericWidth::Terminal(Terminal::Num(1))),
        )),
    );
    let expected = GenericWidth::Expr(
        Op::Add,
        Box::new(GenericWidth::Terminal(Terminal::Var(Identifier::from("N")))),
        Box::new(GenericWidth::Terminal(Terminal::Num(1))),
    );
    let actual = eval_expr(&input, &state);
    assert_eq!(actual, expected);
}

// N - C, N + D -> RHS if C < D
#[test]
fn test_expr_simplify_max_n_minus_c_n_plus_d_big_d() {
    let state = StrMap::new();
    let input = GenericWidth::Expr(
        Op::Max,
        Box::new(GenericWidth::Expr(
            Op::Sub,
            Box::new(GenericWidth::Terminal(Terminal::Var(Identifier::from("N")))),
            Box::new(GenericWidth::Terminal(Terminal::Num(5))),
        )),
        Box::new(GenericWidth::Expr(
            Op::Add,
            Box::new(GenericWidth::Terminal(Terminal::Var(Identifier::from("N")))),
            Box::new(GenericWidth::Terminal(Terminal::Num(99))),
        )),
    );
    let expected = GenericWidth::Expr(
        Op::Add,
        Box::new(GenericWidth::Terminal(Terminal::Var(Identifier::from("N")))),
        Box::new(GenericWidth::Terminal(Terminal::Num(99))),
    );
    let actual = eval_expr(&input, &state);
    assert_eq!(actual, expected);
}

// N - C, N + D -> RHS if C = D and C != 0
#[test]
fn test_expr_simplify_max_n_minus_c_n_plus_d_equal_nonzero() {
    let state = StrMap::new();
    let input = GenericWidth::Expr(
        Op::Max,
        Box::new(GenericWidth::Expr(
            Op::Sub,
            Box::new(GenericWidth::Terminal(Terminal::Var(Identifier::from("N")))),
            Box::new(GenericWidth::Terminal(Terminal::Num(3))),
        )),
        Box::new(GenericWidth::Expr(
            Op::Add,
            Box::new(GenericWidth::Terminal(Terminal::Var(Identifier::from("N")))),
            Box::new(GenericWidth::Terminal(Terminal::Num(3))),
        )),
    );
    let expected = GenericWidth::Expr(
        Op::Add,
        Box::new(GenericWidth::Terminal(Terminal::Var(Identifier::from("N")))),
        Box::new(GenericWidth::Terminal(Terminal::Num(3))),
    );
    let actual = eval_expr(&input, &state);
    assert_eq!(actual, expected);
}

// N - C, N + D -> EQ if C = D  and C = 0
#[test]
fn test_expr_simplify_max_n_minus_c_n_plus_d_equal_zero() {
    let state = StrMap::new();
    let input = GenericWidth::Expr(
        Op::Max,
        Box::new(GenericWidth::Expr(
            Op::Sub,
            Box::new(GenericWidth::Terminal(Terminal::Var(Identifier::from("N")))),
            Box::new(GenericWidth::Terminal(Terminal::Num(0))),
        )),
        Box::new(GenericWidth::Expr(
            Op::Add,
            Box::new(GenericWidth::Terminal(Terminal::Var(Identifier::from("N")))),
            Box::new(GenericWidth::Terminal(Terminal::Num(0))),
        )),
    );
    let expected = GenericWidth::Terminal(Terminal::Var(Identifier::from("N")));
    let actual = eval_expr(&input, &state);
    assert_eq!(actual, expected);
}

// N + C, N - D -> LHS if C = D and C == 0
#[test]
fn test_expr_simplify_max_n_plus_c_n_minus_d_equal_zero() {
    let state = StrMap::new();
    let input = GenericWidth::Expr(
        Op::Max,
        Box::new(GenericWidth::Expr(
            Op::Add,
            Box::new(GenericWidth::Terminal(Terminal::Var(Identifier::from("N")))),
            Box::new(GenericWidth::Terminal(Terminal::Num(0))),
        )),
        Box::new(GenericWidth::Expr(
            Op::Sub,
            Box::new(GenericWidth::Terminal(Terminal::Var(Identifier::from("N")))),
            Box::new(GenericWidth::Terminal(Terminal::Num(0))),
        )),
    );
    let expected = GenericWidth::Terminal(Terminal::Var(Identifier::from("N")));
    let actual = eval_expr(&input, &state);
    assert_eq!(actual, expected);
}

// N + C, N - D -> LHS if C > D
#[test]
fn test_expr_simplify_max_n_plus_c_n_minus_d_big_c() {
    let state = StrMap::new();
    let input = GenericWidth::Expr(
        Op::Max,
        Box::new(GenericWidth::Expr(
            Op::Add,
            Box::new(GenericWidth::Terminal(Terminal::Var(Identifier::from("N")))),
            Box::new(GenericWidth::Terminal(Terminal::Num(5))),
        )),
        Box::new(GenericWidth::Expr(
            Op::Sub,
            Box::new(GenericWidth::Terminal(Terminal::Var(Identifier::from("N")))),
            Box::new(GenericWidth::Terminal(Terminal::Num(3))),
        )),
    );
    let expected = GenericWidth::Expr(
        Op::Add,
        Box::new(GenericWidth::Terminal(Terminal::Var(Identifier::from("N")))),
        Box::new(GenericWidth::Terminal(Terminal::Num(5))),
    );
    let actual = eval_expr(&input, &state);
    assert_eq!(actual, expected);
}

// N + C, N - D -> LHS if D > C
#[test]
fn test_expr_simplify_max_n_plus_c_n_minus_d_big_d() {
    let state = StrMap::new();
    let input = GenericWidth::Expr(
        Op::Max,
        Box::new(GenericWidth::Expr(
            Op::Add,
            Box::new(GenericWidth::Terminal(Terminal::Var(Identifier::from("N")))),
            Box::new(GenericWidth::Terminal(Terminal::Num(5))),
        )),
        Box::new(GenericWidth::Expr(
            Op::Sub,
            Box::new(GenericWidth::Terminal(Terminal::Var(Identifier::from("N")))),
            Box::new(GenericWidth::Terminal(Terminal::Num(10))),
        )),
    );
    let expected = GenericWidth::Expr(
        Op::Add,
        Box::new(GenericWidth::Terminal(Terminal::Var(Identifier::from("N")))),
        Box::new(GenericWidth::Terminal(Terminal::Num(5))),
    );
    let actual = eval_expr(&input, &state);
    assert_eq!(actual, expected);
}

// N + C, N - D -> LHS if C = D and C != 0
#[test]
fn test_expr_simplify_max_n_plus_c_n_minus_d_equal_nonzero() {
    let state = StrMap::new();
    let input = GenericWidth::Expr(
        Op::Max,
        Box::new(GenericWidth::Expr(
            Op::Add,
            Box::new(GenericWidth::Terminal(Terminal::Var(Identifier::from("N")))),
            Box::new(GenericWidth::Terminal(Terminal::Num(5))),
        )),
        Box::new(GenericWidth::Expr(
            Op::Sub,
            Box::new(GenericWidth::Terminal(Terminal::Var(Identifier::from("N")))),
            Box::new(GenericWidth::Terminal(Terminal::Num(5))),
        )),
    );
    let expected = GenericWidth::Expr(
        Op::Add,
        Box::new(GenericWidth::Terminal(Terminal::Var(Identifier::from("N")))),
        Box::new(GenericWidth::Terminal(Terminal::Num(5))),
    );
    let actual = eval_expr(&input, &state);
    assert_eq!(actual, expected);
}

// N - C, N - D -> LHS if C = D and C == 0
#[test]
fn test_expr_simplify_max_n_minus_c_n_minus_d_equal_zero() {
    let state = StrMap::new();
    let input = GenericWidth::Expr(
        Op::Max,
        Box::new(GenericWidth::Expr(
            Op::Sub,
            Box::new(GenericWidth::Terminal(Terminal::Var(Identifier::from("N")))),
            Box::new(GenericWidth::Terminal(Terminal::Num(0))),
        )),
        Box::new(GenericWidth::Expr(
            Op::Sub,
            Box::new(GenericWidth::Terminal(Terminal::Var(Identifier::from("N")))),
            Box::new(GenericWidth::Terminal(Terminal::Num(0))),
        )),
    );
    let expected = GenericWidth::Terminal(Terminal::Var(Identifier::from("N")));
    let actual = eval_expr(&input, &state);
    assert_eq!(actual, expected);
}

// N - C, N - D -> LHS if C = D and C != 0
#[test]
fn test_expr_simplify_max_n_minus_c_n_minus_d_equal_nonzero() {
    let state = StrMap::new();
    let input = GenericWidth::Expr(
        Op::Max,
        Box::new(GenericWidth::Expr(
            Op::Sub,
            Box::new(GenericWidth::Terminal(Terminal::Var(Identifier::from("N")))),
            Box::new(GenericWidth::Terminal(Terminal::Num(3))),
        )),
        Box::new(GenericWidth::Expr(
            Op::Sub,
            Box::new(GenericWidth::Terminal(Terminal::Var(Identifier::from("N")))),
            Box::new(GenericWidth::Terminal(Terminal::Num(3))),
        )),
    );
    let expected = GenericWidth::Expr(
        Op::Sub,
        Box::new(GenericWidth::Terminal(Terminal::Var(Identifier::from("N")))),
        Box::new(GenericWidth::Terminal(Terminal::Num(3))),
    );
    let actual = eval_expr(&input, &state);
    assert_eq!(actual, expected);
}

// N - C, N - D -> RHS if C > D
#[test]
fn test_expr_simplify_max_n_minus_c_n_minus_d_big_c() {
    let state = StrMap::new();
    let input = GenericWidth::Expr(
        Op::Max,
        Box::new(GenericWidth::Expr(
            Op::Sub,
            Box::new(GenericWidth::Terminal(Terminal::Var(Identifier::from("N")))),
            Box::new(GenericWidth::Terminal(Terminal::Num(13))),
        )),
        Box::new(GenericWidth::Expr(
            Op::Sub,
            Box::new(GenericWidth::Terminal(Terminal::Var(Identifier::from("N")))),
            Box::new(GenericWidth::Terminal(Terminal::Num(3))),
        )),
    );
    let expected = GenericWidth::Expr(
        Op::Sub,
        Box::new(GenericWidth::Terminal(Terminal::Var(Identifier::from("N")))),
        Box::new(GenericWidth::Terminal(Terminal::Num(3))),
    );
    let actual = eval_expr(&input, &state);
    assert_eq!(actual, expected);
}

// N - C, N - D -> LHS if D > C
#[test]
fn test_expr_simplify_max_n_minus_c_n_minus_d_big_d() {
    let state = StrMap::new();
    let input = GenericWidth::Expr(
        Op::Max,
        Box::new(GenericWidth::Expr(
            Op::Sub,
            Box::new(GenericWidth::Terminal(Terminal::Var(Identifier::from("N")))),
            Box::new(GenericWidth::Terminal(Terminal::Num(3))),
        )),
        Box::new(GenericWidth::Expr(
            Op::Sub,
            Box::new(GenericWidth::Terminal(Terminal::Var(Identifier::from("N")))),
            Box::new(GenericWidth::Terminal(Terminal::Num(13))),
        )),
    );
    let expected = GenericWidth::Expr(
        Op::Sub,
        Box::new(GenericWidth::Terminal(Terminal::Var(Identifier::from("N")))),
        Box::new(GenericWidth::Terminal(Terminal::Num(3))),
    );
    let actual = eval_expr(&input, &state);
    assert_eq!(actual, expected);
}

#[test]
fn numeric_evaluation_matches_evaluation_over_numbers() {
    let n = || Box::new(GenericWidth::Terminal(Terminal::Var(Identifier::from("N"))));
    let input = GenericWidth::Expr(
        Op::Max,
        Box::new(GenericWidth::Expr(Op::Add, n(), Box::new(GenericWidth::Terminal(Terminal::Num(5))))),
        Box::new(GenericWidth::Expr(Op::Sub, n(), Box::new(GenericWidth::Terminal(Terminal::Num(3))))),
    );
    let mut numbers: StrMap<usize> = StrMap::new();
    numbers.insert(String::from("N"), 3);
    let mut widths: StrMap<GenericWidth> = StrMap::new();
    widths.insert(String::from("N"), GenericWidth::Terminal(Terminal::Num(3)));
    assert_eq!(eval_expr_numeric(&input, &numbers).unwrap(), 8);
    assert_eq!(eval_expr(&input, &widths), GenericWidth::Terminal(Terminal::Num(8)));
    let symbolic = eval_expr(&input, &StrMap::new());
    assert_eq!(symbolic, GenericWidth::Expr(Op::Add, n(), Box::new(GenericWidth::Terminal(Terminal::Num(5)))));
}
