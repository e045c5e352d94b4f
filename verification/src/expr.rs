//! Width expressions in HDL programs: bus indices, loop bounds and port widths.
//! HDL expressions are limited to addition and subtraction. The `Max` operator
//! supports "MAXIMUM" in synthesized VHDL expressions and cannot be written in HDL.
use crate::error::{ErrorKind, N2VError};
use crate::fmt::{decimal, push_decimal, push_str};
use crate::parser::Identifier;
use crate::strmap::StrMap;
use vstd::prelude::*;

verus! {

/// A width expression.
#[derive(Debug, PartialEq, Eq)]
pub enum GenericWidth {
    Expr(Op, Box<GenericWidth>, Box<GenericWidth>),
    Terminal(Terminal),
}

/// A leaf of a width expression: a variable or a number.
#[derive(Debug, PartialEq, Eq)]
pub enum Terminal {
    Var(Identifier),
    Num(usize),
}

/// Operators of width expressions.
#[derive(Clone, Copy, PartialEq, Eq, Structural, Hash, Debug)]
pub enum Op {
    Add,
    Sub,
    Max,
}

impl Clone for Terminal {
    fn clone(&self) -> (r: Self)
        ensures
            r == *self,
    {
        match self {
            Terminal::Var(v) => Terminal::Var(v.clone()),
            Terminal::Num(n) => Terminal::Num(*n),
        }
    }
}

impl Clone for GenericWidth {
    fn clone(&self) -> (r: Self)
        ensures
            r == *self,
        decreases self,
    {
        match self {
            GenericWidth::Expr(op, a, b) => GenericWidth::Expr(
                *op,
                Box::new((**a).clone()),
                Box::new((**b).clone()),
            ),
            GenericWidth::Terminal(t) => GenericWidth::Terminal(t.clone()),
        }
    }
}

impl GenericWidth {
    /// Whether the expression is a plain number.
    pub fn is_numeric(&self) -> (r: bool)
        ensures
            r == (*self matches GenericWidth::Terminal(Terminal::Num(_))),
    {
        matches!(self, GenericWidth::Terminal(Terminal::Num(_)))
    }
}

/// The number `n` as an expression.
pub open spec fn num(n: usize) -> GenericWidth {
    GenericWidth::Terminal(Terminal::Num(n))
}

/// The variable `v` as an expression.
pub open spec fn var(v: Identifier) -> GenericWidth {
    GenericWidth::Terminal(Terminal::Var(v))
}

/// `a + b`, folded when both are numbers; `None` where the sum overflows.
pub open spec fn spec_add(a: GenericWidth, b: GenericWidth) -> Option<GenericWidth> {
    match (a, b) {
        (GenericWidth::Terminal(Terminal::Num(x)), GenericWidth::Terminal(Terminal::Num(y))) => {
            if x + y <= usize::MAX {
                Some(num((x + y) as usize))
            } else {
                None
            }
        },
        _ => Some(GenericWidth::Expr(Op::Add, Box::new(a), Box::new(b))),
    }
}

/// `a - b`, folded when both are numbers; `None` where the difference is negative.
pub open spec fn spec_sub(a: GenericWidth, b: GenericWidth) -> Option<GenericWidth> {
    match (a, b) {
        (GenericWidth::Terminal(Terminal::Num(x)), GenericWidth::Terminal(Terminal::Num(y))) => {
            if x >= y {
                Some(num((x - y) as usize))
            } else {
                None
            }
        },
        _ => Some(GenericWidth::Expr(Op::Sub, Box::new(a), Box::new(b))),
    }
}

/// Adds two expressions, folding two numbers into one.
pub fn width_add(a: &GenericWidth, b: &GenericWidth) -> (r: GenericWidth)
    requires
        spec_add(*a, *b) is Some,
    ensures
        Some(r) == spec_add(*a, *b),
{
    if let GenericWidth::Terminal(Terminal::Num(x)) = a {
        if let GenericWidth::Terminal(Terminal::Num(y)) = b {
            return GenericWidth::Terminal(Terminal::Num(*x + *y));
        }
    }
    GenericWidth::Expr(Op::Add, Box::new(a.clone()), Box::new(b.clone()))
}

/// Subtracts two expressions, folding two numbers into one.
pub fn width_sub(a: &GenericWidth, b: &GenericWidth) -> (r: GenericWidth)
    requires
        spec_sub(*a, *b) is Some,
    ensures
        Some(r) == spec_sub(*a, *b),
{
    if let GenericWidth::Terminal(Terminal::Num(x)) = a {
        if let GenericWidth::Terminal(Terminal::Num(y)) = b {
            return GenericWidth::Terminal(Terminal::Num(*x - *y));
        }
    }
    GenericWidth::Expr(Op::Sub, Box::new(a.clone()), Box::new(b.clone()))
}

/// `(op, N, C)` for an expression `N op C` of a variable and a number.
pub open spec fn linear_parts(w: GenericWidth) -> Option<(Op, Identifier, usize)> {
    match w {
        GenericWidth::Expr(op, a, b) => match (*a, *b) {
            (GenericWidth::Terminal(Terminal::Var(n)), GenericWidth::Terminal(Terminal::Num(c))) => {
                Some((op, n, c))
            },
            _ => None,
        },
        _ => None,
    }
}

/// Whether `a` and `b` name the same variable, whatever file or line they came from.
pub open spec fn same_name(a: Identifier, b: Identifier) -> bool {
    a.value@ == b.value@
}

/// The maximum of two simplified expressions, where the simplification rules
/// can decide it; `None` where they cannot (as for `MAX(X, Y)`).
pub open spec fn spec_eval_max(t1: GenericWidth, t2: GenericWidth) -> Option<GenericWidth> {
    match (t1, t2) {
        // C, D -> the larger number
        (GenericWidth::Terminal(Terminal::Num(n1)), GenericWidth::Terminal(Terminal::Num(n2))) => {
            Some(num(if n1 >= n2 { n1 } else { n2 }))
        },
        // N, N -> N
        (GenericWidth::Terminal(Terminal::Var(n1)), GenericWidth::Terminal(Terminal::Var(n2))) => {
            if same_name(n1, n2) {
                Some(t1)
            } else {
                None
            }
        },
        // N, D -> N
        (GenericWidth::Terminal(Terminal::Var(_)), GenericWidth::Terminal(Terminal::Num(_))) => Some(
            t1,
        ),
        // D, N -> N
        (GenericWidth::Terminal(Terminal::Num(_)), GenericWidth::Terminal(Terminal::Var(_))) => Some(
            t2,
        ),
        // N op C, D -> N op C
        (_, GenericWidth::Terminal(Terminal::Num(_))) => match linear_parts(t1) {
            Some((op, _, _)) => if op != Op::Max {
                Some(t1)
            } else {
                None
            },
            None => None,
        },
        // D, N op C -> N op C
        (GenericWidth::Terminal(Terminal::Num(_)), _) => match linear_parts(t2) {
            Some((op, _, _)) => if op != Op::Max {
                Some(t2)
            } else {
                None
            },
            None => None,
        },
        // N, N - C -> N and N, N + C -> N + C
        (GenericWidth::Terminal(Terminal::Var(n2)), _) => match linear_parts(t2) {
            Some((op, n1, _)) => if same_name(n1, n2) && op == Op::Sub {
                Some(t1)
            } else if same_name(n1, n2) && op == Op::Add {
                Some(t2)
            } else {
                None
            },
            None => None,
        },
        // N - C, N -> N and N + C, N -> N + C
        (_, GenericWidth::Terminal(Terminal::Var(n2))) => match linear_parts(t1) {
            Some((op, n1, _)) => if same_name(n1, n2) && op == Op::Sub {
                Some(t2)
            } else if same_name(n1, n2) && op == Op::Add {
                Some(t1)
            } else {
                None
            },
            None => None,
        },
        // N op1 C, N op2 D
        _ => match (linear_parts(t1), linear_parts(t2)) {
            (Some((op1, n1, c)), Some((op2, n2, d))) => {
                if !same_name(n1, n2) || op1 == Op::Max || op2 == Op::Max {
                    None
                } else if c == 0 && d == 0 {
                    Some(var(n1))
                } else if op1 == Op::Add && op2 == Op::Add {
                    if c >= d {
                        Some(t1)
                    } else {
                        Some(t2)
                    }
                } else if op1 == Op::Sub && op2 == Op::Add {
                    Some(t2)
                } else if op1 == Op::Add && op2 == Op::Sub {
                    Some(t1)
                } else {
                    // N - C, N - D: the smaller subtrahend wins
                    if c > d {
                        Some(t2)
                    } else {
                        Some(t1)
                    }
                }
            },
            _ => None,
        },
    }
}

/// Whether two identifiers name the same variable, whatever file and line
/// they come from.
fn same_variable_name(a: &Identifier, b: &Identifier) -> (r: bool)
    ensures
        r == same_name(*a, *b),
{
    a.value == b.value
}

/// The linear parts of an expression, read from the value.
fn get_linear_parts(w: &GenericWidth) -> (r: Option<(Op, &Identifier, usize)>)
    ensures
        match r {
            Some((op, n, c)) => linear_parts(*w) == Some((op, *n, c)),
            None => linear_parts(*w) is None,
        },
{
    match w {
        GenericWidth::Expr(op, a, b) => match (&**a, &**b) {
            (GenericWidth::Terminal(Terminal::Var(n)), GenericWidth::Terminal(Terminal::Num(c))) => {
                Some((*op, n, *c))
            },
            _ => None,
        },
        _ => None,
    }
}

/// Simplifies `MAX(t1, t2)` for already simplified operands.
fn eval_max(t1: GenericWidth, t2: GenericWidth) -> (r: GenericWidth)
    requires
        spec_eval_max(t1, t2) is Some,
    ensures
        Some(r) == spec_eval_max(t1, t2),
{
    // Constant compared with constant
    if let GenericWidth::Terminal(Terminal::Num(n1)) = &t1 {
        if let GenericWidth::Terminal(Terminal::Num(n2)) = &t2 {
            return GenericWidth::Terminal(Terminal::Num(if *n1 >= *n2 { *n1 } else { *n2 }));
        }
    }
    // N, N -> LHS
    if let GenericWidth::Terminal(Terminal::Var(n1)) = &t1 {
        if let GenericWidth::Terminal(Terminal::Var(n2)) = &t2 {
            if same_variable_name(n1, n2) {
                return t1;
            }
        }
    }
    // N, D -> LHS
    if let GenericWidth::Terminal(Terminal::Var(_)) = &t1 {
        if let GenericWidth::Terminal(Terminal::Num(_)) = &t2 {
            return t1;
        }
    }
    // D, N -> RHS
    if let GenericWidth::Terminal(Terminal::Num(_)) = &t1 {
        if let GenericWidth::Terminal(Terminal::Var(_)) = &t2 {
            return t2;
        }
    }
    // N op C, D -> LHS
    if let GenericWidth::Terminal(Terminal::Num(_)) = &t2 {
        return t1;
    }
    // D, N op C -> RHS
    if let GenericWidth::Terminal(Terminal::Num(_)) = &t1 {
        return t2;
    }
    let lp1 = get_linear_parts(&t1);
    let lp2 = get_linear_parts(&t2);
    // N, N - C -> LHS and N, N + C -> RHS
    if let GenericWidth::Terminal(Terminal::Var(_)) = &t1 {
        if let Some((op, _, _)) = lp2 {
            if op == Op::Sub {
                return t1;
            }
        }
        return t2;
    }
    // N - C, N -> RHS and N + C, N -> LHS
    if let GenericWidth::Terminal(Terminal::Var(_)) = &t2 {
        if let Some((op, _, _)) = lp1 {
            if op == Op::Sub {
                return t2;
            }
        }
        return t1;
    }
    match (lp1, lp2) {
        (Some((op1, n1, c)), Some((op2, _, d))) => {
            if c == 0 && d == 0 {
                GenericWidth::Terminal(Terminal::Var(n1.clone()))
            } else if op1 == Op::Add && op2 == Op::Add {
                if c >= d {
                    t1
                } else {
                    t2
                }
            } else if op1 == Op::Sub && op2 == Op::Add {
                t2
            } else if op1 == Op::Add && op2 == Op::Sub {
                t1
            } else if c > d {
                t2
            } else {
                t1
            }
        },
        _ => t1,
    }
}

/// A variable's value from `state`, or the variable itself where it is unbound.
pub open spec fn spec_eval_terminal(t: Terminal, state: Map<Seq<char>, GenericWidth>) -> GenericWidth {
    match t {
        Terminal::Num(_) => GenericWidth::Terminal(t),
        Terminal::Var(v) => if state.contains_key(v.value@) {
            state[v.value@]
        } else {
            GenericWidth::Terminal(t)
        },
    }
}

/// `(N op C) + D` with the constants folded together.
pub open spec fn spec_collapse_add(op: Op, x: Identifier, c: usize, d: usize) -> Option<GenericWidth> {
    match op {
        // (N - C) + D = N + (D - C) if D > C, N - (C - D) if C > D, N if C = D
        Op::Sub => if d > c {
            Some(GenericWidth::Expr(Op::Add, Box::new(var(x)), Box::new(num((d - c) as usize))))
        } else if d < c {
            Some(GenericWidth::Expr(Op::Sub, Box::new(var(x)), Box::new(num((c - d) as usize))))
        } else {
            Some(var(x))
        },
        // (N + C) + D = N + (C + D)
        Op::Add => if c + d <= usize::MAX {
            Some(GenericWidth::Expr(Op::Add, Box::new(var(x)), Box::new(num((c + d) as usize))))
        } else {
            None
        },
        Op::Max => None,
    }
}

/// `(N op C) - D` with the constants folded together.
pub open spec fn spec_collapse_sub(op: Op, x: Identifier, c: usize, d: usize) -> Option<GenericWidth> {
    match op {
        // (N + C) - D = N + (C - D) if C > D, N - (D - C) if C < D, N if C = D
        Op::Add => if c > d {
            Some(GenericWidth::Expr(Op::Add, Box::new(var(x)), Box::new(num((c - d) as usize))))
        } else if c < d {
            Some(GenericWidth::Expr(Op::Sub, Box::new(var(x)), Box::new(num((d - c) as usize))))
        } else {
            Some(var(x))
        },
        // (N - C) - D = N - (C + D)
        Op::Sub => if c + d <= usize::MAX {
            Some(GenericWidth::Expr(Op::Sub, Box::new(var(x)), Box::new(num((c + d) as usize))))
        } else {
            None
        },
        Op::Max => None,
    }
}

/// The normalizations applied to every evaluated expression: `C + N` becomes
/// `N + C`, and the constants of `(N op C) + D` and `(N op C) - D` are folded.
pub open spec fn spec_simplify(res: GenericWidth) -> Option<GenericWidth> {
    match res {
        GenericWidth::Expr(Op::Add, l, r) => match (*l, *r) {
            (GenericWidth::Terminal(Terminal::Num(_)), GenericWidth::Terminal(Terminal::Var(_))) => {
                Some(GenericWidth::Expr(Op::Add, r, l))
            },
            (lhs, GenericWidth::Terminal(Terminal::Num(d))) => match linear_parts(lhs) {
                Some((op, x, c)) => spec_collapse_add(op, x, c, d),
                None => Some(res),
            },
            _ => Some(res),
        },
        GenericWidth::Expr(Op::Sub, l, r) => match *r {
            GenericWidth::Terminal(Terminal::Num(d)) => match linear_parts(*l) {
                Some((op, x, c)) => spec_collapse_sub(op, x, c, d),
                None => Some(res),
            },
            _ => Some(res),
        },
        _ => Some(res),
    }
}

/// Applies an operator to two evaluated operands.
pub open spec fn spec_combine(op: Op, a: GenericWidth, b: GenericWidth) -> Option<GenericWidth> {
    match op {
        Op::Add => spec_add(a, b),
        Op::Sub => spec_sub(a, b),
        Op::Max => spec_eval_max(a, b),
    }
}

/// The result of evaluating `e` with the variables bound in `state`; `None`
/// where evaluation fails (a negative or overflowing constant, an undecidable
/// maximum, or a maximum inside a sum that is folded).
pub open spec fn spec_eval_expr(e: GenericWidth, state: Map<Seq<char>, GenericWidth>) -> Option<
    GenericWidth,
>
    decreases e,
{
    match e {
        GenericWidth::Terminal(t) => spec_simplify(spec_eval_terminal(t, state)),
        GenericWidth::Expr(op, a, b) => match (spec_eval_expr(*a, state), spec_eval_expr(*b, state)) {
            (Some(x), Some(y)) => match spec_combine(op, x, y) {
                Some(r) => spec_simplify(r),
                None => None,
            },
            _ => None,
        },
    }
}

fn eval_terminal(terminal: &Terminal, state: &StrMap<GenericWidth>) -> (r: GenericWidth)
    ensures
        r == spec_eval_terminal(*terminal, state.map()),
{
    match terminal {
        Terminal::Num(_) => GenericWidth::Terminal(terminal.clone()),
        Terminal::Var(v) => match state.get(v.value.as_str()) {
            None => GenericWidth::Terminal(terminal.clone()),
            Some(x) => x.clone(),
        },
    }
}

fn collapse_add(op: Op, x: &Identifier, c: usize, d: usize) -> (r: GenericWidth)
    requires
        spec_collapse_add(op, *x, c, d) is Some,
    ensures
        Some(r) == spec_collapse_add(op, *x, c, d),
{
    let n = GenericWidth::Terminal(Terminal::Var(x.clone()));
    match op {
        Op::Sub => {
            if d > c {
                GenericWidth::Expr(Op::Add, Box::new(n), Box::new(GenericWidth::Terminal(Terminal::Num(d - c))))
            } else if d < c {
                GenericWidth::Expr(Op::Sub, Box::new(n), Box::new(GenericWidth::Terminal(Terminal::Num(c - d))))
            } else {
                n
            }
        },
        _ => GenericWidth::Expr(Op::Add, Box::new(n), Box::new(GenericWidth::Terminal(Terminal::Num(c + d)))),
    }
}

fn collapse_sub(op: Op, x: &Identifier, c: usize, d: usize) -> (r: GenericWidth)
    requires
        spec_collapse_sub(op, *x, c, d) is Some,
    ensures
        Some(r) == spec_collapse_sub(op, *x, c, d),
{
    let n = GenericWidth::Terminal(Terminal::Var(x.clone()));
    match op {
        Op::Add => {
            if c > d {
                GenericWidth::Expr(Op::Add, Box::new(n), Box::new(GenericWidth::Terminal(Terminal::Num(c - d))))
            } else if c < d {
                GenericWidth::Expr(Op::Sub, Box::new(n), Box::new(GenericWidth::Terminal(Terminal::Num(d - c))))
            } else {
                n
            }
        },
        _ => GenericWidth::Expr(Op::Sub, Box::new(n), Box::new(GenericWidth::Terminal(Terminal::Num(c + d)))),
    }
}

fn simplify(res: GenericWidth) -> (r: GenericWidth)
    requires
        spec_simplify(res) is Some,
    ensures
        Some(r) == spec_simplify(res),
{
    let rewritten: Option<GenericWidth> = match &res {
        GenericWidth::Expr(Op::Add, l, r) => {
            if let (GenericWidth::Terminal(Terminal::Num(_)), GenericWidth::Terminal(Terminal::Var(_))) = (&**l, &**r) {
                Some(GenericWidth::Expr(Op::Add, Box::new((**r).clone()), Box::new((**l).clone())))
            } else if let GenericWidth::Terminal(Terminal::Num(d)) = &**r {
                match get_linear_parts(&**l) {
                    Some((op, x, c)) => Some(collapse_add(op, x, c, *d)),
                    None => None,
                }
            } else {
                None
            }
        },
        GenericWidth::Expr(Op::Sub, l, r) => {
            if let GenericWidth::Terminal(Terminal::Num(d)) = &**r {
                match get_linear_parts(&**l) {
                    Some((op, x, c)) => Some(collapse_sub(op, x, c, *d)),
                    None => None,
                }
            } else {
                None
            }
        },
        _ => None,
    };
    match rewritten {
        Some(w) => w,
        None => res,
    }
}

/// Evaluates a width expression based on the current state of variables.
pub fn eval_expr(expr: &GenericWidth, state: &StrMap<GenericWidth>) -> (r: GenericWidth)
    requires
        spec_eval_expr(*expr, state.map()) is Some,
    ensures
        Some(r) == spec_eval_expr(*expr, state.map()),
    decreases expr,
{
    let res = match expr {
        GenericWidth::Terminal(t) => eval_terminal(t, state),
        GenericWidth::Expr(op, t1, t2) => {
            let x = eval_expr(t1, state);
            let y = eval_expr(t2, state);
            match op {
                Op::Add => width_add(&x, &y),
                Op::Sub => width_sub(&x, &y),
                Op::Max => eval_max(x, y),
            }
        },
    };
    simplify(res)
}

/// How a terminal is written: a variable by its name, a number in decimal.
pub open spec fn terminal_text(t: Terminal) -> Seq<char> {
    match t {
        Terminal::Var(v) => v.value@,
        Terminal::Num(n) => decimal(n as nat),
    }
}

/// How an expression is written: `(a + b)`, `(a - b)` or `MAXIMUM(a, b)`.
pub open spec fn width_text(w: GenericWidth) -> Seq<char>
    decreases w,
{
    match w {
        GenericWidth::Terminal(t) => terminal_text(t),
        GenericWidth::Expr(op, a, b) => match op {
            Op::Add => "("@ + width_text(*a) + " + "@ + width_text(*b) + ")"@,
            Op::Sub => "("@ + width_text(*a) + " - "@ + width_text(*b) + ")"@,
            Op::Max => "MAXIMUM("@ + width_text(*a) + ", "@ + width_text(*b) + ")"@,
        },
    }
}

impl Terminal {
    pub fn write_to(&self, s: &mut String)
        ensures
            final(s)@ == old(s)@ + terminal_text(*self),
    {
        match self {
            Terminal::Var(v) => push_str(s, v.value.as_str()),
            Terminal::Num(n) => push_decimal(s, *n),
        }
    }

    /// The terminal as text.
    pub fn to_string(&self) -> (r: String)
        ensures
            r@ == terminal_text(*self),
    {
        let mut s = String::new();
        self.write_to(&mut s);
        assert(s@ =~= terminal_text(*self));
        s
    }
}

impl GenericWidth {
    pub fn write_to(&self, s: &mut String)
        ensures
            final(s)@ == old(s)@ + width_text(*self),
        decreases self,
    {
        match self {
            GenericWidth::Terminal(t) => t.write_to(s),
            GenericWidth::Expr(op, a, b) => {
                let ghost s0 = s@;
                match op {
                    Op::Add => push_str(s, "("),
                    Op::Sub => push_str(s, "("),
                    Op::Max => push_str(s, "MAXIMUM("),
                }
                a.write_to(s);
                match op {
                    Op::Add => push_str(s, " + "),
                    Op::Sub => push_str(s, " - "),
                    Op::Max => push_str(s, ", "),
                }
                b.write_to(s);
                push_str(s, ")");
                proof {
                    match op {
                        Op::Add => assert(s@ =~= s0 + ("("@ + width_text(**a) + " + "@ + width_text(**b) + ")"@)),
                        Op::Sub => assert(s@ =~= s0 + ("("@ + width_text(**a) + " - "@ + width_text(**b) + ")"@)),
                        Op::Max => assert(s@ =~= s0 + ("MAXIMUM("@ + width_text(**a) + ", "@ + width_text(**b) + ")"@)),
                    }
                }
            },
        }
    }

    /// The expression as text, as it appears in synthesized VHDL.
    pub fn to_string(&self) -> (r: String)
        ensures
            r@ == width_text(*self),
    {
        let mut s = String::new();
        self.write_to(&mut s);
        assert(s@ =~= width_text(*self));
        s
    }
}

/// `state` with every value written as a number expression.
pub open spec fn numeric_state(state: Map<Seq<char>, usize>) -> Map<Seq<char>, GenericWidth> {
    state.map_values(|v: usize| num(v))
}

/// Evaluates an expression and requires the result to be a number, with all
/// variables removed.
pub fn eval_expr_numeric(expr: &GenericWidth, state: &StrMap<usize>) -> (r: Result<usize, N2VError>)
    requires
        spec_eval_expr(*expr, numeric_state(state.map())) is Some,
    ensures
        match r {
            Ok(x) => spec_eval_expr(*expr, numeric_state(state.map())) == Some(num(x)),
            Err(e) => {
                &&& !(spec_eval_expr(*expr, numeric_state(state.map())).unwrap() matches GenericWidth::Terminal(Terminal::Num(_)))
                &&& e.kind is NonNumeric
                &&& e.msg@ == "Expression "@ + width_text(*expr) + " is non-numeric"@
            },
        },
{
    let mut general_state: StrMap<GenericWidth> = StrMap::new();
    let n = state.len();
    let mut i: usize = 0;
    proof {
        use_type_invariant(state);
        assert(state.keys().subrange(0, 0).to_set() =~= Set::empty());
        assert(general_state.map() =~= numeric_state(state.map()).restrict(Set::empty()));
    }
    while i < n
        invariant
            n == state.keys().len(),
            i <= n,
            state.wf(),
            general_state.map() == numeric_state(state.map()).restrict(state.keys().subrange(0, i as int).to_set()),
        decreases n - i,
    {
        let k = state.key_at(i).clone();
        let v = *state.value_at(i);
        let ghost before = general_state.map();
        general_state.insert(k, GenericWidth::Terminal(Terminal::Num(v)));
        proof {
            state.lemma_layout();
            assert(state.map()[state.keys()[i as int]] == v);
            assert(state.keys().subrange(0, i + 1) =~= state.keys().subrange(0, i as int).push(state.keys()[i as int]));
            state.keys().subrange(0, i as int).lemma_push_to_set_commute(state.keys()[i as int]);
            assert(general_state.map() =~= numeric_state(state.map()).restrict(state.keys().subrange(0, i + 1).to_set()));
        }
        i = i + 1;
    }
    proof {
        use_type_invariant(state);
        state.lemma_layout();
        assert(state.keys().subrange(0, n as int) =~= state.keys());
        assert(numeric_state(state.map()).dom() =~= state.keys().to_set());
        assert(general_state.map() =~= numeric_state(state.map()));
    }
    let res = eval_expr(expr, &general_state);
    if let GenericWidth::Terminal(Terminal::Num(x)) = res {
        Ok(x)
    } else {
        let mut msg = String::new();
        push_str(&mut msg, "Expression ");
        expr.write_to(&mut msg);
        push_str(&mut msg, " is non-numeric");
        assert(msg@ =~= "Expression "@ + width_text(*expr) + " is non-numeric"@);
        Err(N2VError { msg, kind: ErrorKind::NonNumeric })
    }
}

/// `w` with every variable named `m` replaced by `r`.
pub open spec fn spec_replace(w: GenericWidth, m: Seq<char>, r: GenericWidth) -> GenericWidth
    decreases w,
{
    match w {
        GenericWidth::Terminal(Terminal::Var(v)) => if v.value@ == m {
            r
        } else {
            w
        },
        GenericWidth::Terminal(Terminal::Num(_)) => w,
        GenericWidth::Expr(op, a, b) => GenericWidth::Expr(
            op,
            Box::new(spec_replace(*a, m, r)),
            Box::new(spec_replace(*b, m, r)),
        ),
    }
}

/// Substitutes `r` for the variable named `m`.
pub fn replace_expr(w: &GenericWidth, m: &String, r: &GenericWidth) -> (res: GenericWidth)
    ensures
        res == spec_replace(*w, m@, *r),
    decreases w,
{
    match w {
        GenericWidth::Terminal(t) => replace_term(t, m, r),
        GenericWidth::Expr(op, w1, w2) => GenericWidth::Expr(
            *op,
            Box::new(replace_expr(w1, m, r)),
            Box::new(replace_expr(w2, m, r)),
        ),
    }
}

/// Substitutes `r` for a terminal that is the variable named `m`.
fn replace_term(t: &Terminal, m: &String, r: &GenericWidth) -> (res: GenericWidth)
    ensures
        res == spec_replace(GenericWidth::Terminal(*t), m@, *r),
{
    match t {
        Terminal::Num(_) => GenericWidth::Terminal(t.clone()),
        Terminal::Var(v) => {
            if v.value == *m {
                r.clone()
            } else {
                GenericWidth::Terminal(t.clone())
            }
        },
    }
}

/// The integer that `w` denotes when each variable named `k` stands for `env(k)`,
/// with `Max` read as the larger of its operands.
pub open spec fn width_value(w: GenericWidth, env: spec_fn(Seq<char>) -> int) -> int
    decreases w,
{
    match w {
        GenericWidth::Terminal(Terminal::Num(n)) => n as int,
        GenericWidth::Terminal(Terminal::Var(v)) => env(v.value@),
        GenericWidth::Expr(op, a, b) => {
            let x = width_value(*a, env);
            let y = width_value(*b, env);
            match op {
                Op::Add => x + y,
                Op::Sub => x - y,
                Op::Max => if x >= y {
                    x
                } else {
                    y
                },
            }
        },
    }
}

/// Whether `w` contains the `Max` operator.
pub open spec fn has_max(w: GenericWidth) -> bool
    decreases w,
{
    match w {
        GenericWidth::Terminal(_) => false,
        GenericWidth::Expr(op, a, b) => op == Op::Max || has_max(*a) || has_max(*b),
    }
}

/// The environment in which the variables bound in `state` stand for the values of
/// their expressions, and the other variables for their values in `env`.
pub open spec fn bound_env(state: Map<Seq<char>, GenericWidth>, env: spec_fn(Seq<char>) -> int) -> spec_fn(Seq<char>) -> int {
    |k: Seq<char>| if state.contains_key(k) {
        width_value(state[k], env)
    } else {
        env(k)
    }
}

/// Whether every variable of `w` is bound in `state`.
pub open spec fn vars_bound(w: GenericWidth, state: Map<Seq<char>, GenericWidth>) -> bool
    decreases w,
{
    match w {
        GenericWidth::Terminal(Terminal::Num(_)) => true,
        GenericWidth::Terminal(Terminal::Var(v)) => state.contains_key(v.value@),
        GenericWidth::Expr(_, a, b) => vars_bound(*a, state) && vars_bound(*b, state),
    }
}

/// The shape of every result of evaluation: no `Max`, no two numbers combined,
/// no `C + N`, and no constant added to or taken from `N op C`.
pub open spec fn is_normal(w: GenericWidth) -> bool
    decreases w,
{
    match w {
        GenericWidth::Terminal(_) => true,
        GenericWidth::Expr(op, a, b) => {
            &&& op != Op::Max
            &&& is_normal(*a)
            &&& is_normal(*b)
            &&& !((*a matches GenericWidth::Terminal(Terminal::Num(_))) && (*b matches GenericWidth::Terminal(Terminal::Num(_))))
            &&& !(op == Op::Add && (*a matches GenericWidth::Terminal(Terminal::Num(_))) && (*b matches GenericWidth::Terminal(Terminal::Var(_))))
            &&& !(linear_parts(*a) is Some && (*b matches GenericWidth::Terminal(Terminal::Num(_))))
        },
    }
}

proof fn lemma_linear_value(l: GenericWidth, env: spec_fn(Seq<char>) -> int)
    requires
        linear_parts(l) is Some,
        linear_parts(l).unwrap().0 != Op::Max,
    ensures
        width_value(l, env) == if linear_parts(l).unwrap().0 == Op::Add {
            env(linear_parts(l).unwrap().1.value@) + linear_parts(l).unwrap().2
        } else {
            env(linear_parts(l).unwrap().1.value@) - linear_parts(l).unwrap().2
        },
{
    if let GenericWidth::Expr(op, a, b) = l {
        assert(width_value(*a, env) == env(linear_parts(l).unwrap().1.value@));
        assert(width_value(*b, env) == linear_parts(l).unwrap().2);
    }
}

proof fn lemma_simplify_value(w: GenericWidth, env: spec_fn(Seq<char>) -> int)
    requires
        spec_simplify(w) is Some,
    ensures
        width_value(spec_simplify(w).unwrap(), env) == width_value(w, env),
{
    match w {
        GenericWidth::Expr(Op::Add, l, r) => {
            let res = spec_simplify(w).unwrap();
            assert(width_value(w, env) == width_value(*l, env) + width_value(*r, env));
            if (*l matches GenericWidth::Terminal(Terminal::Num(_))) && (*r matches GenericWidth::Terminal(Terminal::Var(_))) {
                assert(res == GenericWidth::Expr(Op::Add, r, l));
                assert(width_value(res, env) == width_value(*r, env) + width_value(*l, env));
                            assert(width_value(res, env) == width_value(w, env));
            } else if let GenericWidth::Terminal(Terminal::Num(d)) = *r {
                if let Some((op, x, c)) = linear_parts(*l) {
                    lemma_linear_value(*l, env);
                    assert(width_value(var(x), env) == env(x.value@));
                    assert(width_value(*r, env) == d);
                    if op == Op::Sub {
                        if d > c {
                            assert(width_value(num((d - c) as usize), env) == d - c);
                            assert(width_value(res, env) == env(x.value@) + (d - c));
                            assert(width_value(res, env) == width_value(w, env));
                        } else if d < c {
                            assert(width_value(num((c - d) as usize), env) == c - d);
                            assert(width_value(res, env) == env(x.value@) - (c - d));
                            assert(width_value(res, env) == width_value(w, env));
                        } else {
                            assert(res == var(x));
                            assert(width_value(res, env) == width_value(w, env));
                        }
                    } else {
                        assert(width_value(num((c + d) as usize), env) == c + d);
                        assert(width_value(res, env) == env(x.value@) + (c + d));
                            assert(width_value(res, env) == width_value(w, env));
                    }
                } else {
                    assert(res == w);
                }
            } else {
                assert(res == w);
            }
        },
        GenericWidth::Expr(Op::Sub, l, r) => {
            let res = spec_simplify(w).unwrap();
            if let GenericWidth::Terminal(Terminal::Num(d)) = *r {
                if let Some((op, x, c)) = linear_parts(*l) {
                    lemma_linear_value(*l, env);
                    assert(width_value(var(x), env) == env(x.value@));
                    assert(width_value(*r, env) == d);
                    if op == Op::Add {
                        if c > d {
                            assert(width_value(num((c - d) as usize), env) == c - d);
                        } else if c < d {
                            assert(width_value(num((d - c) as usize), env) == d - c);
                        }
                    } else {
                        assert(width_value(num((c + d) as usize), env) == c + d);
                    }
                } else {
                    assert(res == w);
                }
            } else {
                assert(res == w);
            }
            assert(width_value(res, env) == width_value(w, env));
        },
        _ => {
            assert(spec_simplify(w) == Some(w));
        },
    }
}

/// Evaluation preserves meaning: where it succeeds on an expression without
/// `Max`, the result denotes the same integer as the expression, in every
/// environment, once the bound variables stand for their expressions.
pub proof fn lemma_eval_preserves_value(
    e: GenericWidth,
    state: Map<Seq<char>, GenericWidth>,
    env: spec_fn(Seq<char>) -> int,
)
    requires
        spec_eval_expr(e, state) is Some,
        !has_max(e),
    ensures
        width_value(spec_eval_expr(e, state).unwrap(), env) == width_value(e, bound_env(state, env)),
    decreases e,
{
    match e {
        GenericWidth::Terminal(t) => {
            lemma_simplify_value(spec_eval_terminal(t, state), env);
        },
        GenericWidth::Expr(op, a, b) => {
            lemma_eval_preserves_value(*a, state, env);
            lemma_eval_preserves_value(*b, state, env);
            let x = spec_eval_expr(*a, state).unwrap();
            let y = spec_eval_expr(*b, state).unwrap();
            lemma_simplify_value(spec_combine(op, x, y).unwrap(), env);
        },
    }
}

/// Where every variable is bound to a number, evaluation yields a number: the
/// integer that the expression denotes.
pub proof fn lemma_eval_bound_is_numeric(
    e: GenericWidth,
    state: Map<Seq<char>, GenericWidth>,
    env: spec_fn(Seq<char>) -> int,
)
    requires
        spec_eval_expr(e, state) is Some,
        forall|k: Seq<char>| #[trigger] state.contains_key(k) ==> (state[k] matches GenericWidth::Terminal(Terminal::Num(_))),
        vars_bound(e, state),
    ensures
        spec_eval_expr(e, state).unwrap() matches GenericWidth::Terminal(Terminal::Num(_)),
        width_value(spec_eval_expr(e, state).unwrap(), env) == width_value(e, bound_env(state, env)),
    decreases e,
{
    match e {
        GenericWidth::Terminal(t) => {
            if let Terminal::Var(v) = t {
                assert(state.contains_key(v.value@));
            }
        },
        GenericWidth::Expr(op, a, b) => {
            lemma_eval_bound_is_numeric(*a, state, env);
            lemma_eval_bound_is_numeric(*b, state, env);
        },
    }
}

proof fn lemma_normal_simplify(w: GenericWidth)
    requires
        is_normal(w),
    ensures
        spec_simplify(w) == Some(w),
{
}

proof fn lemma_simplify_normal(w: GenericWidth)
    requires
        spec_simplify(w) is Some,
        match w {
            GenericWidth::Terminal(_) => true,
            GenericWidth::Expr(op, a, b) => {
                &&& op != Op::Max
                &&& is_normal(*a)
                &&& is_normal(*b)
                &&& !((*a matches GenericWidth::Terminal(Terminal::Num(_))) && (*b matches GenericWidth::Terminal(Terminal::Num(_))))
            },
        },
    ensures
        is_normal(spec_simplify(w).unwrap()),
{
    match w {
        GenericWidth::Expr(op, a, b) => {
            let r = spec_simplify(w).unwrap();
            if r != w {
                match r {
                    GenericWidth::Expr(op2, a2, b2) => {
                        assert(*a2 matches GenericWidth::Terminal(Terminal::Var(_)));
                        assert(*b2 matches GenericWidth::Terminal(Terminal::Num(_)));
                        assert(is_normal(*a2));
                        assert(is_normal(*b2));
                        assert(linear_parts(*a2) is None);
                    },
                    _ => {},
                }
            }
        },
        _ => {},
    }
}

proof fn lemma_combine_normal(op: Op, x: GenericWidth, y: GenericWidth)
    requires
        is_normal(x),
        is_normal(y),
        spec_combine(op, x, y) is Some,
        spec_simplify(spec_combine(op, x, y).unwrap()) is Some,
    ensures
        is_normal(spec_simplify(spec_combine(op, x, y).unwrap()).unwrap()),
{
    let r = spec_combine(op, x, y).unwrap();
    match op {
        Op::Max => {
            if let (Some((op1, n1, c)), Some((op2, n2, d))) = (linear_parts(x), linear_parts(y)) {
                assert(is_normal(var(n1)));
            }
            lemma_normal_simplify(r);
        },
        _ => {
            lemma_simplify_normal(r);
        },
    }
}

/// Every result of evaluation is in normal form, where the values bound in the
/// state are.
pub proof fn lemma_eval_normal(e: GenericWidth, state: Map<Seq<char>, GenericWidth>)
    requires
        spec_eval_expr(e, state) is Some,
        forall|k: Seq<char>| #[trigger] state.contains_key(k) ==> is_normal(state[k]),
    ensures
        is_normal(spec_eval_expr(e, state).unwrap()),
    decreases e,
{
    match e {
        GenericWidth::Terminal(t) => {
            let w = spec_eval_terminal(t, state);
            if let Terminal::Var(v) = t {
                if state.contains_key(v.value@) {
                    lemma_normal_simplify(w);
                }
            }
        },
        GenericWidth::Expr(op, a, b) => {
            lemma_eval_normal(*a, state);
            lemma_eval_normal(*b, state);
            lemma_combine_normal(op, spec_eval_expr(*a, state).unwrap(), spec_eval_expr(*b, state).unwrap());
        },
    }
}

/// An expression in normal form evaluates to itself when no variable is bound.
pub proof fn lemma_normal_is_fixed_point(w: GenericWidth)
    requires
        is_normal(w),
    ensures
        spec_eval_expr(w, Map::empty()) == Some(w),
    decreases w,
{
    match w {
        GenericWidth::Terminal(_) => {},
        GenericWidth::Expr(op, a, b) => {
            lemma_normal_is_fixed_point(*a);
            lemma_normal_is_fixed_point(*b);
            lemma_normal_simplify(w);
        },
    }
}

/// Simplification is idempotent: evaluating a result again, with no variable
/// bound, gives it back unchanged.
pub proof fn lemma_eval_idempotent(e: GenericWidth, state: Map<Seq<char>, GenericWidth>)
    requires
        spec_eval_expr(e, state) is Some,
        forall|k: Seq<char>| #[trigger] state.contains_key(k) ==> is_normal(state[k]),
    ensures
        spec_eval_expr(spec_eval_expr(e, state).unwrap(), Map::empty()) == spec_eval_expr(e, state),
{
    lemma_eval_normal(e, state);
    lemma_normal_is_fixed_point(spec_eval_expr(e, state).unwrap());
}

/// `t` is a number, the variable `x`, or `x` plus or minus a number.
pub open spec fn linear_in(t: GenericWidth, x: Seq<char>) -> bool {
    match t {
        GenericWidth::Terminal(Terminal::Num(_)) => true,
        GenericWidth::Terminal(Terminal::Var(v)) => v.value@ == x,
        GenericWidth::Expr(op, a, b) => (op == Op::Add || op == Op::Sub) && (*a matches GenericWidth::Terminal(
            Terminal::Var(v),
        ) && v.value@ == x) && *b is Terminal && (*b)->Terminal_0 is Num,
    }
}

/// The number that a linear width holds: the number itself, or what is added
/// to or taken from the variable (none for the variable alone).
pub open spec fn constant_of(t: GenericWidth) -> int {
    match t {
        GenericWidth::Terminal(Terminal::Num(n)) => n as int,
        GenericWidth::Expr(_, _, b) => match *b {
            GenericWidth::Terminal(Terminal::Num(c)) => c as int,
            _ => 0,
        },
        _ => 0,
    }
}

/// Simplifying `MAX` keeps the larger value: for widths that are numbers or
/// one variable `x` plus or minus a number, where the rules decide the
/// maximum, its value is the larger of the two values. This holds for every
/// value of `x` when both widths are numbers or both depend on `x`; where a
/// number meets a width in `x` (which the rules take to dominate), it holds
/// when `x` stands for a number at least as large as the numbers of both
/// widths together.
pub proof fn lemma_max_is_larger(t1: GenericWidth, t2: GenericWidth, x: Seq<char>, env: spec_fn(Seq<char>) -> int)
    requires
        linear_in(t1, x),
        linear_in(t2, x),
        spec_eval_max(t1, t2) is Some,
        (t1 matches GenericWidth::Terminal(Terminal::Num(_))) == (t2 matches GenericWidth::Terminal(
            Terminal::Num(_),
        )) || env(x) >= constant_of(t1) + constant_of(t2),
    ensures
        ({
            let v1 = width_value(t1, env);
            let v2 = width_value(t2, env);
            width_value(spec_eval_max(t1, t2).unwrap(), env) == if v1 >= v2 {
                v1
            } else {
                v2
            }
        }),
{
    reveal_with_fuel(width_value, 2);
    if let GenericWidth::Expr(op1, a1, b1) = t1 {
        assert(width_value(*a1, env) == env(x));
        assert(linear_parts(t1) == Some((op1, (*a1)->Terminal_0->Var_0, constant_of(t1) as usize)));
    }
    if let GenericWidth::Expr(op2, a2, b2) = t2 {
        assert(width_value(*a2, env) == env(x));
        assert(linear_parts(t2) == Some((op2, (*a2)->Terminal_0->Var_0, constant_of(t2) as usize)));
    }
}

/// A width that depends on a variable is taken to dominate any number:
/// the maximum of the variable, or the variable plus or minus a number, and a
/// number is that width, in either order.
pub proof fn lemma_max_variable_dominates_number(v: GenericWidth, x: Seq<char>, d: usize)
    requires
        linear_in(v, x),
        !(v matches GenericWidth::Terminal(Terminal::Num(_))),
    ensures
        spec_eval_max(v, num(d)) == Some(v),
        spec_eval_max(num(d), v) == Some(v),
{
}

/// Evaluating to a number is evaluating over numbers: the state that
/// `eval_expr_numeric` evaluates under is the one that binds each variable
/// to its number, so it gives `Ok(n)` exactly where `eval_expr`, over a state
/// that binds each variable of `state` to its number and nothing else, gives
/// the number `n`.
pub proof fn lemma_numeric_state_binds_numbers(state: Map<Seq<char>, usize>, g: Map<Seq<char>, GenericWidth>)
    requires
        forall|k: Seq<char>| #[trigger] g.contains_key(k) <==> state.contains_key(k),
        forall|k: Seq<char>| state.contains_key(k) ==> g[k] == num(#[trigger] state[k]),
    ensures
        numeric_state(state) == g,
        forall|e: GenericWidth| spec_eval_expr(e, numeric_state(state)) == spec_eval_expr(e, g),
{
    assert(numeric_state(state) =~= g);
}

} // verus!