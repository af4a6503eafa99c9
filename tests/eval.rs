use jon_lisp::eval::{is_operator, operator_of, EvalError, Evaluator, Operator, Reduced};
use jon_lisp::parser::{Atom, Expr, Parser};
use jon_lisp::scanner::Scanner;

fn parse(text: &str) -> Expr {
    let mut scanner = Scanner::new(text);
    Parser::new(&mut scanner).parse_expr().unwrap()
}

fn num(x: &str) -> Reduced {
    Reduced::Atom(Atom::Number(x.to_string()))
}

#[test]
fn sum_of_one_folds_one_argument() {
    let e = Evaluator;
    assert_eq!(
        e.reduce(&parse("(+ 1)")),
        Ok(Reduced::Fold(Operator::Add, vec![num("1")]))
    );
    assert_eq!(
        e.reduce(&parse("(+ 1 2)")),
        Ok(Reduced::Fold(Operator::Add, vec![num("1"), num("2")]))
    );
    assert_eq!(
        e.reduce(&parse("(- 1 2)")),
        Ok(Reduced::Fold(Operator::Sub, vec![num("1"), num("2")]))
    );
}

#[test]
fn nested_forms_reduce_first() {
    let e = Evaluator;
    assert_eq!(
        e.reduce(&parse("(+ 1 (- 2 x))")),
        Ok(Reduced::Fold(
            Operator::Add,
            vec![
                num("1"),
                Reduced::Fold(
                    Operator::Sub,
                    vec![num("2"), Reduced::Atom(Atom::Symbol("x".to_string()))]
                )
            ]
        ))
    );
}

#[test]
fn atoms_stand_for_themselves() {
    let e = Evaluator;
    assert_eq!(
        e.reduce(&parse("\"hi\"")),
        Ok(Reduced::Atom(Atom::String("hi".to_string())))
    );
    assert_eq!(
        e.reduce(&parse("foo")),
        Ok(Reduced::Atom(Atom::Symbol("foo".to_string())))
    );
}

#[test]
fn form_errors() {
    let e = Evaluator;
    assert_eq!(e.reduce(&parse("()")), Err(EvalError::Arity));
    assert_eq!(e.reduce(&parse("(+)")), Err(EvalError::Arity));
    assert_eq!(e.reduce(&parse("((+ 1) 2)")), Err(EvalError::NestedHead));
    assert_eq!(
        e.reduce(&parse("(* 1 2)")),
        Err(EvalError::NotImplemented(Operator::Mul))
    );
    assert_eq!(e.reduce(&parse("(f 1 2)")), Err(EvalError::UnsupportedHead));
    assert_eq!(e.reduce(&parse("(1 2)")), Err(EvalError::UnsupportedHead));
    assert_eq!(
        e.reduce(&parse("(+ 1 (* 2 3) (f))")),
        Err(EvalError::NotImplemented(Operator::Mul))
    );
}

#[test]
fn operators_are_recognised() {
    assert_eq!(operator_of(&parse("+")), Some(Operator::Add));
    assert_eq!(operator_of(&parse("-")), Some(Operator::Sub));
    assert_eq!(operator_of(&parse("*")), Some(Operator::Mul));
    assert_eq!(operator_of(&parse("++")), None);
    assert!(is_operator(&parse("-")));
    assert!(!is_operator(&parse("(+ 1)")));
    assert!(!is_operator(&parse("\"+\"")));
}
