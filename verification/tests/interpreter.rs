use metacat::fol::FOL;
use metacat::interpreter::{Interpreter, InterpreterError, Step};
use metacat::lang::{Arr, Obj};
use metacat::term::Tree;

fn step(op: Arr<FOL>, sources: Vec<usize>, targets: Vec<usize>) -> Step {
    Step { op, sources, targets }
}

#[test]
fn builds_and_unpacks_formulas() {
    // ⊢ ¬x0, then take the ⊢ apart again.
    let steps = vec![
        step(Arr::Fwd(FOL::Not), vec![0], vec![1]),
        step(Arr::Fwd(FOL::Provable), vec![1], vec![2]),
        step(Arr::Rev(FOL::Provable), vec![2], vec![3]),
    ];
    let not_x = || Tree::Node(FOL::Not, vec![Tree::Leaf(0, Obj)]);
    let (all, outs) = Interpreter.run_state(&steps, 4, &vec![0], &vec![3, 2], vec![Tree::Leaf(0, Obj)]).unwrap();
    assert_eq!(outs, vec![not_x(), Tree::Node(FOL::Provable, vec![not_x()])]);
    assert_eq!(all.len(), 4);
    assert_eq!(all[0], Tree::Leaf(0, Obj));
}

#[test]
fn copies_and_equalities() {
    let steps = vec![step(Arr::Copy, vec![0], vec![1, 2]), step(Arr::Equal, vec![1, 2], vec![3])];
    let outs = Interpreter.run(&steps, 4, &vec![0], &vec![3], vec![Tree::Leaf(7, Obj)]).unwrap();
    assert_eq!(outs, vec![Tree::Leaf(7, Obj)]);
    let steps = vec![step(Arr::Equal, vec![], vec![0, 1])];
    let outs = Interpreter.run(&steps, 2, &vec![], &vec![0, 1], vec![]).unwrap();
    assert_eq!(outs, vec![Tree::Leaf(0, Obj), Tree::Leaf(1, Obj)]);
}

#[test]
fn errors_name_what_went_wrong() {
    let unify = vec![step(Arr::Equal, vec![0, 1], vec![2])];
    let err = Interpreter.run(&unify, 3, &vec![0, 1], &vec![2], vec![Tree::Leaf(0, Obj), Tree::Leaf(1, Obj)]).unwrap_err();
    assert!(matches!(err, InterpreterError::UnifyError(Tree::Leaf(1, _))));

    let wrong = vec![step(Arr::Rev(FOL::Not), vec![0], vec![1])];
    let err = Interpreter.run(&wrong, 2, &vec![0], &vec![1], vec![Tree::Node(FOL::True, vec![])]).unwrap_err();
    assert!(matches!(err, InterpreterError::TypeError { expected: FOL::Not, got: Some(FOL::True) }));

    let arity = vec![step(Arr::Copy, vec![0, 1], vec![2])];
    let err = Interpreter.run(&arity, 3, &vec![0, 1], &vec![2], vec![Tree::Leaf(0, Obj), Tree::Leaf(1, Obj)]).unwrap_err();
    assert!(matches!(err, InterpreterError::ArityError { expected: 1, got: 2 }));

    let twice = vec![step(Arr::Copy, vec![0], vec![1, 1])];
    let err = Interpreter.run(&twice, 2, &vec![0], &vec![1], vec![Tree::Leaf(0, Obj)]).unwrap_err();
    assert!(matches!(err, InterpreterError::NonMonogamousWrite(1)));

    let unread = vec![step(Arr::Fwd(FOL::Not), vec![1], vec![2])];
    let err = Interpreter.run(&unread, 3, &vec![0], &vec![2], vec![Tree::Leaf(0, Obj)]).unwrap_err();
    assert!(matches!(err, InterpreterError::NonMonogamousRead(1)));

    let idle = vec![];
    let err = Interpreter.run(&idle, 2, &vec![0], &vec![0], vec![Tree::Leaf(0, Obj)]).unwrap_err();
    assert!(matches!(err, InterpreterError::NotAllValuesComputed));
}

#[test]
fn errors_have_messages() {
    assert_eq!(InterpreterError::NonMonogamousWrite(3).message(), "Value written multiple times: 3");
    assert_eq!(
        InterpreterError::NonMonogamousRead(12).message(),
        "Value read multiple times or doesn't exist: 12"
    );
    assert_eq!(InterpreterError::ArityError { expected: 2, got: 1 }.message(), "Expected 2 arguments, got 1");
    assert_eq!(
        InterpreterError::TypeError { expected: FOL::Implies, got: Some(FOL::Not) }.message(),
        "Type error: expected →, got Some(Not)"
    );
    assert_eq!(
        InterpreterError::TypeError { expected: FOL::And, got: None }.message(),
        "Type error: expected ∧, got None"
    );
    let value = Tree::Node(FOL::Not, vec![Tree::Leaf(0, Obj)]);
    assert_eq!(InterpreterError::UnifyError(value).message(), "Unification error: ¬((0 : ))");
    assert_eq!(InterpreterError::NotAllValuesComputed.message(), "Not all values computed");
    assert_eq!(InterpreterError::SsaError("cycle".to_string()).message(), "SSA error: cycle");
}
