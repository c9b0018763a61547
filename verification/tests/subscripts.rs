use einsum_solver::parser::RawSubscript;
use einsum_solver::subscripts::{EinsumError, Namespace, Position, Subscripts};

#[test]
fn display() {
    let mut names = Namespace::init();

    let subscripts = Subscripts::from_raw_indices(&mut names, "ij,jk->ik").unwrap();
    assert_eq!(subscripts.name(), "ij_jk__ik");

    // implicit mode
    let subscripts = Subscripts::from_raw_indices(&mut names, "ij,jk").unwrap();
    assert_eq!(subscripts.name(), "ij_jk__ik");

    // output scalar
    let subscripts = Subscripts::from_raw_indices(&mut names, "i,i").unwrap();
    assert_eq!(subscripts.name(), "i_i__");

    // ellipsis
    let subscripts = Subscripts::from_raw_indices(&mut names, "ij...,jk...->ik...").unwrap();
    assert_eq!(subscripts.name(), "ij____jk_____ik___");
}

#[test]
fn construction_is_deterministic() {
    let mut names1 = Namespace::init();
    let first = Subscripts::from_raw_indices(&mut names1, "ij,jk,kl->il").unwrap();
    let mut names2 = Namespace::init();
    let second = Subscripts::from_raw_indices(&mut names2, "ij,jk,kl->il").unwrap();
    assert_eq!(first, second);
    assert_eq!(first.name(), second.name());
}

#[test]
fn contraction_indices_matmul() {
    let mut names = Namespace::init();
    let subscripts = Subscripts::from_raw_indices(&mut names, "ij,jk->ik").unwrap();
    assert_eq!(subscripts.contraction_indices(), vec!['j']);
}

#[test]
fn contraction_indices_trace() {
    let mut names = Namespace::init();
    let subscripts = Subscripts::from_raw_indices(&mut names, "ij,ji->").unwrap();
    assert_eq!(subscripts.contraction_indices(), vec!['i', 'j']);
}

#[test]
fn contraction_indices_diagonal() {
    let mut names = Namespace::init();
    let subscripts = Subscripts::from_raw_indices(&mut names, "ii->i").unwrap();
    assert_eq!(subscripts.contraction_indices(), Vec::<char>::new());
}

#[test]
fn implicit_output_is_inferred() {
    let mut names = Namespace::init();
    let subscripts = Subscripts::from_raw_indices(&mut names, "ij,jk").unwrap();
    assert_eq!(subscripts.output.raw(), &RawSubscript::Indices(vec!['i', 'k']));
}

#[test]
fn implicit_output_is_reordered_alphabetically() {
    let mut names = Namespace::init();
    let subscripts = Subscripts::from_raw_indices(&mut names, "ji").unwrap();
    assert_eq!(subscripts.output.raw(), &RawSubscript::Indices(vec!['i', 'j']));
}

#[test]
fn names_are_not_injective() {
    // two different ellipsis placements flatten to one name, by design
    let mut names = Namespace::init();
    let a = Subscripts::from_raw_indices(&mut names, "i...,j->ij").unwrap();
    let b = Subscripts::from_raw_indices(&mut names, "i,...j->ij").unwrap();
    assert_ne!(a.inputs, b.inputs);
    assert_eq!(a.name(), "i____j__ij");
    assert_eq!(a.name(), b.name());
}

#[test]
fn factorize_three_inputs() {
    let mut names = Namespace::init();
    let base = Subscripts::from_raw_indices(&mut names, "ij,jk,kl->il").unwrap();
    assert_eq!(base.contraction_indices(), vec!['j', 'k']);

    // Factorize along j
    let (ijjk, ikkl) = base.factorize(&mut names, 'j').unwrap().unwrap();

    let arg0 = &ijjk.inputs[0];
    assert_eq!(arg0.raw(), &RawSubscript::Indices(vec!['i', 'j']));
    assert_eq!(arg0.position(), &Position::User(0));

    let arg1 = &ijjk.inputs[1];
    assert_eq!(arg1.raw(), &RawSubscript::Indices(vec!['j', 'k']));
    assert_eq!(arg1.position(), &Position::User(1));

    let out1 = &ijjk.output;
    assert_eq!(out1.raw(), &RawSubscript::Indices(vec!['i', 'k']));
    assert_eq!(out1.position(), &Position::Intermidiate(1));

    assert_eq!(ijjk.contraction_indices(), vec!['j']);

    // the second step starts from the intermediate and keeps the original output
    assert_eq!(ikkl.inputs.len(), 2);
    assert_eq!(ikkl.inputs[0].raw(), &RawSubscript::Indices(vec!['i', 'k']));
    assert_eq!(ikkl.inputs[0].position(), &Position::Intermidiate(1));
    assert_eq!(ikkl.inputs[1].raw(), &RawSubscript::Indices(vec!['k', 'l']));
    assert_eq!(ikkl.inputs[1].position(), &Position::User(2));
    assert_eq!(ikkl.output.raw(), &RawSubscript::Indices(vec!['i', 'l']));
    assert_eq!(ikkl.output.position(), &Position::Intermidiate(0));
    assert_eq!(ikkl.contraction_indices(), vec!['k']);

    // both halves are irreducible: the plan is exactly two binary steps
    assert!(ijjk.factorize(&mut names, 'j').unwrap().is_none());
    assert!(ikkl.factorize(&mut names, 'k').unwrap().is_none());
}

#[test]
fn factorize_unknown_index_mutates_nothing() {
    let mut names = Namespace::init();
    let base = Subscripts::from_raw_indices(&mut names, "ij,jk->ik").unwrap();
    let before = names.clone();
    let result = base.factorize(&mut names, 'z');
    assert_eq!(result.unwrap_err(), EinsumError::UnknownIndex('z'));
    assert_eq!(names, before);

    // an output label is not a contraction index either
    let before = names.clone();
    let result = base.factorize(&mut names, 'i');
    assert_eq!(result.unwrap_err(), EinsumError::UnknownIndex('i'));
    assert_eq!(names, before);
}

#[test]
fn user_positions_cover_argument_order() {
    let mut names = Namespace::init();
    let subscripts = Subscripts::from_raw_indices(&mut names, "ij,jk,kl,lm").unwrap();
    assert_eq!(subscripts.inputs.len(), 4);
    for (i, input) in subscripts.inputs.iter().enumerate() {
        assert_eq!(input.position(), &Position::User(i));
    }
    assert_eq!(subscripts.output.position(), &Position::Intermidiate(0));
}

#[test]
fn namespace_issues_increasing_identifiers() {
    let mut names = Namespace::init();
    assert_eq!(names.new(), Position::Intermidiate(0));
    assert_eq!(names.new(), Position::Intermidiate(1));
    assert_eq!(names.new(), Position::Intermidiate(2));

    // every successful factorize issues the next identifier;
    // an irreducible step issues none
    let mut names = Namespace::init();
    let base = Subscripts::from_raw_indices(&mut names, "ij,jk,kl->il").unwrap();
    let (first, second) = base.factorize(&mut names, 'j').unwrap().unwrap();
    assert_eq!(first.output.position(), &Position::Intermidiate(1));
    assert!(second.factorize(&mut names, 'k').unwrap().is_none());
    assert_eq!(names.new(), Position::Intermidiate(2));
}

#[test]
fn factorize_reduce_all() {
    let mut names = Namespace::init();
    let base = Subscripts::from_raw_indices(&mut names, "ij,ji->").unwrap();
    // every input holds both labels: irreducible along either
    assert!(base.factorize(&mut names, 'i').unwrap().is_none());
    assert!(base.factorize(&mut names, 'j').unwrap().is_none());
}

#[test]
fn malformed_notation_is_rejected() {
    let mut names = Namespace::init();
    assert_eq!(
        Subscripts::from_raw_indices(&mut names, "i j").unwrap_err(),
        EinsumError::Parse
    );
    assert!(Subscripts::from_raw_indices(&mut names, "ij->ik->il").is_err());
    assert!(Subscripts::from_raw_indices(&mut names, "ij-k").is_err());
    assert!(Subscripts::from_raw_indices(&mut names, "i..j").is_err());
    assert!(Subscripts::from_raw_indices(&mut names, "i...j...k").is_err());
    assert!(Subscripts::from_raw_indices(&mut names, "IJ").is_err());
    // a parse failure leaves the namespace untouched
    assert_eq!(names.new(), Position::Intermidiate(0));
}

#[test]
fn ellipsis_notation_is_parsed() {
    let mut names = Namespace::init();
    let subscripts = Subscripts::from_raw_indices(&mut names, "ij...k,k->ij").unwrap();
    assert_eq!(
        subscripts.inputs[0].raw(),
        &RawSubscript::Ellipsis { start: vec!['i', 'j'], end: vec!['k'] }
    );
    assert_eq!(subscripts.inputs[0].indices(), vec!['i', 'j', 'k']);
    assert_eq!(subscripts.contraction_indices(), vec!['k']);
}
