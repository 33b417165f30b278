use lambda_factory::lambda::LambdaBox;

fn con(s: &str) -> LambdaBox<String> {
    LambdaBox::new_const(s.to_string())
}

#[test]
fn factories_print_their_terms() {
    assert_eq!(LambdaBox::<String>::i_factory().to_string(), "|0|.0");
    assert_eq!(LambdaBox::<String>::k_factory().to_string(), "|0|.|1|.0");
    assert_eq!(LambdaBox::<String>::b_factory().to_string(), "|0|.|1|.|2|.0 (1 2)");
    assert_eq!(LambdaBox::<String>::c_factory().to_string(), "|0|.|1|.|2|.0 2 1");
    assert_eq!(LambdaBox::<String>::w_factory().to_string(), "|0|.|1|.0 1 1");
    assert_eq!(LambdaBox::<String>::s_factory().to_string(), "|0|.|1|.|2|.0 2 (1 2)");
    assert_eq!(
        LambdaBox::<String>::y_factory().to_string(),
        "|0|.(|1|.0 (1 1)) |1|.0 (1 1)"
    );
}

#[test]
fn constants_print_as_themselves() {
    assert_eq!(con("x").to_string(), "x");
    assert_eq!(con("hello").to_string(), "hello");
}

#[test]
fn free_variable_prints_a_fresh_number() {
    assert_eq!(LambdaBox::<String>::default().to_string(), "0");
}

#[test]
fn identity_applied_reduces_to_argument() {
    let mut t = LambdaBox::i_factory().composition(con("x"));
    assert_eq!(t.to_string(), "(|0|.0) x");
    assert!(t.eval_onestep());
    assert_eq!(t.to_string(), "x");
    assert!(!t.eval_onestep());
    assert_eq!(t.to_string(), "x");
}

#[test]
fn k_keeps_first_argument_step_by_step() {
    let mut t = LambdaBox::k_factory().composition(con("a")).composition(con("b"));
    assert_eq!(t.to_string(), "(|0|.|1|.0) a b");
    assert!(t.eval_onestep());
    assert_eq!(t.to_string(), "(|0|.a) b");
    assert!(t.eval_onestep());
    assert_eq!(t.to_string(), "a");
    assert!(!t.eval_onestep());
}

#[test]
fn compose_is_composition_in_place() {
    let mut t = LambdaBox::i_factory();
    t.compose(con("x"));
    assert_eq!(t.to_string(), "(|0|.0) x");
    let u = LambdaBox::i_factory().composition(con("x"));
    assert_eq!(t.to_string(), u.to_string());
}

#[test]
fn b_composes() {
    let mut t = LambdaBox::b_factory()
        .composition(con("x"))
        .composition(con("y"))
        .composition(con("z"));
    assert!(t.eval());
    assert_eq!(t.to_string(), "x (y z)");
    assert!(!t.eval());
    assert_eq!(t.to_string(), "x (y z)");
}

#[test]
fn c_swaps() {
    let t = LambdaBox::c_factory()
        .composition(con("x"))
        .composition(con("y"))
        .composition(con("z"))
        .eval_value();
    assert_eq!(t.to_string(), "x z y");
}

#[test]
fn s_shares_its_last_argument() {
    let t = LambdaBox::s_factory()
        .composition(con("x"))
        .composition(con("y"))
        .composition(con("z"))
        .eval_value();
    assert_eq!(t.to_string(), "x z (y z)");
}

#[test]
fn w_duplicates() {
    let t = LambdaBox::w_factory().composition(con("x")).composition(con("y")).eval_value();
    assert_eq!(t.to_string(), "x y y");
}

#[test]
fn k_evaluates_fully() {
    let mut t = LambdaBox::k_factory().composition(con("a")).composition(con("b"));
    assert!(t.eval());
    assert_eq!(t.to_string(), "a");
}

#[test]
fn eval_of_a_normal_form_changes_nothing() {
    let mut t = LambdaBox::<String>::s_factory();
    assert!(!t.eval());
    assert_eq!(t.to_string(), "|0|.|1|.|2|.0 2 (1 2)");
    let mut c = con("q");
    assert!(!c.eval());
    assert!(!c.eval_onestep());
}

#[test]
fn y_unfolds() {
    let mut t = LambdaBox::y_factory().composition(con("f"));
    assert_eq!(t.to_string(), "(|0|.(|1|.0 (1 1)) |1|.0 (1 1)) f");
    assert!(t.eval_onestep());
    assert_eq!(t.to_string(), "(|0|.f (0 0)) |0|.f (0 0)");
    assert!(t.eval_onestep());
    assert_eq!(t.to_string(), "f ((|0|.f (0 0)) |0|.f (0 0))");
}

#[test]
fn abstraction_over_a_variable() {
    let v = LambdaBox::<String>::default();
    let r = v.get_ref();
    assert_eq!(v.check_ref(&r), Some(true));
    let (lam, carrier) = v.abstr(r.clone());
    assert_eq!(lam.to_string(), "|0|.0");
    assert_eq!(carrier.to_string(), "0");
    assert_eq!(lam.check_ref(&r), Some(false));
}

#[test]
fn abstraction_over_an_absent_variable_binds_a_fresh_one() {
    let v = LambdaBox::<String>::default();
    let r = v.get_ref();
    let c = con("c");
    assert_eq!(c.check_ref(&r), None);
    let (lam, _) = c.abstr(r);
    assert_eq!(lam.to_string(), "|0|.c");
}

#[test]
fn abstraction_keeps_other_variables_free() {
    let x = LambdaBox::<String>::default();
    let rx = x.get_ref();
    let (lx, _) = x.abstr(rx.clone());
    // a variable made after the first abstraction
    let (y, ry) = {
        let fresh = LambdaBox::<String>::i_factory();
        let (_, carrier) = fresh.abstr(rx.clone());
        let r = carrier.get_ref();
        (carrier, r)
    };
    assert_eq!(y.check_ref(&ry), Some(true));
    let t = lx.composition(y);
    assert_eq!(t.check_ref(&ry), Some(true));
    assert_eq!(t.to_string(), "(|0|.0) 0");
}

#[test]
fn node_count_counts_nodes() {
    assert_eq!(LambdaBox::<String>::i_factory().expr_ref().node_count(), 2);
    assert_eq!(LambdaBox::<String>::k_factory().expr_ref().node_count(), 3);
    let t = LambdaBox::i_factory().composition(con("x"));
    assert_eq!(t.expr_ref().node_count(), 4);
}

#[test]
fn char_constant_prints_its_character() {
    assert_eq!(LambdaBox::char_const('q').to_string(), "q");
    assert_eq!(LambdaBox::char_const('7').to_string(), "7");
}

#[test]
fn x_factory_makes_an_alphanumeric_constant() {
    for _ in 0..50 {
        let b = LambdaBox::x_factory().unwrap();
        let s = b.to_string();
        assert_eq!(s.chars().count(), 1);
        assert!(s.chars().all(|c| c.is_ascii_alphanumeric()));
        assert_eq!(b.expr_ref().node_count(), 1);
    }
}

#[test]
fn abstraction_then_application_substitutes() {
    let x = LambdaBox::<String>::default();
    let r = x.get_ref();
    let t = x.composition(con("c"));
    assert_eq!(t.to_string(), "0 c");
    let (lam, _) = t.abstr(r);
    assert_eq!(lam.to_string(), "|0|.0 c");
    let mut u = lam.composition(LambdaBox::i_factory());
    assert!(u.eval_onestep());
    assert_eq!(u.to_string(), "(|0|.0) c");
    assert!(u.eval_onestep());
    assert_eq!(u.to_string(), "c");
}

#[test]
fn evaluation_shares_the_evaluated_argument() {
    let mut t = LambdaBox::w_factory()
        .composition(LambdaBox::i_factory())
        .composition(LambdaBox::i_factory().composition(con("a")));
    assert!(t.eval());
    assert_eq!(t.to_string(), "a a");
}

#[test]
fn a_copy_binds_new_variables() {
    let k = LambdaBox::<String>::k_factory();
    assert_eq!(k.expr_ref().check_ref(0), Some(false));
    assert_eq!(k.expr_ref().check_ref(1), Some(false));
    let copy = k.expr_ref().duplicate(0);
    assert_eq!(copy.check_ref(0), None);
    assert_eq!(copy.check_ref(1), None);
}
