use front_end::{Alternation, Concatenation, Escape, Expr, Group, KleeneStar, Literal};

#[test]
fn build_expression_tree() {
    // (a|b)*c
    let a = Expr::Literal(Box::new(Literal::new('a')));
    let b = Expr::Literal(Box::new(Literal::new('b')));
    let alt = Expr::Alternation(Box::new(Alternation::new(a, b)));
    let group = Expr::Group(Box::new(Group::new(alt)));
    let star = Expr::Repetition(Box::new(KleeneStar::new(group)));
    let c = Expr::Literal(Box::new(Literal::new('c')));
    let concat = Concatenation::new(star, c);
    match &concat.right_expr {
        Expr::Literal(l) => assert_eq!(l.literal, 'c'),
        _ => panic!("right side is not a literal"),
    }
    match &concat.left_expr {
        Expr::Repetition(r) => match &r.expr {
            Expr::Group(g) => match &g.expr {
                Expr::Alternation(alt) => match (&alt.left_expr, &alt.right_expr) {
                    (Expr::Literal(x), Expr::Literal(y)) => {
                        assert_eq!(x.literal, 'a');
                        assert_eq!(y.literal, 'b');
                    },
                    _ => panic!("alternation of non-literals"),
                },
                _ => panic!("group of a non-alternation"),
            },
            _ => panic!("star of a non-group"),
        },
        _ => panic!("left side is not a star"),
    }
    let esc = Escape::new(Expr::Literal(Box::new(Literal::new('*'))));
    assert!(matches!(esc.expr, Expr::Literal(_)));
    assert!(matches!(Expr::Empty, Expr::Empty));
}
