use integral_calculator::keypad::{press, Key};
use integral_calculator::riemann::{riemann_weights, RiemannSum, Weight};
use integral_calculator::sampling::{substitute_x, trim_to_x_points};
use integral_calculator::sanitize::sanitize_equ;
use integral_calculator::term::{classify_term, Function};
use integral_calculator::text::{chars_of, replace_chars, string_of};
use integral_calculator::tokens::{paren_groups, split_terms, substitute_groups, wrap_parens};
use integral_calculator::tree::{reduction_tree, BinOp, Expr};

fn cs(s: &str) -> Vec<char> {
    s.chars().collect()
}

fn st(v: &[char]) -> String {
    v.iter().collect()
}

fn leaf(i: usize) -> Expr {
    Expr::Term(i)
}

fn node(op: BinOp, l: Expr, r: Expr) -> Expr {
    Expr::Apply(op, Box::new(l), Box::new(r))
}

fn same_tree(a: &Expr, b: &Expr) -> bool {
    match (a, b) {
        (Expr::Term(i), Expr::Term(j)) => i == j,
        (Expr::Apply(o1, l1, r1), Expr::Apply(o2, l2, r2)) => {
            o1 == o2 && same_tree(l1, l2) && same_tree(r1, r2)
        }
        _ => false,
    }
}

fn leaves(e: &Expr, out: &mut Vec<usize>) {
    match e {
        Expr::Term(i) => out.push(*i),
        Expr::Apply(_, l, r) => {
            leaves(l, out);
            leaves(r, out);
        }
    }
}

fn prec(op: &BinOp) -> u32 {
    match op {
        BinOp::Add | BinOp::Sub => 1,
        BinOp::Mul | BinOp::Div => 2,
        BinOp::Pow => 3,
    }
}

fn min_prec(e: &Expr) -> u32 {
    match e {
        Expr::Term(_) => 4,
        Expr::Apply(op, l, r) => prec(op).min(min_prec(l)).min(min_prec(r)),
    }
}

fn well_shaped(e: &Expr) -> bool {
    match e {
        Expr::Term(_) => true,
        Expr::Apply(op, l, r) => {
            well_shaped(l) && well_shaped(r) && min_prec(l) >= prec(op) && min_prec(r) > prec(op)
        }
    }
}

// The float evaluation that a program puts round the library's pieces.
fn eval(e: &Expr, v: &[f64]) -> f64 {
    match e {
        Expr::Term(i) => v[*i],
        Expr::Apply(op, l, r) => {
            let a = eval(l, v);
            let b = eval(r, v);
            match op {
                BinOp::Add => a + b,
                BinOp::Sub => a - b,
                BinOp::Mul => a * b,
                BinOp::Div => a / b,
                BinOp::Pow => a.powf(b),
            }
        }
    }
}

fn value_of(text: &str) -> f64 {
    let chars = cs(text);
    let groups = paren_groups(&chars);
    let mut values = Vec::new();
    for g in &groups {
        values.push(cs(&value_of(&st(g)).to_string()));
    }
    let text = substitute_groups(&chars, &groups, &values);
    let (terms, ops) = split_terms(&text);
    let mut numbers = Vec::new();
    for t in &terms {
        let (f, arg) = classify_term(t);
        assert!(f.is_none());
        numbers.push(st(&arg).parse::<f64>().unwrap());
    }
    let tree = reduction_tree(numbers.len(), &ops).unwrap();
    eval(&tree, &numbers)
}

#[test]
fn replace_matches_std_replace() {
    let cases = [
        ("a-b-c", "-", "+-"),
        ("++++", "++", "+"),
        ("aaaa", "aa", "b"),
        ("ab", "", "x"),
        ("", "", "x"),
        ("", "a", "b"),
        ("sin(x)+x", "x", "(1.5)"),
        ("1(2(3(", "2(", "2*("),
        ("héllo wörld", "ö", "o"),
        ("xyz", "xyzw", "q"),
    ];
    for (s, from, to) in cases {
        let r = replace_chars(&cs(s), &cs(from), &cs(to));
        assert_eq!(st(&r), s.replace(from, to), "{:?}", (s, from, to));
    }
}

#[test]
fn chars_and_strings_round_trip() {
    let s = "3*(x+1)^é";
    assert_eq!(chars_of(s), cs(s));
    assert_eq!(string_of(&cs(s)), s.to_string());
    assert_eq!(string_of(&vec![]), String::new());
}

#[test]
fn sanitize_example() {
    assert_eq!(sanitize_equ("3x - 2(x+1)".to_string()), "3*x+-2*(x+1)");
    assert_eq!(sanitize_equ("2^-x".to_string()), "2^-x");
    assert_eq!(sanitize_equ("(-1)\n".to_string()), "(-1)");
    assert_eq!(sanitize_equ("".to_string()), "");
    assert_eq!(sanitize_equ("10x".to_string()), "10*x");
}

// The same steps written with std's replace.
fn sanitize_with_std(mut equ: String) -> String {
    equ = equ.replace(" ", "");
    equ = equ.replace("\n", "");
    equ = equ.replace("-", "+-");
    equ = equ.replace("++", "+");
    equ = equ.replace("^+-", "^-");
    equ = equ.replace("(+-", "(-");
    for d in ['1', '2', '3', '4', '5', '6', '7', '8', '9', '0'] {
        equ = equ.replace(&format!("{d}("), &format!("{d}*("));
    }
    for d in ['1', '2', '3', '4', '5', '6', '7', '8', '9', '0'] {
        equ = equ.replace(&format!("{d}x"), &format!("{d}*x"));
    }
    equ
}

#[test]
fn sanitize_agrees_with_std_steps() {
    let cases = [
        "sin(x)",
        "3x^2 - 4x + 1",
        "2(3)(4x)",
        "x^-2 + (-x)",
        "--x",
        "1 0 x",
        "+++",
        "90x(1-x)\n",
    ];
    for c in cases {
        assert_eq!(sanitize_equ(c.to_string()), sanitize_with_std(c.to_string()), "{:?}", c);
    }
}

#[test]
fn sanitized_text_has_no_whitespace() {
    for c in ["1 + 2\n", " \n \n", "x -\n3", "a b c"] {
        let s = sanitize_equ(c.to_string());
        assert!(!s.contains(' ') && !s.contains('\n'), "{:?}", s);
    }
}

#[test]
fn split_terms_examples() {
    let (terms, ops) = split_terms(&cs("2+3*4"));
    assert_eq!(terms, vec![cs("2"), cs("3"), cs("4")]);
    assert_eq!(ops, cs("+*"));

    let (terms, ops) = split_terms(&cs("+5"));
    assert_eq!(terms, vec![cs("5")]);
    assert_eq!(ops, cs("+"));

    // A term after two operators in a row is split, character by character,
    // while there are fewer terms than operators.
    let (terms, ops) = split_terms(&cs("2++34"));
    assert_eq!(terms, vec![cs("2"), cs("3"), cs("4")]);
    assert_eq!(ops, cs("++"));

    let (terms, ops) = split_terms(&cs("1+-2.5^sin30"));
    assert_eq!(terms, vec![cs("1"), cs("-2.5"), cs("sin30")]);
    assert_eq!(ops, cs("+^"));

    let (terms, ops) = split_terms(&cs(""));
    assert!(terms.is_empty() && ops.is_empty());
}

#[test]
fn tokens_partition_the_text() {
    for s in ["2+3*4", "+5", "2++34", "a^b/c*d+e", "", "***"] {
        let (terms, ops) = split_terms(&cs(s));
        let op_chars: Vec<char> = s.chars().filter(|c| "+*/^".contains(*c)).collect();
        let other: Vec<char> = s.chars().filter(|c| !"+*/^".contains(*c)).collect();
        assert_eq!(ops, op_chars);
        assert_eq!(terms.concat(), other);
        assert!(terms.len() <= ops.len() + 1);
        assert!(terms.iter().all(|t| !t.is_empty()));
    }
}

#[test]
fn paren_groups_examples() {
    assert_eq!(paren_groups(&cs("(1+(2))*(3)")), vec![cs("1+(2)"), cs("3")]);
    assert_eq!(paren_groups(&cs(")(a")), Vec::<Vec<char>>::new());
    assert_eq!(paren_groups(&cs("sin(30)")), vec![cs("30")]);
    assert_eq!(paren_groups(&cs("()")), vec![cs("")]);
    assert_eq!(paren_groups(&cs("((a)")), Vec::<Vec<char>>::new());
}

#[test]
fn groups_are_balanced_and_present() {
    for s in ["(1+(2))*(3)", "a(b(c)d)e(f)", "((()))()", ")(x)("] {
        for g in paren_groups(&cs(s)) {
            let mut depth = 0i32;
            for c in &g {
                if *c == '(' {
                    depth += 1;
                } else if *c == ')' {
                    depth -= 1;
                }
                assert!(depth >= 0);
            }
            assert_eq!(depth, 0);
            assert!(s.contains(&st(&wrap_parens(&g))));
        }
    }
}

#[test]
fn substitute_groups_example() {
    let text = cs("2*(1+2)+(3)");
    let groups = paren_groups(&text);
    let values = vec![cs("3"), cs("3")];
    assert_eq!(st(&substitute_groups(&text, &groups, &values)), "2*3+3");
}

#[test]
fn classify_examples() {
    assert_eq!(classify_term(&cs("asin0.5")), (Some(Function::Asin), cs("0.5")));
    assert_eq!(classify_term(&cs("acsc2")), (Some(Function::Acsc), cs("2")));
    assert_eq!(classify_term(&cs("sin30")), (Some(Function::Sin), cs("30")));
    assert_eq!(classify_term(&cs("cot45")), (Some(Function::Cot), cs("45")));
    assert_eq!(classify_term(&cs("sec-60")), (Some(Function::Sec), cs("-60")));
    // Too short to name a function.
    assert_eq!(classify_term(&cs("sin")), (None, cs("sin")));
    assert_eq!(classify_term(&cs("(5)")), (None, cs("5")));
    assert_eq!(classify_term(&cs("(-2.5")), (None, cs("-2.5")));
    assert_eq!(classify_term(&cs("12345")), (None, cs("12345")));
}

#[test]
fn term_parts() {
    for t in ["asin0.5", "tan(1)", "cos1", "(7)", "x)"] {
        let (f, arg) = classify_term(&cs(t));
        match f {
            Some(_) => assert!(t.ends_with(&st(&arg))),
            None => assert!(!arg.contains(&'(') && !arg.contains(&')')),
        }
    }
}

#[test]
fn reduction_precedence() {
    // 0 + 1 * 2
    let t = reduction_tree(3, &cs("+*")).unwrap();
    assert!(same_tree(&t, &node(BinOp::Add, leaf(0), node(BinOp::Mul, leaf(1), leaf(2)))));
    // 0 ^ 1 ^ 2 groups from the left
    let t = reduction_tree(3, &cs("^^")).unwrap();
    assert!(same_tree(&t, &node(BinOp::Pow, node(BinOp::Pow, leaf(0), leaf(1)), leaf(2))));
    // 0 / 1 * 2 groups from the left
    let t = reduction_tree(3, &cs("/*")).unwrap();
    assert!(same_tree(&t, &node(BinOp::Mul, node(BinOp::Div, leaf(0), leaf(1)), leaf(2))));
    // 0 - 1 + 2
    let t = reduction_tree(3, &cs("-+")).unwrap();
    assert!(same_tree(&t, &node(BinOp::Add, node(BinOp::Sub, leaf(0), leaf(1)), leaf(2))));
}

#[test]
fn reduction_failures() {
    assert!(reduction_tree(0, &cs("")).is_none());
    assert!(reduction_tree(1, &cs("^")).is_none());
    assert!(reduction_tree(2, &cs("")).is_none());
    assert!(reduction_tree(2, &cs("+^")).is_none());
    // One term and a leading sign-like operator is fine.
    assert!(same_tree(&reduction_tree(1, &cs("+")).unwrap(), &leaf(0)));
}

#[test]
fn reduction_shape_and_order() {
    let ops_cases = ["+*^-/", "^^^^", "*+*+", "/-^*+", "++++", ""];
    for ops in ops_cases {
        let n = ops.chars().count() + 1;
        let t = reduction_tree(n, &cs(ops)).unwrap();
        assert!(well_shaped(&t));
        let mut ls = Vec::new();
        leaves(&t, &mut ls);
        assert_eq!(ls, (0..n).collect::<Vec<_>>());
    }
}

#[test]
fn evaluates_like_arithmetic() {
    assert_eq!(value_of(&sanitize_equ("2+3*4^2".to_string())), 50.0);
    assert_eq!(value_of(&sanitize_equ("2*(1+2)".to_string())), 6.0);
    assert_eq!(value_of(&sanitize_equ("10-4-3".to_string())), 3.0);
    assert_eq!(value_of(&sanitize_equ("2^3^2".to_string())), 64.0);
    assert_eq!(value_of(&sanitize_equ("8/4/2".to_string())), 1.0);
}

#[test]
fn riemann_weight_examples() {
    assert_eq!(riemann_weights(RiemannSum::Left, 3), Some(vec![Weight::Full, Weight::Full, Weight::Skip]));
    assert_eq!(riemann_weights(RiemannSum::Right, 3), Some(vec![Weight::Skip, Weight::Full, Weight::Full]));
    assert_eq!(riemann_weights(RiemannSum::Midpoint, 3), Some(vec![Weight::Half, Weight::Full, Weight::Half]));
    assert_eq!(riemann_weights(RiemannSum::Midpoint, 2), Some(vec![Weight::Half, Weight::Half]));
    assert_eq!(riemann_weights(RiemannSum::Left, 1), None);
    assert_eq!(riemann_weights(RiemannSum::Right, 0), None);
}

#[test]
fn riemann_weights_cover_every_rectangle() {
    for kind in [RiemannSum::Left, RiemannSum::Right, RiemannSum::Midpoint] {
        for n in 2..20usize {
            let w = riemann_weights(kind, n).unwrap();
            let halves: usize = w
                .iter()
                .map(|x| match x {
                    Weight::Skip => 0,
                    Weight::Half => 1,
                    Weight::Full => 2,
                })
                .sum();
            assert_eq!(halves, 2 * (n - 1));
        }
    }
}

#[test]
fn riemann_labels() {
    assert_eq!(RiemannSum::Left.label(), "Left");
    assert_eq!(RiemannSum::Right.label(), "Right");
    assert_eq!(RiemannSum::Midpoint.label(), "Midpoint");
}

#[test]
fn substitute_x_example() {
    assert_eq!(substitute_x("sin(x)+x", "1.5"), "sin((1.5))+(1.5)");
    assert_eq!(substitute_x("2*x^2", "-3"), "2*(-3)^2");
    assert_eq!(substitute_x("7", "1"), "7");
    assert!(!substitute_x("x*x-x", "0.25").contains('x'));
}

#[test]
fn trim_leaves_points_unchanged() {
    let mut v: Vec<[f64; 2]> = (0..25).map(|i| [i as f64, 2.0 * i as f64]).collect();
    let before = v.clone();
    trim_to_x_points(&mut v, 10);
    assert_eq!(v, before);
    let mut empty: Vec<i32> = Vec::new();
    trim_to_x_points(&mut empty, 10);
    assert!(empty.is_empty());
}

#[test]
fn keypad_edits() {
    let mut equ = String::from("2*");
    press(&mut equ, Key::Word(Function::Sin));
    assert_eq!(equ, "2*sin");
    press(&mut equ, Key::Char('('));
    press(&mut equ, Key::Char('x'));
    assert_eq!(equ, "2*sin(x");
    press(&mut equ, Key::Backspace);
    assert_eq!(equ, "2*sin(");
    press(&mut equ, Key::Word(Function::Acos));
    assert_eq!(equ, "2*sin(acos");
    press(&mut equ, Key::Clear);
    assert_eq!(equ, "");
    press(&mut equ, Key::Backspace);
    assert_eq!(equ, "");
}

#[test]
fn sanitized_minus_is_always_a_sign() {
    for c in ["3-2", "x-(1-x)", "2^-3-1", "--x", "-1", "4*-2"] {
        let s: Vec<char> = sanitize_equ(c.to_string()).chars().collect();
        for i in 0..s.len() {
            if s[i] == '-' {
                assert!(i > 0 && "+^(".contains(s[i - 1]), "{:?}", st(&s));
            }
        }
    }
}

#[test]
fn sanitized_products_are_explicit() {
    for c in ["2(3)", "3x", "12x(4)", "0x", "9 (x)", "1((2))"] {
        let s: Vec<char> = sanitize_equ(c.to_string()).chars().collect();
        for i in 0..s.len().saturating_sub(1) {
            if s[i].is_ascii_digit() {
                assert!(s[i + 1] != '(' && s[i + 1] != 'x', "{:?}", st(&s));
            }
        }
    }
}

#[test]
fn four_plus_nine_splits_into_two_terms() {
    let (terms, ops) = split_terms(&cs("4+9"));
    assert_eq!(terms, vec![cs("4"), cs("9")]);
    assert_eq!(ops, vec!['+']);
}

#[test]
fn backspace_takes_back_a_typed_character() {
    let mut equ = String::from("3*x");
    press(&mut equ, Key::Char('^'));
    press(&mut equ, Key::Backspace);
    assert_eq!(equ, "3*x");
}

#[test]
fn sanitizing_twice_changes_nothing_more() {
    for c in ["3x - 2(x-1)", "x^-2-(-x)", "--x", "2(3)(4x)\n", "sin(x)", "-1", "a^-b", "((-2))"] {
        let once = sanitize_equ(c.to_string());
        assert_eq!(sanitize_equ(once.clone()), once, "{:?}", c);
    }
}

fn inorder_ops(e: &Expr, out: &mut Vec<BinOp>) {
    if let Expr::Apply(op, l, r) = e {
        inorder_ops(l, out);
        out.push(*op);
        inorder_ops(r, out);
    }
}

#[test]
fn operators_stay_in_written_order() {
    let text = "12^3*4.5/6+7^8";
    let (terms, ops) = split_terms(&cs(text));
    assert_eq!(terms, vec![cs("12"), cs("3"), cs("4.5"), cs("6"), cs("7"), cs("8")]);
    assert_eq!(ops, cs("^*/+^"));
    let tree = reduction_tree(terms.len(), &ops).unwrap();
    let mut seen = Vec::new();
    inorder_ops(&tree, &mut seen);
    assert_eq!(seen, vec![BinOp::Pow, BinOp::Mul, BinOp::Div, BinOp::Add, BinOp::Pow]);
    assert!(well_shaped(&tree));
}

#[test]
fn first_group_is_replaced_in_place() {
    let text = cs("2*(1+(3))-(4)");
    let groups = paren_groups(&text);
    assert_eq!(groups[0], cs("1+(3)"));
    let shorter = cs("2*4-(4)");
    assert_eq!(paren_groups(&shorter), groups[1..].to_vec());
    let values = vec![cs("4"), cs("4")];
    assert_eq!(
        substitute_groups(&text, &groups, &values),
        substitute_groups(&shorter, &paren_groups(&shorter), &values[1..].to_vec())
    );
}
