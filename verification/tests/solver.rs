use rand::Rng;
use serotonin::solver::definition::Constraint;
use serotonin::solver::positional::PositionalConstraint as PC;
use serotonin::solver::union::Union;
use serotonin::solver::{Reduction, StackValue};

fn make_tests() -> Vec<(Vec<PC>, Reduction, Vec<PC>)> {
    vec![
        // C(@, @) x @ -> C(@)
        (vec![PC::AnyByte, PC::AnyByte], Reduction::AnyByte, vec![PC::AnyByte]),
        // C(@, @) x 0 -> C(@)
        (vec![PC::AnyByte, PC::AnyByte], Reduction::ExactByte(0), vec![PC::AnyByte]),
        // C(a, a) x @ -> C(a)
        (
            vec![PC::PositionalByte(0), PC::PositionalByte(0)],
            Reduction::AnyByte,
            vec![PC::PositionalByte(0)],
        ),
        // C(a, a) x 0 -> C(0)
        (
            vec![PC::PositionalByte(0), PC::PositionalByte(0)],
            Reduction::ExactByte(0),
            vec![PC::ExactByte(0)],
        ),
        // C(a, b) x @ -> C(b)
        (
            vec![PC::PositionalByte(0), PC::PositionalByte(1)],
            Reduction::AnyByte,
            vec![PC::PositionalByte(0)],
        ),
        // C(a, b) x 0 -> C(b)
        (
            vec![PC::PositionalByte(0), PC::PositionalByte(1)],
            Reduction::ExactByte(0),
            vec![PC::PositionalByte(0)],
        ),
        // C(a, a, a) X @ -> C(a, a)
        (
            vec![PC::PositionalByte(0), PC::PositionalByte(0), PC::PositionalByte(0)],
            Reduction::AnyByte,
            vec![PC::PositionalByte(0), PC::PositionalByte(0)],
        ),
        // C(a, b, a, a) x @ -> C(b, a, a)
        (
            vec![
                PC::PositionalByte(0),
                PC::PositionalByte(1),
                PC::PositionalByte(0),
                PC::PositionalByte(0),
            ],
            Reduction::AnyByte,
            vec![PC::PositionalByte(0), PC::PositionalByte(1), PC::PositionalByte(1)],
        ),
    ]
}

#[test]
fn reduce_bytes() {
    for (input, value, expected) in &make_tests() {
        let c = Constraint::new(input.clone());
        let reduced = c.reduce(value);
        assert_eq!(
            reduced,
            Constraint::new(expected.clone()),
            "Failed for {:?} {:?} {:?}",
            input,
            value,
            expected
        );
    }
}

fn to_quotation(p: &PC) -> PC {
    match p {
        PC::AnyByte => PC::AnyQuotation,
        PC::PositionalByte(n) => PC::PositionalQuotation(*n),
        PC::ExactByte(_) => PC::ExactQuotation("...".into()),
        _ => unreachable!(),
    }
}

#[test]
fn reduce_quotations() {
    // run the same tests but convert from bytes to quotations
    for (input, value, expected) in &make_tests() {
        let input: Vec<PC> = input.iter().map(to_quotation).collect();

        let value = match value {
            Reduction::AnyByte => Reduction::AnyQuotation,
            Reduction::ExactByte(_) => Reduction::ExactQuotation("...".into()),
            _ => unreachable!(),
        };

        let expected: Vec<PC> = expected.iter().map(to_quotation).collect();

        let c = Constraint::new(input.clone());
        let reduced = c.reduce(&value);
        assert_eq!(
            reduced,
            Constraint::new(expected.clone()),
            "Failed for {:?} {:?} {:?}",
            input,
            value,
            expected
        );
    }
}

#[test]
fn reduce_heterogenous() {
    let tests = vec![
        (vec![PC::AnyByte, PC::AnyQuotation], Reduction::AnyByte, vec![PC::AnyQuotation]),
        (vec![PC::ExactByte(0), PC::AnyQuotation], Reduction::AnyByte, vec![PC::AnyQuotation]),
    ];

    for (input, value, expected) in tests {
        let c = Constraint::new(input.clone());
        let reduced = c.reduce(&value);
        assert_eq!(
            reduced,
            Constraint::new(expected.clone()),
            "Failed for {:?} {:?} {:?}",
            input,
            value,
            expected
        );
    }
}

fn union_of(u: Vec<Vec<PC>>) -> Union {
    Union::from_constraints(u.into_iter().map(Constraint::new).collect())
}

#[test]
fn union_is_subset() {
    let tests = vec![
        (vec![], vec![], false),
        (vec![vec![]], vec![], true),
        // C(0, 0) is a subset of { C(@, @) }
        (
            vec![vec![PC::AnyByte, PC::AnyByte]],
            vec![PC::PositionalByte(0), PC::PositionalByte(0)],
            true,
        ),
        // C(0, 0) is a subset of { C(a, b) }
        (
            vec![vec![PC::PositionalByte(0), PC::PositionalByte(1)]],
            vec![PC::PositionalByte(0), PC::PositionalByte(0)],
            true,
        ),
        // C(0, 0) is a subset of { C(a, a) }
        (
            vec![vec![PC::PositionalByte(0), PC::PositionalByte(0)]],
            vec![PC::PositionalByte(0), PC::PositionalByte(0)],
            true,
        ),
        // C(a, a) is a subset of { C(a, b) }
        (
            vec![vec![PC::PositionalByte(0), PC::PositionalByte(1)]],
            vec![PC::PositionalByte(0), PC::PositionalByte(0)],
            true,
        ),
        // C(a, 0, a) is a subset of { C(a, b, a) }
        (
            vec![vec![PC::PositionalByte(0), PC::PositionalByte(1), PC::PositionalByte(0)]],
            vec![PC::PositionalByte(0), PC::ExactByte(0), PC::PositionalByte(0)],
            true,
        ),
        // C(0, 0) is not a subset of { C(1, 1) }
        (
            vec![vec![PC::ExactByte(1), PC::ExactByte(1)]],
            vec![PC::ExactByte(0), PC::ExactByte(0)],
            false,
        ),
    ];

    for (u, constraint, expected) in tests {
        let union = union_of(u);
        let c = Constraint::new(constraint);
        assert_eq!(union.is_subset(&c), expected);
    }
}

#[test]
fn union_empty_accepts_any_constraint() {
    let mut u = Union::new();
    assert!(u.try_push(Constraint::new(vec![PC::ExactByte(3), PC::PositionalByte(1)])));
    assert_eq!(u.len(), 1);
}

#[test]
fn union_with_all_any_refuses_more() {
    let mut u = Union::new();
    assert!(u.try_push(Constraint::new(vec![PC::AnyByte, PC::AnyByte])));
    assert!(!u.try_push(Constraint::new(vec![PC::ExactByte(7), PC::PositionalByte(1)])));
    assert!(!u.try_push(Constraint::new(vec![PC::PositionalByte(0), PC::PositionalByte(0)])));
    assert_eq!(u.len(), 1);

    let mut q = Union::new();
    assert!(q.try_push(Constraint::new(vec![PC::AnyQuotation])));
    assert!(!q.try_push(Constraint::new(vec![PC::ExactQuotation("abc".into())])));
}

#[test]
fn constraint_contains_states() {
    let c = Constraint::new(vec![PC::PositionalByte(0), PC::ExactByte(5), PC::PositionalByte(0)]);
    assert!(c.contains(&[StackValue::Byte(9), StackValue::Byte(5), StackValue::Byte(9)]));
    assert!(!c.contains(&[StackValue::Byte(9), StackValue::Byte(5), StackValue::Byte(8)]));
    assert!(!c.contains(&[StackValue::Byte(9), StackValue::Byte(4), StackValue::Byte(9)]));
    assert!(!c.contains(&[StackValue::Byte(9), StackValue::Byte(5)]));
    let q = Constraint::new(vec![PC::ExactQuotation("ab".into()), PC::AnyByte]);
    assert!(q.contains(&[StackValue::Quotation("ab".into()), StackValue::Byte(0)]));
    assert!(!q.contains(&[StackValue::Quotation("abc".into()), StackValue::Byte(0)]));
    assert!(!q.contains(&[StackValue::Byte(0), StackValue::Byte(0)]));
}

#[test]
fn union_find_constraint_first_match() {
    let u = union_of(vec![
        vec![PC::ExactByte(1)],
        vec![PC::AnyByte],
        vec![PC::ExactByte(2)],
    ]);
    assert_eq!(u.find_constraint(&[StackValue::Byte(1)]), Some(0));
    assert_eq!(u.find_constraint(&[StackValue::Byte(2)]), Some(1));
    assert_eq!(u.find_constraint(&[StackValue::Quotation("x".into())]), None);
    assert!(u.check_len(1));
    assert!(!u.check_len(2));
}

#[test]
fn stack_value_accessors() {
    let b = StackValue::Byte(4);
    let q = StackValue::Quotation("x".into());
    assert_eq!(b.byte(), Some(4));
    assert_eq!(q.byte(), None);
    assert_eq!(q.quotation(), Some(&String::from("x")));
    assert!(b.is_byte() && !b.is_quotation());
    assert!(q.is_quotation() && !q.is_byte());
}

#[test]
fn reduction_accessors() {
    assert_eq!(Reduction::new_any(true), Reduction::AnyByte);
    assert_eq!(Reduction::new_any(false), Reduction::AnyQuotation);
    assert_eq!(Reduction::ExactByte(3).byte(), Some(3));
    assert!(Reduction::ExactQuotation("a".into()).is_quotation());
    assert_eq!(Reduction::from(StackValue::Byte(9)), Reduction::ExactByte(9));
    assert_eq!(Reduction::try_from(PC::AnyByte), Ok(Reduction::AnyByte));
    assert_eq!(Reduction::try_from(PC::PositionalByte(0)), Ok(Reduction::AnyByte));
    assert_eq!(Reduction::try_from(PC::PositionalQuotation(0)), Ok(Reduction::AnyQuotation));
    assert!(Reduction::try_from(PC::PositionalByte(1)).is_err());
}

#[test]
fn positional_constraint_queries() {
    assert_eq!(PC::ExactByte(3).exact_value(), Some(StackValue::Byte(3)));
    assert_eq!(PC::AnyByte.exact_value(), None);
    assert!(PC::PositionalByte(2).variant_eq(&PC::PositionalByte(5)));
    assert!(!PC::PositionalByte(2).variant_eq(&PC::PositionalQuotation(2)));
    assert!(PC::AnyQuotation.is_any() && PC::AnyQuotation.is_quotation());
    assert!(PC::ExactByte(1).is_byte() && !PC::ExactByte(1).is_any());
}

/// A random syntactically valid Brainfuck program of `n` commands.
fn random_brainfuck(n: usize) -> String {
    let mut rng = rand::thread_rng();
    let commands = ['+', '-', '>', '<', '.', ','];
    let mut program = String::with_capacity(n);
    let mut open_brackets = 0;
    for _ in 0..n {
        let k = rng.gen_range(0..commands.len() + 2);
        if k < commands.len() {
            program.push(commands[k]);
        } else if k == commands.len() || open_brackets == 0 {
            program.push('[');
            open_brackets += 1;
        } else {
            program.push(']');
            open_brackets -= 1;
        }
    }
    for _ in 0..open_brackets {
        program.push(']');
    }
    program
}

/// A positional constraint at `idx`: a new position, or a copy of an earlier
/// entry of the same kind.
fn positional_helper(constraints: &[PC], is_byte: bool, idx: usize) -> PC {
    let mut rng = rand::thread_rng();
    let items: Vec<&PC> = constraints.iter().filter(|e| e.is_byte() == is_byte).collect();
    if items.is_empty() || rng.gen::<bool>() {
        if is_byte {
            return PC::PositionalByte(idx);
        } else {
            return PC::PositionalQuotation(idx);
        }
    }
    items[rng.gen_range(0..items.len())].clone()
}

/// A random constraint of `n` entries: bytes only (`Some(true)`), quotations
/// only (`Some(false)`), or anything.
fn random_constraint(n: usize, heterogeneous: Option<bool>) -> Constraint {
    let mut rng = rand::thread_rng();
    let mut constraints: Vec<PC> = Vec::with_capacity(n);
    for i in 0..n {
        let cmd = match heterogeneous {
            Some(true) => match rng.gen_range(0..3) {
                0 => PC::AnyByte,
                1 => PC::ExactByte(rng.gen::<u8>()),
                _ => positional_helper(&constraints, true, i),
            },
            Some(false) => match rng.gen_range(0..3) {
                0 => PC::AnyQuotation,
                1 => PC::ExactQuotation(random_brainfuck(rng.gen_range(0..100))),
                _ => positional_helper(&constraints, false, i),
            },
            None => match rng.gen_range(0..6) {
                0 => PC::AnyByte,
                1 => PC::AnyQuotation,
                2 => positional_helper(&constraints, true, i),
                3 => positional_helper(&constraints, false, i),
                4 => PC::ExactByte(rng.gen::<u8>()),
                _ => PC::ExactQuotation(random_brainfuck(50)),
            },
        };
        constraints.push(cmd);
    }
    Constraint::new(constraints)
}

#[test]
fn union_add_empty() {
    for n in 1..10 {
        for _ in 0..100 {
            let mut u = Union::new();
            let c = random_constraint(n, None);
            assert!(u.try_push(c), "Union::add(_) should always return true if the union is empty");
        }
    }
}

#[test]
fn union_add_any() {
    for n in 1..10 {
        for _ in 0..100 {
            let bytes: bool = rand::random();
            let mut u = Union::new();
            let anys = if bytes {
                Constraint::new(vec![PC::AnyByte; n])
            } else {
                Constraint::new(vec![PC::AnyQuotation; n])
            };
            assert!(u.try_push(anys), "Adding to an empty union should always return true");
            let c = random_constraint(n, Some(bytes));
            assert!(
                !u.try_push(c),
                "Adding a constraint to a union that already contains [Any, Any, ...] should always return false"
            );
        }
    }
}

#[test]
fn positional_byte_rejects_quotation() {
    let c = Constraint::new(vec![PC::PositionalByte(0)]);
    assert!(!c.contains(&[StackValue::Quotation("+".into())]));
    assert!(c.contains(&[StackValue::Byte(4)]));
    let q = Constraint::new(vec![PC::PositionalQuotation(0)]);
    assert!(!q.contains(&[StackValue::Byte(4)]));
    assert!(q.contains(&[StackValue::Quotation("+".into())]));
}

#[test]
fn subset_needs_every_state_covered() {
    // (0, 7) is in C(0, @) but in neither C(0, 5) nor C(1, @)
    let u = union_of(vec![
        vec![PC::ExactByte(0), PC::ExactByte(5)],
        vec![PC::ExactByte(1), PC::AnyByte],
    ]);
    let c = Constraint::new(vec![PC::ExactByte(0), PC::AnyByte]);
    assert!(!u.is_subset(&c));

    let mut u = u;
    assert!(u.try_push(Constraint::new(vec![PC::ExactByte(0), PC::AnyByte])));
    assert_eq!(u.len(), 3);
    assert!(u.is_subset(&Constraint::new(vec![PC::ExactByte(0), PC::ExactByte(9)])));
}

#[test]
fn subset_of_exact_and_equal_pairs() {
    // C(a, a) is covered by C(5, @) together with C(a, a)
    let u = union_of(vec![
        vec![PC::ExactByte(5), PC::AnyByte],
        vec![PC::PositionalByte(0), PC::PositionalByte(0)],
    ]);
    assert!(u.is_subset(&Constraint::new(vec![PC::PositionalByte(0), PC::PositionalByte(0)])));
    // C(a, b) is not: (6, 7) is in no member
    assert!(!u.is_subset(&Constraint::new(vec![PC::PositionalByte(0), PC::PositionalByte(1)])));

    // C(a, a) is covered by C(5, @) together with C(@, w) for every w other than 5
    let mut members = vec![vec![PC::ExactByte(5), PC::AnyByte]];
    for w in 0..=255u8 {
        if w != 5 {
            members.push(vec![PC::AnyByte, PC::ExactByte(w)]);
        }
    }
    let u = union_of(members);
    assert!(u.is_subset(&Constraint::new(vec![PC::PositionalByte(0), PC::PositionalByte(0)])));
    assert!(!u.is_subset(&Constraint::new(vec![PC::PositionalByte(0), PC::ExactByte(5)])));
}

#[test]
fn subset_of_all_bytes_and_quotations() {
    let all: Vec<Vec<PC>> = (0..=255u8).map(|b| vec![PC::ExactByte(b)]).collect();
    assert!(union_of(all).is_subset(&Constraint::new(vec![PC::AnyByte])));
    let some: Vec<Vec<PC>> = (0..=254u8).map(|b| vec![PC::ExactByte(b)]).collect();
    assert!(!union_of(some).is_subset(&Constraint::new(vec![PC::AnyByte])));

    let q = union_of(vec![vec![PC::ExactQuotation("a".into())]]);
    assert!(!q.is_subset(&Constraint::new(vec![PC::AnyQuotation])));
    assert!(q.is_subset(&Constraint::new(vec![PC::ExactQuotation("a".into())])));
    assert!(!q.is_subset(&Constraint::new(vec![PC::ExactQuotation("b".into())])));
    let q2 = union_of(vec![vec![PC::ExactQuotation("a".into())], vec![PC::AnyQuotation]]);
    assert!(q2.is_subset(&Constraint::new(vec![PC::PositionalQuotation(0)])));
}

#[test]
fn reduce_membership() {
    // C(a, a): reducing by any byte keeps the states some byte completes
    let c = Constraint::new(vec![PC::PositionalByte(0), PC::PositionalByte(0)]);
    let any = c.reduce(&Reduction::AnyByte);
    assert!(any.contains(&[StackValue::Byte(7)]));
    assert!(c.contains(&[StackValue::Byte(7), StackValue::Byte(7)]));
    // reducing by an exact byte keeps the states that byte completes
    let three = c.reduce(&Reduction::ExactByte(3));
    assert!(three.contains(&[StackValue::Byte(3)]));
    assert!(c.contains(&[StackValue::Byte(3), StackValue::Byte(3)]));
    assert!(!three.contains(&[StackValue::Byte(4)]));
    assert!(!c.contains(&[StackValue::Byte(3), StackValue::Byte(4)]));
    // a quotation is no byte
    assert!(!any.contains(&[StackValue::Quotation("x".to_string())]));
}
