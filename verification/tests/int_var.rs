use solver_cp::variables::int_var::{IntVar, IntVarDomainIterator};
use solver_cp::variables::{VariableError, VariableState};

fn from_values(values: Vec<i32>) -> IntVar {
    IntVar::new_from_iterator(values).unwrap()
}

fn sample_domains() -> Vec<Vec<i32>> {
    vec![
        vec![1, 2, 3, 4, 5, 6, 7, 8, 9],
        vec![1, 2, 3, 5, 7, 8, 9],
        vec![1, 2, 3, 5, 6, 9],
        vec![1, 3, 4, 5, 6, 7, 8, 9],
        vec![1, 5, 7, 9],
        vec![1],
    ]
}

fn sample_names() -> Vec<&'static str> {
    vec![
        "consectuive sorted values",
        "middle isolated value",
        "last isolated",
        "first isolated",
        "only isolated values",
        "singleton domain",
    ]
}

#[test]
fn test_new() {
    let vars = vec![(0, 1), (-1, 22), (3, 5), (5, 9), (2, 2)];
    for (min, max) in vars.into_iter() {
        let var = IntVar::new(min, max).unwrap();
        let domain = vec![(min, max)];
        assert!(var.min() == min, "min false for: \"{:?}\"", var);
        assert!(var.max() == max, "max false for: \"{:?}\"", var);
        assert!(*var.domain() == domain, "domain false for: \"{:?}\"", var);
    }
}

#[test]
fn test_new_error() {
    let vars = vec![(1, 0), (100, 22), (10, 5), (15, 9), (3, 2)];
    for (min, max) in vars.into_iter() {
        let var = IntVar::new(min, max);
        match var {
            None => {}
            _ => assert!(false, "Expected none for: \"{:?}\"", var),
        }
    }
}

#[test]
fn test_new_from_iterator() {
    let domains = sample_domains();
    let expected_domains = vec![
        vec![(1, 9)],
        vec![(1, 3), (5, 5), (7, 9)],
        vec![(1, 3), (5, 6), (9, 9)],
        vec![(1, 1), (3, 9)],
        vec![(1, 1), (5, 5), (7, 7), (9, 9)],
        vec![(1, 1)],
    ];
    let names = sample_names();
    let tests = domains
        .into_iter()
        .zip(expected_domains.into_iter())
        .zip(names.into_iter())
        .map(|((domain, expected_domain), name)| (domain, expected_domain, name));
    for (domain, expected_domain, name) in tests {
        let var = IntVar::new_from_iterator(domain);
        match var {
            Some(var) => assert!(
                *var.domain() == expected_domain,
                "Expected {:?} domain for {:?} found {:?}",
                expected_domain,
                name,
                var.domain()
            ),
            _ => assert!(false, "Expected some variable for: \"{:?}\"", name),
        }
    }
}

#[test]
fn test_new_from_iterator_error() {
    let domain: Vec<i32> = Vec::new();
    assert!(
        IntVar::new_from_iterator(domain).is_none(),
        "Expected for building from an empty iterator"
    )
}

#[test]
fn new_from_iterator_sorts_and_drops_repeats() {
    let var = from_values(vec![9, 1, 3, 2, 9, 7, 1, 8]);
    assert_eq!(*var.domain(), vec![(1, 3), (7, 9)]);
    assert_eq!(var.min(), 1);
    assert_eq!(var.max(), 9);
    let edge = from_values(vec![i32::MAX, i32::MIN, i32::MAX - 1]);
    assert_eq!(*edge.domain(), vec![(i32::MIN, i32::MIN), (i32::MAX - 1, i32::MAX)]);
}

#[test]
fn test_update_strict_binf() {
    let mut var = IntVar::new(0, 9).unwrap();
    assert_eq!(var.update_strict_binf(-1), Ok(VariableState::NoChange));
    assert_eq!(var, IntVar::new(0, 9).unwrap());
    assert_eq!(var.update_strict_binf(3), Ok(VariableState::MinBoundChange));
    assert_eq!(var, IntVar::new(4, 9).unwrap());
    assert_eq!(var.update_strict_binf(3), Ok(VariableState::NoChange));
    assert_eq!(var.update_strict_binf(9), Err(VariableError::DomainWipeout));
    assert_eq!(var, IntVar::new(4, 9).unwrap());
    let mut holes = from_values(vec![1, 2, 3, 5, 7, 8, 9]);
    assert_eq!(holes.update_strict_binf(3), Ok(VariableState::MinBoundChange));
    assert_eq!(*holes.domain(), vec![(5, 5), (7, 9)]);
    assert_eq!(holes.update_strict_binf(5), Ok(VariableState::MinBoundChange));
    assert_eq!(*holes.domain(), vec![(7, 9)]);
    assert_eq!(holes.min(), 7);
    let mut top = IntVar::new(0, i32::MAX).unwrap();
    assert_eq!(top.update_strict_binf(i32::MAX), Err(VariableError::DomainWipeout));
    assert_eq!(top.update_strict_binf(i32::MAX - 1), Ok(VariableState::MinBoundChange));
    assert_eq!(top.value(), Some(i32::MAX));
}

#[test]
fn test_update_weak_binf() {
    let mut var = IntVar::new(0, 9).unwrap();
    assert_eq!(var.update_weak_binf(0), Ok(VariableState::NoChange));
    assert_eq!(var.update_weak_binf(3), Ok(VariableState::MinBoundChange));
    assert_eq!(var, IntVar::new(3, 9).unwrap());
    assert_eq!(var.update_weak_binf(3), Ok(VariableState::NoChange));
    assert_eq!(var.update_weak_binf(9), Ok(VariableState::MinBoundChange));
    assert_eq!(var, IntVar::new(9, 9).unwrap());
    assert_eq!(var.update_weak_binf(10), Err(VariableError::DomainWipeout));
    assert_eq!(var, IntVar::new(9, 9).unwrap());
    let mut holes = from_values(vec![1, 2, 3, 5, 7, 8, 9]);
    assert_eq!(holes.update_weak_binf(4), Ok(VariableState::MinBoundChange));
    assert_eq!(*holes.domain(), vec![(5, 5), (7, 9)]);
    assert_eq!(holes.update_weak_binf(8), Ok(VariableState::MinBoundChange));
    assert_eq!(*holes.domain(), vec![(8, 9)]);
}

#[test]
fn test_update_valid_strict_bsup() {
    let vars = [(0, 1), (-1, 22), (3, 5), (5, 9), (2, 2)]
        .iter()
        .map(|&(min, max)| IntVar::new(min, max))
        .map(Option::unwrap)
        .collect::<Vec<_>>();
    let bsups = vec![1, 10, 4, 10, 3];
    let expected = [(0, 0), (-1, 9), (3, 3), (5, 9), (2, 2)]
        .iter()
        .map(|&(min, max)| IntVar::new(min, max))
        .map(Option::unwrap)
        .collect::<Vec<_>>();
    let results = vec![
        Ok(VariableState::MaxBoundChange),
        Ok(VariableState::MaxBoundChange),
        Ok(VariableState::MaxBoundChange),
        Ok(VariableState::NoChange),
        Ok(VariableState::NoChange),
    ];
    let iter = vars
        .into_iter()
        .zip(bsups.into_iter())
        .zip(expected.into_iter())
        .zip(results.into_iter())
        .map(|(((var, bsup), exp), res)| (var, bsup, exp, res));
    for (mut var, bsup, exp_var, exp_res) in iter {
        let res = var.update_strict_bsup(bsup);
        assert!(res == exp_res, "Unexpected result.");
        assert!(var == exp_var, "Unexpected domain.");
    }
}

#[test]
fn test_update_invalid_strict_bsup() {
    let vars = [(0, 1), (-1, 22), (3, 5), (5, 9), (2, 2)]
        .iter()
        .map(|&(min, max)| IntVar::new(min, max))
        .map(Option::unwrap)
        .collect::<Vec<_>>();
    let bsups = vec![0, -5, 3, 4, 2];
    let results = vec![
        Err(VariableError::DomainWipeout),
        Err(VariableError::DomainWipeout),
        Err(VariableError::DomainWipeout),
        Err(VariableError::DomainWipeout),
        Err(VariableError::DomainWipeout),
    ];
    let iter = vars
        .into_iter()
        .zip(bsups.into_iter())
        .zip(results.into_iter())
        .map(|((var, bsup), res)| (var, bsup, res));
    for (mut var, bsup, exp_res) in iter {
        let res = var.update_strict_bsup(bsup);
        assert!(res == exp_res, "Unexpected result.");
    }
}

#[test]
fn strict_bsup_at_the_lower_bound_is_a_wipeout() {
    for (min, max) in vec![(0, 1), (-1, 22), (2, 2), (i32::MIN, 0)] {
        let mut var = IntVar::new(min, max).unwrap();
        assert_eq!(var.update_strict_bsup(min), Err(VariableError::DomainWipeout));
        assert_eq!(var, IntVar::new(min, max).unwrap());
    }
}

#[test]
fn test_update_weak_bsup() {
    let mut var = IntVar::new(0, 9).unwrap();
    assert_eq!(var.update_weak_bsup(9), Ok(VariableState::NoChange));
    assert_eq!(var.update_weak_bsup(6), Ok(VariableState::MaxBoundChange));
    assert_eq!(var, IntVar::new(0, 6).unwrap());
    assert_eq!(var.update_weak_bsup(6), Ok(VariableState::NoChange));
    assert_eq!(var.update_weak_bsup(0), Ok(VariableState::MaxBoundChange));
    assert_eq!(var, IntVar::new(0, 0).unwrap());
    assert_eq!(var.update_weak_bsup(-1), Err(VariableError::DomainWipeout));
    assert_eq!(var, IntVar::new(0, 0).unwrap());
    let mut holes = from_values(vec![1, 2, 3, 5, 7, 8, 9]);
    assert_eq!(holes.update_weak_bsup(6), Ok(VariableState::MaxBoundChange));
    assert_eq!(*holes.domain(), vec![(1, 3), (5, 5)]);
    assert_eq!(holes.max(), 5);
    assert_eq!(holes.update_weak_bsup(2), Ok(VariableState::MaxBoundChange));
    assert_eq!(*holes.domain(), vec![(1, 2)]);
}

#[test]
fn tightening_twice_is_no_change() {
    let mut var = from_values(vec![1, 2, 3, 5, 7, 8, 9]);
    assert_eq!(var.update_weak_bsup(6), Ok(VariableState::MaxBoundChange));
    assert_eq!(var.update_weak_bsup(6), Ok(VariableState::NoChange));
    assert_eq!(var.update_strict_bsup(5), Ok(VariableState::MaxBoundChange));
    assert_eq!(var.update_strict_bsup(5), Ok(VariableState::NoChange));
    assert_eq!(var.update_weak_binf(2), Ok(VariableState::MinBoundChange));
    assert_eq!(var.update_weak_binf(2), Ok(VariableState::NoChange));
    assert_eq!(var.update_strict_binf(2), Ok(VariableState::MinBoundChange));
    assert_eq!(var.update_strict_binf(2), Ok(VariableState::NoChange));
    assert_eq!(var.value(), Some(3));
}

#[test]
fn test_unsafe_remove_value() {
    let mut var = from_values(vec![1, 2, 3, 5, 7, 8, 9]);
    assert_eq!(var.unsafe_remove_value(4), VariableState::NoChange);
    assert_eq!(var.unsafe_remove_value(8), VariableState::ValuesChange);
    assert_eq!(*var.domain(), vec![(1, 3), (5, 5), (7, 7), (9, 9)]);
    assert_eq!(var.unsafe_remove_value(5), VariableState::ValuesChange);
    assert_eq!(*var.domain(), vec![(1, 3), (7, 7), (9, 9)]);
    assert_eq!(var.unsafe_remove_value(1), VariableState::MinBoundChange);
    assert_eq!(*var.domain(), vec![(2, 3), (7, 7), (9, 9)]);
    assert_eq!(var.min(), 2);
    assert_eq!(var.unsafe_remove_value(9), VariableState::MaxBoundChange);
    assert_eq!(*var.domain(), vec![(2, 3), (7, 7)]);
    assert_eq!(var.max(), 7);
    assert_eq!(var.unsafe_remove_value(3), VariableState::ValuesChange);
    assert_eq!(var.unsafe_remove_value(7), VariableState::MaxBoundChange);
    assert_eq!(var, IntVar::new(2, 2).unwrap());
}

#[test]
fn remove_value_splits_shrinks_or_leaves() {
    let mut var = IntVar::new(1, 9).unwrap();
    assert_eq!(var.remove_value(5), Ok(VariableState::ValuesChange));
    assert_eq!(*var.domain(), vec![(1, 4), (6, 9)]);
    assert_eq!(var.remove_value(5), Ok(VariableState::NoChange));
    assert_eq!(var.remove_value(1), Ok(VariableState::MinBoundChange));
    assert_eq!(*var.domain(), vec![(2, 4), (6, 9)]);
    assert_eq!(var.remove_value(9), Ok(VariableState::MaxBoundChange));
    assert_eq!(*var.domain(), vec![(2, 4), (6, 8)]);
    assert_eq!(var.remove_value(0), Ok(VariableState::NoChange));
    assert_eq!(var.remove_value(100), Ok(VariableState::NoChange));
    assert_eq!(*var.domain(), vec![(2, 4), (6, 8)]);
    let mut fixed = IntVar::new(3, 3).unwrap();
    assert_eq!(fixed.remove_value(4), Ok(VariableState::NoChange));
    assert_eq!(fixed.remove_value(3), Err(VariableError::DomainWipeout));
    assert_eq!(fixed, IntVar::new(3, 3).unwrap());
}

#[test]
fn test_less_than() {
    let mut a = IntVar::new(3, 10).unwrap();
    let mut b = IntVar::new(2, 6).unwrap();
    assert_eq!(
        a.less_than(&mut b),
        Ok((VariableState::MaxBoundChange, VariableState::MinBoundChange))
    );
    assert_eq!(a, IntVar::new(3, 5).unwrap());
    assert_eq!(b, IntVar::new(4, 6).unwrap());
    assert_eq!(a.less_than(&mut b), Ok((VariableState::NoChange, VariableState::NoChange)));
    let mut c = IntVar::new(6, 8).unwrap();
    let mut d = IntVar::new(1, 6).unwrap();
    assert_eq!(c.less_than(&mut d), Err(VariableError::DomainWipeout));
    assert_eq!(c, IntVar::new(6, 8).unwrap());
    assert_eq!(d, IntVar::new(1, 6).unwrap());
}

#[test]
fn test_less_or_equal_than() {
    let mut a = IntVar::new(3, 10).unwrap();
    let mut b = IntVar::new(2, 6).unwrap();
    assert_eq!(
        a.less_or_equal_than(&mut b),
        Ok((VariableState::MaxBoundChange, VariableState::MinBoundChange))
    );
    assert_eq!(a, IntVar::new(3, 6).unwrap());
    assert_eq!(b, IntVar::new(3, 6).unwrap());
    let mut c = IntVar::new(6, 8).unwrap();
    let mut d = IntVar::new(1, 6).unwrap();
    assert_eq!(
        c.less_or_equal_than(&mut d),
        Ok((VariableState::MaxBoundChange, VariableState::MinBoundChange))
    );
    assert_eq!(c.value(), Some(6));
    assert_eq!(d.value(), Some(6));
    let mut e = IntVar::new(7, 8).unwrap();
    let mut f = IntVar::new(1, 6).unwrap();
    assert_eq!(e.less_or_equal_than(&mut f), Err(VariableError::DomainWipeout));
}

#[test]
fn test_greater_than() {
    let mut a = IntVar::new(2, 6).unwrap();
    let mut b = IntVar::new(3, 10).unwrap();
    assert_eq!(
        a.greater_than(&mut b),
        Ok((VariableState::MinBoundChange, VariableState::MaxBoundChange))
    );
    assert_eq!(a, IntVar::new(4, 6).unwrap());
    assert_eq!(b, IntVar::new(3, 5).unwrap());
    let mut c = IntVar::new(1, 6).unwrap();
    let mut d = IntVar::new(6, 8).unwrap();
    assert_eq!(c.greater_than(&mut d), Err(VariableError::DomainWipeout));
}

#[test]
fn test_greater_or_equal_than() {
    let mut a = IntVar::new(2, 6).unwrap();
    let mut b = IntVar::new(3, 10).unwrap();
    assert_eq!(
        a.greater_or_equal_than(&mut b),
        Ok((VariableState::MinBoundChange, VariableState::MaxBoundChange))
    );
    assert_eq!(a, IntVar::new(3, 6).unwrap());
    assert_eq!(b, IntVar::new(3, 6).unwrap());
    let mut c = IntVar::new(1, 5).unwrap();
    let mut d = IntVar::new(6, 8).unwrap();
    assert_eq!(c.greater_or_equal_than(&mut d), Err(VariableError::DomainWipeout));
}

#[test]
fn test_equal() {
    let mut a = from_values(vec![1, 3, 5]);
    let mut b = from_values(vec![2, 3, 4]);
    assert_eq!(
        a.equal(&mut b),
        Ok((VariableState::BoundsChange, VariableState::BoundsChange))
    );
    assert_eq!(a.value(), Some(3));
    assert_eq!(b.value(), Some(3));
    let mut c = from_values(vec![1, 2, 3, 4, 5, 8, 9]);
    let mut d = from_values(vec![1, 3, 4, 6, 7, 8, 9, 10]);
    assert_eq!(
        c.equal(&mut d),
        Ok((VariableState::ValuesChange, VariableState::MaxBoundChange))
    );
    assert_eq!(*c.domain(), vec![(1, 1), (3, 4), (8, 9)]);
    assert_eq!(c, d);
    assert_eq!(c.equal(&mut d), Ok((VariableState::NoChange, VariableState::NoChange)));
    let mut e = from_values(vec![1, 3, 5]);
    let mut f = from_values(vec![2, 4, 6]);
    assert_eq!(e.equal(&mut f), Err(VariableError::DomainWipeout));
    assert_eq!(e, from_values(vec![1, 3, 5]));
    assert_eq!(f, from_values(vec![2, 4, 6]));
}

#[test]
fn test_set_value() {
    let domains = sample_domains();
    let names = sample_names();
    let tests = domains.into_iter().zip(names.into_iter());
    for (domain, name) in tests {
        let domain_clone = domain.clone();
        let var = IntVar::new_from_iterator(domain).unwrap();
        for value in domain_clone.into_iter() {
            let expected = if var.is_fixed() {
                Ok(VariableState::NoChange)
            } else if value == var.min() {
                Ok(VariableState::MaxBoundChange)
            } else if value == var.max() {
                Ok(VariableState::MinBoundChange)
            } else {
                Ok(VariableState::BoundsChange)
            };
            let mut var = var.clone();
            let res = var.set_value(value);
            assert!(
                res == expected,
                "Expected {:?} for {:?} with value {:?} found {:?}.",
                expected,
                name,
                value,
                res
            );
            let expected_var = IntVar::new_from_iterator(vec![value]).unwrap();
            assert!(
                var == expected_var,
                "Expected {:?} for {:?} with value {:?} found {:?}.",
                expected_var,
                name,
                value,
                var
            );
        }
    }
}

#[test]
fn test_set_value_error() {
    let domains = sample_domains();
    let values = vec![
        vec![0, 10],
        vec![0, 4, 6, 10],
        vec![0, 4, 7, 8, 10],
        vec![0, 2, 10],
        vec![0, 2, 3, 4, 6, 8, 10],
        vec![0, 2],
    ];
    let names = vec![
        "consectuive sorted values",
        "middle isolated value",
        "last isolated",
        "first isolated",
        "only isolated values",
        "signleton domain",
    ];
    let tests = domains
        .into_iter()
        .zip(values.into_iter())
        .zip(names.into_iter())
        .map(|((domain, values), name)| (domain, values, name));
    for (domain, values, name) in tests {
        let var = IntVar::new_from_iterator(domain).unwrap();
        for value in values.into_iter() {
            let mut var = var.clone();
            let res = var.set_value(value);
            assert!(
                res == Err(VariableError::DomainWipeout),
                "Expected Error for {:?} with value {:?} found {:?}.",
                name,
                value,
                res
            )
        }
    }
}

fn drain(mut walk: IntVarDomainIterator) -> Vec<i32> {
    let mut out = Vec::new();
    while let Some(value) = walk.next() {
        out.push(value);
    }
    out
}

#[test]
fn test_domain_iterator() {
    let vars = [(0, 1), (-1, 22), (3, 5), (5, 9), (2, 2)]
        .iter()
        .map(|&(min, max)| IntVar::new(min, max))
        .map(Option::unwrap)
        .collect::<Vec<_>>();
    let domains = vec![
        vec![0, 1],
        vec![
            -1, 0, 1, 2, 3, 4, 5, 6, 7, 8, 9, 10, 11, 12, 13, 14, 15, 16, 17, 18, 19, 20, 21, 22,
        ],
        vec![3, 4, 5],
        vec![5, 6, 7, 8, 9],
        vec![2],
    ];
    for (domain, expected) in vars.into_iter().zip(domains.into_iter()) {
        let tmp_domain = domain.clone();
        let tmp_expected = expected.clone();
        assert!(
            drain(domain.domain_iter()) == expected,
            "expected: {:?}for{:?}",
            tmp_expected,
            tmp_domain
        )
    }
}

#[test]
fn domain_iterator_walks_every_interval() {
    let var = from_values(vec![1, 2, 3, 5, 7, 8]);
    assert_eq!(drain(var.domain_iter()), vec![1, 2, 3, 5, 7, 8]);
    assert_eq!(var.values(), vec![1, 2, 3, 5, 7, 8]);
    let mut walk = IntVarDomainIterator::new(vec![(4, 4)]);
    assert_eq!(walk.next(), Some(4));
    assert_eq!(walk.next(), None);
    assert_eq!(walk.next(), None);
    let mut empty = IntVarDomainIterator::new(Vec::new());
    assert_eq!(empty.next(), None);
}

#[test]
fn rebuilding_from_the_values_gives_an_equal_domain() {
    for domain in sample_domains() {
        let var = from_values(domain);
        let rebuilt = from_values(var.values());
        assert_eq!(rebuilt, var);
        assert_eq!(rebuilt.domain(), var.domain());
    }
}

#[test]
fn a_clone_is_equal_to_what_was_cloned() {
    for domain in sample_domains() {
        let var = from_values(domain);
        let copy = var.clone();
        assert!(copy == var);
        let mut other = var.clone();
        if other.remove_value(1).is_ok() {
            assert!(other != var);
        }
    }
}

#[test]
fn new_with_equal_bounds_is_fixed() {
    for a in vec![i32::MIN, -3, 0, 7, i32::MAX] {
        let var = IntVar::new(a, a).unwrap();
        assert!(var.is_fixed());
        assert_eq!(var.value(), Some(a));
        assert_eq!(var.domain().len(), 1);
        assert_eq!(var.size(), 1);
    }
    assert_eq!(IntVar::new(0, 1).unwrap().value(), None);
}

#[test]
fn contains_and_size_follow_the_intervals() {
    let var = from_values(vec![1, 2, 3, 5, 7, 8, 9]);
    for value in 0..11 {
        assert_eq!(var.contains(value), [1, 2, 3, 5, 7, 8, 9].contains(&value));
    }
    assert_eq!(var.size(), 7);
    assert_eq!(IntVar::new(i32::MIN, i32::MAX).unwrap().size(), 1u64 << 32);
}

#[test]
fn unsafe_set_value_replaces_the_domain() {
    let mut var = IntVar::new(0, 5).unwrap();
    var.unsafe_set_value(42);
    assert_eq!(var, IntVar::new(42, 42).unwrap());
}
