use quadrature::expr::Expr;
use quadrature::quad::{integrate_nested, DimSpec, QuadError};
use quadrature::rat::Rat;
use quadrature::sampler::{sample_interval, BoundIter};

fn rat(num: i64, den: i64) -> Rat {
    Rat::new(num, den).unwrap()
}

/// Checks that `r` stands for the value `num / den`.
fn assert_value(r: Rat, num: i128, den: i128) {
    assert!(r.den > 0);
    assert_eq!((r.num as i128) * den, num * (r.den as i128));
}

fn dim(lower: Expr, upper: Expr, count: Option<usize>) -> DimSpec {
    DimSpec { lower, upper, count }
}

#[test]
fn rat_constructor_rejects_bad_denominator() {
    assert!(Rat::new(1, 0).is_none());
    assert!(Rat::new(1, -2).is_none());
    let v = rat(3, 4);
    assert_eq!(v.num, 3);
    assert_eq!(v.den, 4);
    assert_eq!(Rat::from_int(-7).num, -7);
    assert_eq!(Rat::from_int(-7).den, 1);
}

#[test]
fn rat_arithmetic_is_exact() {
    let half_plus_third = rat(1, 2).checked_add(rat(1, 3)).unwrap();
    assert_value(half_plus_third, 5, 6);
    let diff = rat(1, 2).checked_sub(rat(1, 3)).unwrap();
    assert_value(diff, 1, 6);
    let prod = rat(2, 3).checked_mul(rat(-9, 4)).unwrap();
    assert_value(prod, -3, 2);
    assert!(rat(i64::MAX, 1).checked_mul(rat(2, 1)).is_none());
    let reduced = rat(6, 8).reduced();
    assert_eq!(reduced.num, 3);
    assert_eq!(reduced.den, 4);
    let reduced_neg = rat(-10, 4).reduced();
    assert_eq!(reduced_neg.num, -5);
    assert_eq!(reduced_neg.den, 2);
    let extreme = rat(i64::MIN, 4).reduced();
    assert_eq!(extreme.num, i64::MIN / 4);
    assert_eq!(extreme.den, 1);
    let quot = rat(3, 4).checked_div(rat(-2, 3)).unwrap();
    assert_value(quot, -9, 8);
    assert!(rat(1, 2).checked_div(rat(0, 1)).is_none());
}

#[test]
fn bound_iter_yields_each_midpoint_once() {
    let mut it = BoundIter::new(rat(0, 1), rat(1, 1), 4).unwrap();
    let expected = [(1i128, 8i128), (3, 8), (5, 8), (7, 8)];
    for &(n, d) in expected.iter() {
        let s = it.next().unwrap().unwrap();
        assert_value(s.midpoint, n, d);
        assert_value(s.width, 1, 4);
    }
    assert!(it.next().unwrap().is_none());
}

#[test]
fn bound_iter_rejects_zero_cells() {
    assert_eq!(
        BoundIter::new(rat(0, 1), rat(1, 1), 0).unwrap_err(),
        QuadError::InvalidResolution
    );
}

#[test]
fn sample_interval_yields_count_samples_summing_to_span() {
    let samples = sample_interval(rat(1, 3), rat(3, 2), 7).unwrap();
    assert_eq!(samples.len(), 7);
    // every width is (3/2 - 1/3) / 7 = 1/6; seven of them sum to 7/6
    let mut sum_num: i128 = 0;
    let mut sum_den: i128 = 1;
    for s in &samples {
        assert_value(s.width, 1, 6);
        sum_num = sum_num * (s.width.den as i128) + (s.width.num as i128) * sum_den;
        sum_den *= s.width.den as i128;
        // each midpoint lies strictly inside (1/3, 3/2)
        let m = s.midpoint;
        assert!(1 * (m.den as i128) < (m.num as i128) * 3);
        assert!((m.num as i128) * 2 < 3 * (m.den as i128));
    }
    // sum of widths == 3/2 - 1/3 == 7/6
    assert_eq!(sum_num * 6, 7 * sum_den);
}

#[test]
fn sample_interval_reversed_direction_has_negative_widths() {
    let samples = sample_interval(rat(2, 1), rat(1, 1), 4).unwrap();
    assert_eq!(samples.len(), 4);
    for s in &samples {
        assert_value(s.width, -1, 4);
    }
    // first midpoint is 2 - 1/8 = 15/8
    assert_value(samples[0].midpoint, 15, 8);
}

#[test]
fn sample_interval_single_cell() {
    let samples = sample_interval(rat(-1, 1), rat(1, 1), 1).unwrap();
    assert_eq!(samples.len(), 1);
    assert_value(samples[0].midpoint, 0, 1);
    assert_value(samples[0].width, 2, 1);
}

#[test]
fn sample_interval_rejects_zero_count() {
    assert_eq!(
        sample_interval(rat(0, 1), rat(1, 1), 0).unwrap_err(),
        QuadError::InvalidResolution
    );
}

#[test]
fn constant_integrand_over_single_interval() {
    // c = 3 over [1, 4]: exactly 9, whatever the count
    for count in [1usize, 7, 100] {
        let dims = vec![dim(
            Expr::Const(Rat::from_int(1)),
            Expr::Const(Rat::from_int(4)),
            Some(count),
        )];
        let v = integrate_nested(&Expr::Const(Rat::from_int(3)), &dims).unwrap();
        assert_value(v, 9, 1);
    }
}

#[test]
fn constant_integrand_reversed_interval_is_negative() {
    // c = 1 over [4, 1]: exactly -3
    let dims = vec![dim(
        Expr::Const(Rat::from_int(4)),
        Expr::Const(Rat::from_int(1)),
        Some(5),
    )];
    let v = integrate_nested(&Expr::Const(Rat::from_int(1)), &dims).unwrap();
    assert_value(v, -3, 1);
}

#[test]
fn linear_integrand_is_exact_for_every_count() {
    // f(x) = x over [0, 2]: the midpoint rule is exact, always 2
    for count in [1usize, 2, 10, 100] {
        let dims = vec![dim(
            Expr::Const(Rat::from_int(0)),
            Expr::Const(Rat::from_int(2)),
            Some(count),
        )];
        let v = integrate_nested(&Expr::Var(0), &dims).unwrap();
        assert_value(v, 2, 1);
    }
    // f(x) = x over [0, 3]: 9/2
    let dims = vec![dim(
        Expr::Const(Rat::from_int(0)),
        Expr::Const(Rat::from_int(3)),
        Some(10),
    )];
    let v = integrate_nested(&Expr::Var(0), &dims).unwrap();
    assert_value(v, 9, 2);
}

#[test]
fn affine_integrand_is_exact() {
    // f(x) = 2x + 1 over [0, 1]: exactly 2
    let f = Expr::Add(
        Box::new(Expr::Mul(
            Box::new(Expr::Const(Rat::from_int(2))),
            Box::new(Expr::Var(0)),
        )),
        Box::new(Expr::Const(Rat::from_int(1))),
    );
    let dims = vec![dim(
        Expr::Const(Rat::from_int(0)),
        Expr::Const(Rat::from_int(1)),
        Some(4),
    )];
    let v = integrate_nested(&f, &dims).unwrap();
    assert_value(v, 2, 1);
}

#[test]
fn division_in_integrand_is_exact() {
    // f(x) = x / 2 over [0, 2]: exactly 1 (the midpoint rule is exact for
    // linear integrands)
    let f = Expr::Div(
        Box::new(Expr::Var(0)),
        Box::new(Expr::Const(Rat::from_int(2))),
    );
    let dims = vec![dim(
        Expr::Const(Rat::from_int(0)),
        Expr::Const(Rat::from_int(2)),
        Some(5),
    )];
    let v = integrate_nested(&f, &dims).unwrap();
    assert_value(v, 1, 1);
}

#[test]
fn division_in_bound_is_exact() {
    // c = 2 over [0, 3/2]: exactly 3
    let upper = Expr::Div(
        Box::new(Expr::Const(Rat::from_int(3))),
        Box::new(Expr::Const(Rat::from_int(2))),
    );
    let dims = vec![dim(Expr::Const(Rat::from_int(0)), upper, Some(6))];
    let v = integrate_nested(&Expr::Const(Rat::from_int(2)), &dims).unwrap();
    assert_value(v, 3, 1);
}

#[test]
fn division_by_zero_is_reported() {
    let f = Expr::Div(
        Box::new(Expr::Const(Rat::from_int(1))),
        Box::new(Expr::Const(Rat::from_int(0))),
    );
    let dims = vec![dim(
        Expr::Const(Rat::from_int(0)),
        Expr::Const(Rat::from_int(1)),
        Some(2),
    )];
    assert_eq!(
        integrate_nested(&f, &dims).unwrap_err(),
        QuadError::DivisionByZero
    );
}

#[test]
fn constant_over_rectangle_is_area_times_constant() {
    // c = 5 over [0,2] x [0,3]: exactly 30 for every combination of counts
    for (n0, n1) in [(1usize, 1usize), (4, 9), (1, 100), (13, 2)] {
        let dims = vec![
            dim(
                Expr::Const(Rat::from_int(0)),
                Expr::Const(Rat::from_int(2)),
                Some(n0),
            ),
            dim(
                Expr::Const(Rat::from_int(0)),
                Expr::Const(Rat::from_int(3)),
                Some(n1),
            ),
        ];
        let v = integrate_nested(&Expr::Const(Rat::from_int(5)), &dims).unwrap();
        assert_value(v, 30, 1);
    }
}

#[test]
fn dependent_inner_bound_triangle() {
    // f = 1 over 0 <= x <= 2, 0 <= y <= x: area of the triangle, exactly 2
    for (n0, n1) in [(1usize, 1usize), (4, 4), (10, 3), (25, 25)] {
        let dims = vec![
            dim(
                Expr::Const(Rat::from_int(0)),
                Expr::Const(Rat::from_int(2)),
                Some(n0),
            ),
            dim(Expr::Const(Rat::from_int(0)), Expr::Var(0), Some(n1)),
        ];
        let v = integrate_nested(&Expr::Const(Rat::from_int(1)), &dims).unwrap();
        assert_value(v, 2, 1);
    }
}

#[test]
fn degenerate_interval_contributes_zero() {
    // low == high: exactly 0, whatever the integrand and the count
    let dims = vec![dim(Expr::Const(rat(3, 2)), Expr::Const(rat(3, 2)), Some(10))];
    let v = integrate_nested(&Expr::Const(Rat::from_int(7)), &dims).unwrap();
    assert_value(v, 0, 1);

    // a degenerate inner dimension zeroes the whole integral too
    let dims2 = vec![
        dim(
            Expr::Const(Rat::from_int(0)),
            Expr::Const(Rat::from_int(1)),
            Some(4),
        ),
        dim(
            Expr::Const(Rat::from_int(5)),
            Expr::Const(Rat::from_int(5)),
            Some(3),
        ),
    ];
    let v2 = integrate_nested(&Expr::Var(0), &dims2).unwrap();
    assert_value(v2, 0, 1);
}

#[test]
fn omitted_count_takes_the_default_resolution() {
    let with_default = vec![dim(
        Expr::Const(Rat::from_int(0)),
        Expr::Const(Rat::from_int(3)),
        None,
    )];
    let explicit = vec![dim(
        Expr::Const(Rat::from_int(0)),
        Expr::Const(Rat::from_int(3)),
        Some(quadrature::quad::DEFAULT_RESOLUTION),
    )];
    let a = integrate_nested(&Expr::Var(0), &with_default).unwrap();
    let b = integrate_nested(&Expr::Var(0), &explicit).unwrap();
    assert_eq!(a.num, b.num);
    assert_eq!(a.den, b.den);
    assert_value(a, 9, 2);
}

#[test]
fn unbound_variable_is_rejected() {
    // the outermost dimension's upper bound reads its own binding
    let dims = vec![dim(Expr::Const(Rat::from_int(0)), Expr::Var(0), Some(2))];
    assert_eq!(
        integrate_nested(&Expr::Const(Rat::from_int(1)), &dims).unwrap_err(),
        QuadError::UnboundVariable
    );
    // the integrand reads a binding past the last dimension
    let dims2 = vec![dim(
        Expr::Const(Rat::from_int(0)),
        Expr::Const(Rat::from_int(1)),
        Some(2),
    )];
    assert_eq!(
        integrate_nested(&Expr::Var(1), &dims2).unwrap_err(),
        QuadError::UnboundVariable
    );
}

#[test]
fn zero_sample_count_is_rejected() {
    let dims = vec![dim(
        Expr::Const(Rat::from_int(0)),
        Expr::Const(Rat::from_int(1)),
        Some(0),
    )];
    assert_eq!(
        integrate_nested(&Expr::Const(Rat::from_int(1)), &dims).unwrap_err(),
        QuadError::InvalidResolution
    );
}

#[test]
fn overflowing_values_are_reported() {
    // the integrand value times the interval leaves the i64 range
    let dims = vec![dim(
        Expr::Const(Rat::from_int(0)),
        Expr::Const(Rat::from_int(i64::MAX)),
        Some(1),
    )];
    assert_eq!(
        integrate_nested(&Expr::Const(Rat::from_int(i64::MAX)), &dims).unwrap_err(),
        QuadError::Overflow
    );
}
