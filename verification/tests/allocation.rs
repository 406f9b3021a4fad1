use fly_sim_core::allocation::{
    active_motors, allocation_plan, mixer_entry, normal_matrix, pivot_row, pivot_usable,
    unknown_determined, Allocation,
};
use fly_sim_core::ieee::{Float32, Float64};

fn f(x: f64) -> Float64 {
    Float64::from_bits(x.to_bits())
}

fn g(x: f32) -> Float32 {
    Float32::from_bits(x.to_bits())
}

fn num(x: Float64) -> f64 {
    f64::from_bits(x.to_bits())
}

fn invert_full(des: [f64; 4]) -> [f64; 4] {
    let mut out = [0.0; 4];
    for (m, slot) in out.iter_mut().enumerate() {
        for axis in 0..4 {
            *slot += 0.5 * mixer_entry(axis, m) as f64 * des[axis];
        }
    }
    out
}

fn gauss_solve(h: &[Vec<f64>], rhs: &[f64]) -> Vec<f64> {
    let n = rhs.len();
    let mut m: Vec<Vec<f64>> = (0..n)
        .map(|i| {
            let mut row = h[i].clone();
            row.push(rhs[i]);
            row
        })
        .collect();
    for col in 0..n {
        let column: Vec<Float64> = m.iter().map(|r| f(r[col])).collect();
        m.swap(col, pivot_row(&column, col));
        let d = m[col][col];
        if !pivot_usable(f(d)) {
            continue;
        }
        for r in 0..n {
            if r != col {
                let k = m[r][col] / d;
                for c in col..=n {
                    m[r][c] -= k * m[col][c];
                }
            }
        }
    }
    (0..n)
        .map(|i| {
            if unknown_determined(f(m[i][i])) {
                m[i][n] / m[i][i]
            } else {
                0.0
            }
        })
        .collect()
}

fn allocate_eff(des: [f64; 4], eff: &[f32; 4]) -> [f64; 4] {
    let eff = [g(eff[0]), g(eff[1]), g(eff[2]), g(eff[3])];
    let solved: Vec<Float64> = match allocation_plan(&eff) {
        Allocation::Reduced(active) => {
            let h: Vec<Vec<f64>> = normal_matrix(&active)
                .iter()
                .map(|row| row.iter().map(|q| *q as f64 / 4.0).collect())
                .collect();
            let rhs: Vec<f64> = active
                .iter()
                .map(|m| (0..4).map(|a| 0.5 * mixer_entry(a, *m) as f64 * des[a]).sum())
                .collect();
            gauss_solve(&h, &rhs).into_iter().map(f).collect()
        }
        _ => Vec::new(),
    };
    let mixed = invert_full(des);
    let mixed = [f(mixed[0]), f(mixed[1]), f(mixed[2]), f(mixed[3])];
    let out = fly_sim_core::allocation::allocate_eff(&eff, mixed, &solved);
    [num(out[0]), num(out[1]), num(out[2]), num(out[3])]
}

const ALL: [f32; 4] = [1.0, 1.0, 1.0, 1.0];

#[test]
fn full_effective_equals_original_mixer() {
    let des = [0.6, 0.1, -0.05, 0.02];
    let u = allocate_eff(des, &ALL);
    let (t, p, q, r) = (des[0], des[1], des[2], des[3]);
    let expect = [
        t + 0.5 * (p + q + r),
        t + 0.5 * (-p - q + r),
        t + 0.5 * (-p + q - r),
        t + 0.5 * (p - q - r),
    ];
    for i in 0..4 {
        assert!((u[i] - expect[i]).abs() < 1e-9, "M{}: got {}, expect {}", i, u[i], expect[i]);
    }
}

#[test]
fn single_failure_thrust_matches_lstsq_analytic() {
    let des = [0.5, 0.0, 0.0, 0.0];
    let eff = [0.0, 1.0, 1.0, 1.0];
    let u = allocate_eff(des, &eff);
    assert_eq!(u[0], 0.0);
    let expect = 0.5 / 3.25;
    for i in 1..4 {
        assert!((u[i] - expect).abs() < 1e-9, "M{}: got {}, expect {}", i, u[i], expect);
    }
    let sum: f64 = u[1] + u[2] + u[3];
    assert!((sum - 0.5 * 3.0 / 3.25).abs() < 1e-9, "sum={}", sum);
}

#[test]
fn two_failures_thrust_matches_lstsq_analytic() {
    let des = [0.5, 0.0, 0.0, 0.0];
    let eff = [0.0, 1.0, 1.0, 0.0];
    let u = allocate_eff(des, &eff);
    assert_eq!(u[0], 0.0);
    assert_eq!(u[3], 0.0);
    assert!((u[1] - 0.2).abs() < 1e-9, "M1={}", u[1]);
    assert!((u[2] - 0.2).abs() < 1e-9, "M2={}", u[2]);
}

#[test]
fn mixed_demand_reallocates_with_zero_dead_motor() {
    let des = [0.5, 0.08, -0.06, 0.03];
    let eff = [0.0, 1.0, 1.0, 1.0];
    let u = allocate_eff(des, &eff);
    assert_eq!(u[0], 0.0);
    assert!(u[1].abs() > 0.0 && u[2].abs() > 0.0 && u[3].abs() > 0.0);
    for i in 1..4 {
        assert!(u[i] > -1e-9, "M{}={}", i, u[i]);
    }
}

#[test]
fn all_failed_returns_zero() {
    let u = allocate_eff([0.5, 0.1, 0.0, 0.0], &[0.0, 0.0, 0.0, 0.0]);
    assert_eq!(u, [0.0, 0.0, 0.0, 0.0]);
}

#[test]
fn the_mixer_has_orthogonal_rows() {
    for a in 0..4 {
        for b in 0..4 {
            let dot: i64 = (0..4).map(|m| mixer_entry(a, m) * mixer_entry(b, m)).sum();
            let want = if a != b { 0 } else if a == 0 { 16 } else { 4 };
            assert_eq!(dot, want);
        }
    }
}

#[test]
fn the_normal_matrix_does_not_depend_on_the_motors() {
    assert_eq!(normal_matrix(&[1, 3]), vec![vec![7, 3], vec![3, 7]]);
    assert_eq!(
        normal_matrix(&[0, 1, 2]),
        vec![vec![7, 3, 3], vec![3, 7, 3], vec![3, 3, 7]]
    );
    assert_eq!(normal_matrix(&[]), Vec::<Vec<i64>>::new());
}

#[test]
fn solved_throttles_miss_the_demand_by_the_least() {
    let des = [0.5, 0.08, -0.06, 0.03];
    let u = allocate_eff(des, &[1.0, 0.0, 1.0, 1.0]);
    let miss = |u: &[f64; 4]| -> f64 {
        (0..4)
            .map(|a| {
                let got: f64 = (0..4).map(|m| 0.5 * mixer_entry(a, m) as f64 * u[m]).sum();
                (got - des[a]) * (got - des[a])
            })
            .sum()
    };
    let best = miss(&u);
    for m in [0usize, 2, 3] {
        for step in [-0.01, 0.01] {
            let mut other = u;
            other[m] += step;
            assert!(miss(&other) > best);
        }
    }
}

#[test]
fn only_effective_motors_take_part() {
    let eff = [g(0.0), g(0.5), g(-1.0), g(f32::NAN)];
    assert_eq!(active_motors(&eff), vec![1]);
    assert!(matches!(allocation_plan(&eff), Allocation::Reduced(_)));
    assert!(matches!(allocation_plan(&[g(0.0); 4]), Allocation::Idle));
    assert!(matches!(allocation_plan(&[g(0.1); 4]), Allocation::Full));
}

#[test]
fn the_pivot_is_the_greatest_from_the_diagonal_down() {
    let column = [f(9.0), f(1.0), f(-3.0), f(3.0)];
    assert_eq!(pivot_row(&column, 1), 2);
    assert_eq!(pivot_row(&column, 0), 0);
    assert!(pivot_usable(f(1e-12)));
    assert!(!unknown_determined(f(1e-12)));
    assert!(!pivot_usable(f(1e-13)));
    assert!(unknown_determined(f(-1e-11)));
}
