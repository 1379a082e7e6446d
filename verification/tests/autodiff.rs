use rtrees::autodiff::AutoDiff;
use rtrees::autodiff::Scalar;

#[test]
fn new_val_diff_round_trip() {
    let d = AutoDiff::new(3i64, 1i64);
    assert_eq!(d.val(), 3);
    assert_eq!(d.diff(), 1);
}

/// A floating-point scalar for exercising the dual-number chain rules.
#[derive(Clone, Copy, PartialEq, Debug)]
struct F(f64);

impl Scalar for F {
    fn add_s(self, rhs: Self) -> Self {
        self.add(rhs)
    }

    fn sub_s(self, rhs: Self) -> Self {
        self.sub(rhs)
    }

    fn mul_s(self, rhs: Self) -> Self {
        self.mul(rhs)
    }

    fn div_s(self, rhs: Self) -> Self {
        self.div(rhs)
    }

    fn neg_s(self) -> Self {
        self.neg()
    }

    fn sin_s(self) -> Self {
        self.sin()
    }

    fn cos_s(self) -> Self {
        self.cos()
    }

    fn exp_s(self) -> Self {
        self.exp()
    }

    fn ln_s(self) -> Self {
        self.ln()
    }

    fn log_s(self, base: Self) -> Self {
        self.log(base)
    }

    fn powf_s(self, n: Self) -> Self {
        self.powf(n)
    }

    fn abs_s(self) -> Self {
        self.abs()
    }

    fn signum_s(self) -> Self {
        self.signum()
    }

    fn one_s() -> Self {
        Self::one()
    }

    fn add(self, rhs: Self) -> Self {
        F(self.0 + rhs.0)
    }

    fn sub(self, rhs: Self) -> Self {
        F(self.0 - rhs.0)
    }

    fn mul(self, rhs: Self) -> Self {
        F(self.0 * rhs.0)
    }

    fn div(self, rhs: Self) -> Self {
        F(self.0 / rhs.0)
    }

    fn neg(self) -> Self {
        F(-self.0)
    }

    fn sin(self) -> Self {
        F(self.0.sin())
    }

    fn cos(self) -> Self {
        F(self.0.cos())
    }

    fn exp(self) -> Self {
        F(self.0.exp())
    }

    fn ln(self) -> Self {
        F(self.0.ln())
    }

    fn log(self, base: Self) -> Self {
        F(self.0.log(base.0))
    }

    fn powf(self, n: Self) -> Self {
        F(self.0.powf(n.0))
    }

    fn abs(self) -> Self {
        F(self.0.abs())
    }

    fn signum(self) -> Self {
        F(self.0.signum())
    }

    fn one() -> Self {
        F(1.0)
    }
}

fn close(a: f64, b: f64) -> bool {
    (a - b).abs() < 1e-9
}

#[test]
fn arithmetic_propagates_derivatives() {
    // x at x0 = 2 (derivative 1), constant c = 3 (derivative 0)
    let x = AutoDiff::new(F(2.0), F(1.0));
    let c = AutoDiff::new(F(3.0), F(0.0));
    let s = x.add(c);
    assert!(close(s.val().0, 5.0));
    assert!(close(s.diff().0, 1.0));
    // d(x * x)/dx = 2 x = 4
    let sq = x.mul(x);
    assert!(close(sq.val().0, 4.0));
    assert!(close(sq.diff().0, 4.0));
    // d(c / x)/dx = -c / x^2 = -0.75
    let q = c.div(x);
    assert!(close(q.val().0, 1.5));
    assert!(close(q.diff().0, -0.75));
    // d(x - c)/dx = 1
    let d = x.sub(c);
    assert!(close(d.val().0, -1.0));
    assert!(close(d.diff().0, 1.0));
}

#[test]
fn transcendentals_follow_the_chain_rule() {
    let x0 = 0.7f64;
    let x = AutoDiff::new(F(x0), F(1.0));
    let s = x.sin();
    assert!(close(s.val().0, x0.sin()));
    assert!(close(s.diff().0, x0.cos()));
    let c = x.cos();
    assert!(close(c.val().0, x0.cos()));
    assert!(close(c.diff().0, -x0.sin()));
    let e = x.exp();
    assert!(close(e.val().0, x0.exp()));
    assert!(close(e.diff().0, x0.exp()));
    let l = x.ln();
    assert!(close(l.val().0, x0.ln()));
    assert!(close(l.diff().0, 1.0 / x0));
    let p = x.pow(F(3.0));
    assert!(close(p.val().0, x0.powf(3.0)));
    assert!(close(p.diff().0, 3.0 * x0 * x0));
    let g = x.log(F(10.0));
    assert!(close(g.val().0, x0.log10()));
    assert!(close(g.diff().0, 1.0 / (x0 * 10f64.ln())));
    let a = AutoDiff::new(F(-x0), F(1.0)).abs();
    assert!(close(a.val().0, x0));
    assert!(close(a.diff().0, -1.0));
}
