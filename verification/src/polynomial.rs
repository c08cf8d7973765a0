//! Polynomials with complex coefficients, the constant term first.

use vstd::prelude::*;
use crate::flags::{last_match, last_set, lemma_last_set, lemma_last_set_unique, lemma_none_set};
use crate::complex8::Complex8;
use crate::scalar::{
    is_difference, is_magnified, is_origin, is_product, is_sum, is_unit, origin, tells_equal,
    tells_nonzero, unit, Scalar,
};

verus! {

/// A polynomial: `params[i]` is the coefficient of the power `i`. Zero
/// coefficients at the end are allowed and change neither the degree nor
/// the values of the polynomial.
#[derive(Clone, Debug)]
pub struct Polynomial<T> {
    pub params: Vec<(T, T)>,
}

impl<T> View for Polynomial<T> {
    type V = Seq<(T, T)>;

    /// The coefficients, the constant term first.
    open spec fn view(&self) -> Seq<(T, T)> {
        self.params@
    }
}

/// The degree: the highest power whose coefficient is not zero, and 0 for
/// the zero polynomial. `nonzero` tells of each coefficient whether it
/// differs from zero.
pub open spec fn degree(nonzero: Seq<bool>) -> nat {
    match last_set(nonzero) {
        Some(i) => i as nat,
        None => 0,
    }
}

/// Number of coefficients that are left when the zero coefficients at the
/// end are dropped.
pub open spec fn trimmed_len(nonzero: Seq<bool>) -> nat {
    match last_set(nonzero) {
        Some(i) => (i + 1) as nat,
        None => 0,
    }
}

/// `flag` tells whether the coefficient `x` differs from zero: its real
/// part does, or else its imaginary part does.
pub open spec fn tells_coefficient_nonzero<T: Scalar>(x: (T, T), flag: bool) -> bool {
    exists|re: bool| #[trigger]
        tells_nonzero(x.0, re) && if re {
            flag
        } else {
            tells_nonzero(x.1, flag)
        }
}

/// `flags` tells of each coefficient of `params` whether it differs from
/// zero.
pub open spec fn marks_nonzero<T: Scalar>(params: Seq<(T, T)>, flags: Seq<bool>) -> bool {
    flags.len() == params.len() && forall|i: int|
        0 <= i < params.len() ==> tells_coefficient_nonzero(params[i], #[trigger] flags[i])
}

/// `out` holds the coefficients of the derivative of `params`: the constant
/// term is dropped, and the coefficient of each other power `i` is
/// multiplied by `i` and becomes the coefficient of the power `i - 1`.
pub open spec fn is_derivative<T: Scalar>(params: Seq<(T, T)>, out: Seq<(T, T)>) -> bool {
    &&& out.len() == if params.len() <= 1 {
        0
    } else {
        params.len() - 1
    }
    &&& forall|i: int|
        0 <= i < out.len() ==> is_magnified(params[i + 1], (i + 1) as usize, #[trigger] out[i])
}

/// `out` holds the coefficients of the sum of `a` and `b`: where both have
/// a coefficient the two are added, and beyond the end of the shorter one
/// the coefficients of the longer one are taken as they are.
pub open spec fn is_sum_of<T: Scalar>(a: Seq<(T, T)>, b: Seq<(T, T)>, out: Seq<(T, T)>) -> bool {
    &&& out.len() == if a.len() >= b.len() {
        a.len()
    } else {
        b.len()
    }
    &&& forall|i: int|
        0 <= i < out.len() ==> if i < a.len() && i < b.len() {
            is_sum(a[i], b[i], #[trigger] out[i])
        } else if i < a.len() {
            out[i] == a[i]
        } else {
            out[i] == b[i]
        }
}

/// A term was added to a running sum: `after` is the sum of `before` and
/// the product of `x` and `y`.
pub open spec fn is_term_added<T: Scalar>(
    x: (T, T),
    y: (T, T),
    before: (T, T),
    after: (T, T),
) -> bool {
    exists|term: (T, T)| #[trigger] is_product(x, y, term) && is_sum(before, term, after)
}

/// The running values of an evaluation at `z`. `acc` holds the powers of
/// `z`, starting with 1, each the product of the one before and `z`. `res`
/// holds the partial sums, starting with 0: for each coefficient in
/// ascending order the product of the power and the coefficient is added.
pub open spec fn is_horner<T: Scalar>(
    params: Seq<(T, T)>,
    z: (T, T),
    acc: Seq<(T, T)>,
    res: Seq<(T, T)>,
) -> bool {
    &&& acc.len() == params.len() + 1
    &&& res.len() == params.len() + 1
    &&& is_unit(acc[0])
    &&& is_origin(res[0])
    &&& forall|i: int|
        0 <= i < params.len() ==> is_term_added(acc[i], params[i], res[i], #[trigger] res[i + 1])
    &&& forall|i: int| 0 <= i < params.len() ==> is_product(acc[i], z, #[trigger] acc[i + 1])
}

/// `value` is the value of the polynomial at `z`: the last partial sum of
/// an evaluation.
pub open spec fn is_value<T: Scalar>(params: Seq<(T, T)>, z: (T, T), value: (T, T)) -> bool {
    exists|acc: Seq<(T, T)>, res: Seq<(T, T)>| #[trigger]
        is_horner(params, z, acc, res) && res[params.len() as int] == value
}

/// The coefficient of the power `i` after the coefficients `c` were
/// multiplied by the factor `z - root`: the coefficient of the power
/// `i - 1`, or 0 for the constant term, less the product of the coefficient
/// of the power `i` and `root`.
pub open spec fn is_factor_coefficient<T: Scalar>(
    c: Seq<(T, T)>,
    root: (T, T),
    i: int,
    value: (T, T),
) -> bool {
    exists|shifted: (T, T), part: (T, T)| #[trigger]
        is_difference(shifted, part, value) && is_product(c[i], root, part) && if i == 0 {
            is_origin(shifted)
        } else {
            shifted == c[i - 1]
        }
}

/// `cs` records how the product of the factors `z - root` was built:
/// `cs[0]` is the constant 1 with room for all coefficients, and each root
/// in turn takes `cs[k]` to `cs[k + 1]`.
pub open spec fn is_product_of_factors<T: Scalar>(
    roots: Seq<(T, T)>,
    cs: Seq<Seq<(T, T)>>,
) -> bool {
    &&& cs.len() == roots.len() + 1
    &&& forall|k: int| 0 <= k < cs.len() ==> (#[trigger] cs[k]).len() == roots.len() + 1
    &&& is_unit(cs[0][0])
    &&& forall|i: int| 1 <= i <= roots.len() ==> is_origin(#[trigger] cs[0][i])
    &&& forall|k: int, i: int|
        0 <= k < roots.len() && 0 <= i <= roots.len() ==> is_factor_coefficient(
            cs[k],
            roots[k],
            i,
            #[trigger] cs[k + 1][i],
        )
}

/// `params` holds the coefficients of the monic polynomial with the given
/// roots.
pub open spec fn has_roots<T: Scalar>(roots: Seq<(T, T)>, params: Seq<(T, T)>) -> bool {
    exists|cs: Seq<Seq<(T, T)>>| #[trigger]
        is_product_of_factors(roots, cs) && cs[roots.len() as int] == params
}

/// First power of `a` that has a share in the coefficient of the power `k`
/// of the product of `a` and `b`, where `b` has `b_len` coefficients.
pub open spec fn first_share(b_len: nat, k: int) -> int {
    if k >= b_len {
        k - (b_len - 1)
    } else {
        0
    }
}

/// Last power of `a` that has a share in the coefficient of the power `k`
/// of the product of `a` and `b`, where `a` has `a_len` coefficients.
pub open spec fn last_share(a_len: nat, k: int) -> int {
    if k < a_len {
        k
    } else {
        a_len - 1
    }
}

/// `sums` holds the partial sums of the coefficient of the power `k` of
/// the product of `a` and `b`: starting with 0, the products of `a[i]` and
/// `b[k - i]` are added for ascending `i`.
pub open spec fn is_convolution<T: Scalar>(
    a: Seq<(T, T)>,
    b: Seq<(T, T)>,
    k: int,
    sums: Seq<(T, T)>,
) -> bool {
    let lo = first_share(b.len(), k);
    let hi = last_share(a.len(), k);
    &&& sums.len() == hi - lo + 2
    &&& is_origin(sums[0])
    &&& forall|t: int|
        0 <= t <= hi - lo ==> is_term_added(
            a[lo + t],
            b[k - lo - t],
            sums[t],
            #[trigger] sums[t + 1],
        )
}

/// `value` is the coefficient of the power `k` of the product of `a` and
/// `b`.
pub open spec fn is_convolved<T: Scalar>(
    a: Seq<(T, T)>,
    b: Seq<(T, T)>,
    k: int,
    value: (T, T),
) -> bool {
    exists|sums: Seq<(T, T)>| #[trigger]
        is_convolution(a, b, k, sums) && sums[sums.len() - 1] == value
}

/// `raw` holds all coefficients of the product of `a` and `b`, which both
/// have a coefficient.
pub open spec fn is_raw_product<T: Scalar>(
    a: Seq<(T, T)>,
    b: Seq<(T, T)>,
    raw: Seq<(T, T)>,
) -> bool {
    &&& raw.len() == a.len() + b.len() - 1
    &&& forall|k: int| 0 <= k < raw.len() ==> is_convolved(a, b, k, #[trigger] raw[k])
}

/// `out` holds the coefficients of the product of `a` and `b`, without
/// zero coefficients at the end. The product with a polynomial that has no
/// coefficient has none.
pub open spec fn is_product_of<T: Scalar>(
    a: Seq<(T, T)>,
    b: Seq<(T, T)>,
    out: Seq<(T, T)>,
) -> bool {
    if a.len() == 0 || b.len() == 0 {
        out.len() == 0
    } else {
        exists|raw: Seq<(T, T)>, flags: Seq<bool>| #[trigger]
            is_raw_product(a, b, raw) && #[trigger] marks_nonzero(raw, flags) && out == raw.take(
                trimmed_len(flags) as int,
            )
    }
}

/// `flag` tells whether the complex numbers `x` and `y` are equal: their
/// real parts are, and then their imaginary parts are.
pub open spec fn tells_same<T: Scalar>(x: (T, T), y: (T, T), flag: bool) -> bool {
    exists|re: bool| #[trigger]
        tells_equal(x.0, y.0, re) && if re {
            tells_equal(x.1, y.1, flag)
        } else {
            !flag
        }
}

/// `flag` tells whether `a` and `b` have the same coefficient of the power
/// `i`, where a polynomial has the coefficient 0 beyond its end.
pub open spec fn tells_same_at<T: Scalar>(
    a: Seq<(T, T)>,
    b: Seq<(T, T)>,
    i: int,
    flag: bool,
) -> bool {
    exists|x: (T, T), y: (T, T)| #[trigger]
        tells_same(x, y, flag) && (if i < a.len() {
            x == a[i]
        } else {
            is_origin(x)
        }) && (if i < b.len() {
            y == b[i]
        } else {
            is_origin(y)
        })
}

/// `same` tells whether `a` and `b` are equal as polynomials: whether
/// their coefficients agree in every power up to the larger of the two
/// degrees.
pub open spec fn tells_equal_polynomials<T: Scalar>(
    a: Seq<(T, T)>,
    b: Seq<(T, T)>,
    same: bool,
) -> bool {
    exists|flags: (Seq<bool>, Seq<bool>)| #[trigger]
        marks_nonzero(a, flags.0) && marks_nonzero(b, flags.1) && {
            let top = if degree(flags.0) >= degree(flags.1) {
                degree(flags.0)
            } else {
                degree(flags.1)
            };
            if same {
                forall|i: int| 0 <= i <= top ==> #[trigger] tells_same_at(a, b, i, true)
            } else {
                exists|i: int| 0 <= i <= top && #[trigger] tells_same_at(a, b, i, false)
            }
        }
}

impl<T: Scalar> Polynomial<T> {
    /// The polynomial with the given coefficients.
    pub fn new(arr: &[(T, T)]) -> (p: Self)
        ensures
            p@ == arr@,
    {
        let mut params: Vec<(T, T)> = Vec::with_capacity(arr.len());
        let mut i: usize = 0;
        while i < arr.len()
            invariant
                i <= arr.len(),
                params@ == arr@.take(i as int),
            decreases arr.len() - i,
        {
            params.push(arr[i]);
            assert(params@ =~= arr@.take(i + 1));
            i += 1;
        }
        assert(arr@.take(arr.len() as int) =~= arr@);
        Polynomial { params }
    }

    /// The constant polynomial `x`.
    pub fn constant(x: (T, T)) -> (p: Self)
        ensures
            p@ == seq![x],
    {
        let mut params: Vec<(T, T)> = Vec::new();
        params.push(x);
        assert(params@ =~= seq![x]);
        Polynomial { params }
    }

    /// The monic polynomial with the given roots. Starting from the
    /// constant 1, each root `r` in turn replaces the coefficients `c` by
    /// those of `z * c - r * c`.
    pub fn from_roots(arr: &[(T, T)]) -> (p: Self)
        requires
            arr.len() < usize::MAX,
        ensures
            has_roots(arr@, p@),
    {
        let n = arr.len();
        let mut res: Vec<(T, T)> = Vec::with_capacity(n + 1);
        res.push(unit::<T>());
        let mut i: usize = 1;
        while i <= n
            invariant
                1 <= i <= n + 1,
                n < usize::MAX,
                res@.len() == i,
                is_unit(res@[0]),
                forall|j: int| 1 <= j < i ==> is_origin(#[trigger] res@[j]),
            decreases n + 1 - i,
        {
            res.push(origin::<T>());
            i += 1;
        }
        let ghost mut cs: Seq<Seq<(T, T)>> = seq![res@];
        let mut k: usize = 0;
        while k < n
            invariant
                k <= n,
                n == arr@.len(),
                n < usize::MAX,
                res@.len() == n + 1,
                cs.len() == k + 1,
                cs[k as int] == res@,
                forall|j: int| 0 <= j < cs.len() ==> (#[trigger] cs[j]).len() == n + 1,
                is_unit(cs[0][0]),
                forall|j: int| 1 <= j <= n ==> is_origin(#[trigger] cs[0][j]),
                forall|j: int, i: int|
                    0 <= j < k && 0 <= i <= n ==> is_factor_coefficient(
                        cs[j],
                        arr@[j],
                        i,
                        #[trigger] cs[j + 1][i],
                    ),
            decreases n - k,
        {
            let root = arr[k];
            let acc = res;
            let mut next: Vec<(T, T)> = Vec::with_capacity(n + 1);
            let mut i: usize = 0;
            while i <= n
                invariant
                    i <= n + 1,
                    n < usize::MAX,
                    acc@.len() == n + 1,
                    next@.len() == i,
                    forall|j: int|
                        0 <= j < i ==> is_factor_coefficient(acc@, root, j, #[trigger] next@[j]),
                decreases n + 1 - i,
            {
                let shifted = if i == 0 {
                    origin::<T>()
                } else {
                    acc[i - 1]
                };
                let part = T::times(acc[i], root);
                let value = T::minus(shifted, part);
                assert(is_difference(shifted, part, value));
                assert(is_factor_coefficient(acc@, root, i as int, value));
                next.push(value);
                i += 1;
            }
            res = next;
            proof {
                let before = cs;
                cs = before.push(res@);
                assert forall|j: int, i: int|
                    0 <= j < k + 1 && 0 <= i <= n implies is_factor_coefficient(
                    cs[j],
                    arr@[j],
                    i,
                    #[trigger] cs[j + 1][i],
                ) by {
                    if j < k {
                        assert(cs[j] == before[j]);
                        assert(cs[j + 1] == before[j + 1]);
                    } else {
                        assert(cs[j] == acc@);
                        assert(cs[j + 1] == res@);
                    }
                }
            }
            k += 1;
        }
        assert(is_product_of_factors(arr@, cs));
        Polynomial { params: res }
    }

    /// Number of coefficients, zero coefficients at the end included.
    pub fn len(&self) -> (len: usize)
        ensures
            len == self@.len(),
    {
        self.params.len()
    }

    /// Tells of each coefficient whether it differs from zero.
    pub fn nonzero(&self) -> (flags: Vec<bool>)
        ensures
            marks_nonzero(self@, flags@),
    {
        let mut flags: Vec<bool> = Vec::with_capacity(self.params.len());
        let mut i: usize = 0;
        while i < self.params.len()
            invariant
                i <= self.params.len(),
                flags@.len() == i,
                forall|k: int|
                    0 <= k < i ==> tells_coefficient_nonzero(self@[k], #[trigger] flags@[k]),
            decreases self.params.len() - i,
        {
            let x = self.params[i];
            let re = x.0.nonzero();
            let flag = if re {
                true
            } else {
                x.1.nonzero()
            };
            assert(tells_nonzero(x.0, re));
            assert(tells_coefficient_nonzero(x, flag));
            flags.push(flag);
            i += 1;
        }
        flags
    }

    /// The degree: zero coefficients at the end do not count, and the zero
    /// polynomial has degree 0.
    pub fn dim(&self) -> (dim: usize)
        ensures
            exists|flags: Seq<bool>| #[trigger] marks_nonzero(self@, flags) && dim == degree(flags),
    {
        let flags = self.nonzero();
        proof {
            lemma_last_set(flags@);
        }
        match last_match(flags.as_slice()) {
            Some(i) => i,
            None => 0,
        }
    }

    /// Drops the zero coefficients at the end and gives the degree.
    pub fn shrink(&mut self) -> (dim: usize)
        ensures
            exists|flags: Seq<bool>| #[trigger]
                marks_nonzero(old(self)@, flags) && dim == degree(flags) && final(self)@ == old(
                    self,
                )@.take(trimmed_len(flags) as int),
    {
        let flags = self.nonzero();
        proof {
            lemma_last_set(flags@);
        }
        match last_match(flags.as_slice()) {
            Some(i) => {
                assert(i < self.params.len());
                self.params.truncate(i + 1);
                assert(self@ =~= old(self)@.take(trimmed_len(flags@) as int));
                i
            },
            None => {
                self.params.truncate(0);
                assert(self@ =~= old(self)@.take(trimmed_len(flags@) as int));
                0
            },
        }
    }

    /// The derivative.
    pub fn diff(&self) -> (out: Polynomial<T>)
        ensures
            is_derivative(self@, out@),
    {
        if self.params.len() <= 1 {
            return Polynomial { params: Vec::new() };
        }
        let mut params: Vec<(T, T)> = Vec::with_capacity(self.params.len() - 1);
        let mut i: usize = 1;
        while i < self.params.len()
            invariant
                1 <= i <= self.params.len(),
                params@.len() == i - 1,
                forall|k: int|
                    0 <= k < i - 1 ==> is_magnified(
                        self@[k + 1],
                        (k + 1) as usize,
                        #[trigger] params@[k],
                    ),
            decreases self.params.len() - i,
        {
            params.push(T::magnify(self.params[i], i));
            i += 1;
        }
        Polynomial { params }
    }

    /// Adds `q` to the polynomial.
    pub fn add_assign(&mut self, q: &Polynomial<T>)
        ensures
            is_sum_of(old(self)@, q@, final(self)@),
    {
        let ghost before = self@;
        let shared = if q.params.len() < self.params.len() {
            q.params.len()
        } else {
            self.params.len()
        };
        let mut i: usize = 0;
        while i < shared
            invariant
                i <= shared,
                shared <= q@.len(),
                shared <= before.len(),
                self@.len() == before.len(),
                forall|k: int| 0 <= k < i ==> is_sum(before[k], q@[k], #[trigger] self@[k]),
                forall|k: int| i <= k < before.len() ==> self@[k] == before[k],
            decreases shared - i,
        {
            let sum = T::plus(self.params[i], q.params[i]);
            self.params[i] = sum;
            i += 1;
        }
        while i < q.params.len()
            invariant
                shared <= i,
                shared == before.len() || i == shared,
                i <= q@.len() || i == shared,
                self@.len() == if i > before.len() {
                    i as nat
                } else {
                    before.len()
                },
                shared == if q@.len() < before.len() {
                    q@.len()
                } else {
                    before.len()
                },
                forall|k: int| 0 <= k < shared ==> is_sum(before[k], q@[k], #[trigger] self@[k]),
                forall|k: int| shared <= k < before.len() ==> self@[k] == before[k],
                forall|k: int| before.len() <= k < self@.len() ==> self@[k] == q@[k],
            decreases q@.len() - i,
        {
            self.params.push(q.params[i]);
            i += 1;
        }
    }

    /// The sum of the polynomial and `q`.
    pub fn add(&self, q: &Polynomial<T>) -> (out: Polynomial<T>)
        ensures
            is_sum_of(self@, q@, out@),
    {
        let mut out = Polynomial::new(self.params.as_slice());
        out.add_assign(q);
        out
    }

    /// The coefficient of the power `k` of the product of the polynomial
    /// and `q`.
    fn convolve(&self, q: &Polynomial<T>, k: usize) -> (value: (T, T))
        requires
            self@.len() > 0,
            q@.len() > 0,
            k < self@.len() + q@.len() - 1,
        ensures
            is_convolved(self@, q@, k as int, value),
    {
        let lo = if k >= q.params.len() {
            k - (q.params.len() - 1)
        } else {
            0
        };
        let hi = if k < self.params.len() {
            k
        } else {
            self.params.len() - 1
        };
        let mut sum = origin::<T>();
        let ghost mut sums: Seq<(T, T)> = seq![sum];
        let mut i: usize = lo;
        while i <= hi
            invariant
                lo == first_share(q@.len(), k as int),
                hi == last_share(self@.len(), k as int),
                lo <= i <= hi + 1,
                hi < self@.len() <= usize::MAX,
                k - hi < q@.len(),
                hi <= k,
                sums.len() == i - lo + 1,
                sums[i - lo] == sum,
                is_origin(sums[0]),
                forall|t: int|
                    0 <= t < i - lo ==> is_term_added(
                        self@[lo + t],
                        q@[k - lo - t],
                        sums[t],
                        #[trigger] sums[t + 1],
                    ),
            decreases hi + 1 - i,
        {
            let term = T::times(self.params[i], q.params[k - i]);
            let next = T::plus(sum, term);
            proof {
                let before = sums;
                sums = before.push(next);
                assert(is_product(self@[i as int], q@[k - i], term));
                assert forall|t: int| 0 <= t < i + 1 - lo implies is_term_added(
                    self@[lo + t],
                    q@[k - lo - t],
                    sums[t],
                    #[trigger] sums[t + 1],
                ) by {
                    if t < i - lo {
                        assert(is_term_added(
                            self@[lo + t],
                            q@[k - lo - t],
                            before[t],
                            before[t + 1],
                        ));
                    }
                }
            }
            sum = next;
            i += 1;
        }
        assert(is_convolution(self@, q@, k as int, sums));
        sum
    }

    /// The product of the polynomial and `q`, without zero coefficients at
    /// the end.
    pub fn mul(&self, q: &Polynomial<T>) -> (out: Polynomial<T>)
        requires
            self@.len() + q@.len() <= usize::MAX,
        ensures
            is_product_of(self@, q@, out@),
    {
        if self.params.len() == 0 || q.params.len() == 0 {
            return Polynomial { params: Vec::new() };
        }
        let total = self.params.len() + q.params.len() - 1;
        let mut params: Vec<(T, T)> = Vec::with_capacity(total);
        let mut k: usize = 0;
        while k < total
            invariant
                k <= total,
                total == self@.len() + q@.len() - 1,
                self@.len() > 0,
                q@.len() > 0,
                params@.len() == k,
                forall|j: int| 0 <= j < k ==> is_convolved(self@, q@, j, #[trigger] params@[j]),
            decreases total - k,
        {
            params.push(self.convolve(q, k));
            k += 1;
        }
        let mut out = Polynomial { params };
        let ghost raw = out@;
        assert(is_raw_product(self@, q@, raw));
        out.shrink();
        out
    }

    /// Multiplies the polynomial by `q`.
    pub fn mul_assign(&mut self, q: &Polynomial<T>)
        requires
            old(self)@.len() + q@.len() <= usize::MAX,
        ensures
            is_product_of(old(self)@, q@, final(self)@),
    {
        let out = self.mul(q);
        self.params = out.params;
    }

    /// The coefficient of the power `i`, which is 0 beyond the end.
    fn coefficient(&self, i: usize) -> (x: (T, T))
        ensures
            if i < self@.len() {
                x == self@[i as int]
            } else {
                is_origin(x)
            },
    {
        if i < self.params.len() {
            self.params[i]
        } else {
            origin::<T>()
        }
    }

    /// Tells whether the two polynomials are equal: whether their
    /// coefficients agree in every power up to the larger of the two
    /// degrees. Zero coefficients at the end make no difference.
    pub fn same_as(&self, other: &Polynomial<T>) -> (same: bool)
        ensures
            tells_equal_polynomials(self@, other@, same),
    {
        let flags = self.nonzero();
        let other_flags = other.nonzero();
        proof {
            lemma_last_set(flags@);
            lemma_last_set(other_flags@);
        }
        let dim = match last_match(flags.as_slice()) {
            Some(i) => i,
            None => 0,
        };
        let other_dim = match last_match(other_flags.as_slice()) {
            Some(i) => i,
            None => 0,
        };
        let top = if dim >= other_dim {
            dim
        } else {
            other_dim
        };
        let longest = if flags.len() >= other_flags.len() {
            flags.len()
        } else {
            other_flags.len()
        };
        assert(top < longest || top == 0);
        let ghost both = (flags@, other_flags@);
        let mut i: usize = 0;
        while i <= top
            invariant
                i <= top + 1,
                top < usize::MAX,
                marks_nonzero(self@, both.0),
                marks_nonzero(other@, both.1),
                top == if degree(both.0) >= degree(both.1) {
                    degree(both.0)
                } else {
                    degree(both.1)
                },
                forall|k: int| 0 <= k < i ==> #[trigger] tells_same_at(self@, other@, k, true),
            decreases top + 1 - i,
        {
            let x = self.coefficient(i);
            let y = other.coefficient(i);
            let re = x.0.equal(y.0);
            let flag = if re {
                x.1.equal(y.1)
            } else {
                false
            };
            assert(tells_equal(x.0, y.0, re));
            assert(tells_same(x, y, flag));
            assert(tells_same_at(self@, other@, i as int, flag));
            if !flag {
                return false;
            }
            i += 1;
        }
        true
    }

    /// The value of the polynomial at `z`.
    pub fn eval(&self, z: (T, T)) -> (value: (T, T))
        ensures
            is_value(self@, z, value),
    {
        let mut acc = unit::<T>();
        let mut res = origin::<T>();
        let ghost mut accs: Seq<(T, T)> = seq![acc];
        let ghost mut ress: Seq<(T, T)> = seq![res];
        let mut i: usize = 0;
        while i < self.params.len()
            invariant
                i <= self.params.len(),
                is_horner(self@.take(i as int), z, accs, ress),
                accs[i as int] == acc,
                ress[i as int] == res,
            decreases self.params.len() - i,
        {
            let x = self.params[i];
            let term = T::times(acc, x);
            let next_res = T::plus(res, term);
            let next_acc = T::times(acc, z);
            proof {
                let before = self@.take(i as int);
                let now = self@.take(i + 1);
                let old_accs = accs;
                let old_ress = ress;
                accs = old_accs.push(next_acc);
                ress = old_ress.push(next_res);
                assert(is_product(acc, x, term));
                assert forall|k: int| 0 <= k < now.len() implies is_term_added(
                    accs[k],
                    now[k],
                    ress[k],
                    #[trigger] ress[k + 1],
                ) by {
                    if k < i {
                        assert(now[k] == before[k]);
                        assert(is_term_added(
                            old_accs[k],
                            before[k],
                            old_ress[k],
                            old_ress[k + 1],
                        ));
                    }
                }
                assert forall|k: int| 0 <= k < now.len() implies is_product(
                    accs[k],
                    z,
                    #[trigger] accs[k + 1],
                ) by {
                    if k < i {
                        assert(is_product(old_accs[k], z, old_accs[k + 1]));
                    }
                }
            }
            res = next_res;
            acc = next_acc;
            i += 1;
        }
        assert(self@.take(self@.len() as int) =~= self@);
        res
    }

    /// The values of the polynomial at the eight values of a batch: each
    /// lane of the result is the value of the polynomial at that lane of
    /// `z`, made by the same operations in the same order as `eval` makes
    /// it.
    pub fn eval8(&self, z: Complex8<T>) -> (out: Complex8<T>)
        ensures
            forall|lane: int| 0 <= lane < 8 ==> is_value(self@, z@[lane], #[trigger] out@[lane]),
    {
        let mut acc = Complex8::from_complex(unit::<T>());
        let mut res = Complex8::from_complex(origin::<T>());
        let ghost mut accs: Seq<Complex8<T>> = seq![acc];
        let ghost mut ress: Seq<Complex8<T>> = seq![res];
        let mut i: usize = 0;
        while i < self.params.len()
            invariant
                i <= self.params.len(),
                accs.len() == i + 1,
                ress.len() == i + 1,
                accs[i as int] == acc,
                ress[i as int] == res,
                forall|lane: int|
                    0 <= lane < 8 ==> is_horner(
                        self@.take(i as int),
                        #[trigger] z@[lane],
                        lane_of(accs, lane),
                        lane_of(ress, lane),
                    ),
            decreases self.params.len() - i,
        {
            let x = Complex8::from_complex(self.params[i]);
            let term = acc.times(x);
            let next_res = res.plus(term);
            let next_acc = acc.times(z);
            proof {
                let before = self@.take(i as int);
                let now = self@.take(i + 1);
                let old_accs = accs;
                let old_ress = ress;
                accs = old_accs.push(next_acc);
                ress = old_ress.push(next_res);
                assert forall|lane: int| 0 <= lane < 8 implies is_horner(
                    now,
                    #[trigger] z@[lane],
                    lane_of(accs, lane),
                    lane_of(ress, lane),
                ) by {
                    let a = lane_of(accs, lane);
                    let r = lane_of(ress, lane);
                    let a0 = lane_of(old_accs, lane);
                    let r0 = lane_of(old_ress, lane);
                    assert(is_horner(before, z@[lane], a0, r0));
                    assert(x@[lane] == self@[i as int]);
                    assert(is_product(acc@[lane], x@[lane], term@[lane]));
                    assert(is_sum(res@[lane], term@[lane], next_res@[lane]));
                    assert(is_product(acc@[lane], z@[lane], next_acc@[lane]));
                    assert forall|k: int| 0 <= k < now.len() implies is_term_added(
                        a[k],
                        now[k],
                        r[k],
                        #[trigger] r[k + 1],
                    ) by {
                        if k < i {
                            assert(now[k] == before[k]);
                            assert(is_term_added(a0[k], before[k], r0[k], r0[k + 1]));
                        }
                    }
                    assert forall|k: int| 0 <= k < now.len() implies is_product(
                        a[k],
                        z@[lane],
                        #[trigger] a[k + 1],
                    ) by {
                        if k < i {
                            assert(is_product(a0[k], z@[lane], a0[k + 1]));
                        }
                    }
                }
            }
            res = next_res;
            acc = next_acc;
            i += 1;
        }
        assert(self@.take(self@.len() as int) =~= self@);
        assert forall|lane: int| 0 <= lane < 8 implies is_value(
            self@,
            z@[lane],
            #[trigger] res@[lane],
        ) by {
            assert(is_horner(self@, z@[lane], lane_of(accs, lane), lane_of(ress, lane)));
        }
        res
    }
}

/// What one lane of a row of batches holds.
pub open spec fn lane_of<T>(batches: Seq<Complex8<T>>, lane: int) -> Seq<(T, T)> {
    Seq::new(batches.len(), |k: int| batches[k]@[lane])
}

/// The monic polynomial with `k` roots has `k + 1` coefficients, and its
/// degree is `k` as long as its leading coefficient, which was made as
/// 1 less a product with 0, is told to differ from zero.
pub proof fn lemma_degree_of_product_of_factors<T: Scalar>(
    roots: Seq<(T, T)>,
    params: Seq<(T, T)>,
    nonzero: Seq<bool>,
)
    requires
        has_roots(roots, params),
        marks_nonzero(params, nonzero),
        nonzero[roots.len() as int],
    ensures
        params.len() == roots.len() + 1,
        degree(nonzero) == roots.len(),
{
    let cs = choose|cs: Seq<Seq<(T, T)>>| #[trigger]
        is_product_of_factors(roots, cs) && cs[roots.len() as int] == params;
    assert(cs[roots.len() as int].len() == roots.len() + 1);
    assert(nonzero.last());
}

/// The flags of the derivative where differentiation keeps the zeros: the
/// constant term is dropped and every other coefficient moves one power
/// down.
pub open spec fn derivative_flags(nonzero: Seq<bool>) -> Seq<bool> {
    if nonzero.len() == 0 {
        nonzero
    } else {
        nonzero.drop_first()
    }
}

/// Differentiation lowers the degree by one, and leaves it at 0 where it
/// was 0, as long as a coefficient multiplied by its power is told to
/// differ from zero exactly where the coefficient itself is.
pub proof fn lemma_degree_of_derivative_of<T: Scalar>(
    params: Seq<(T, T)>,
    derivative: Seq<(T, T)>,
    nonzero: Seq<bool>,
    derivative_nonzero: Seq<bool>,
)
    requires
        is_derivative(params, derivative),
        marks_nonzero(params, nonzero),
        marks_nonzero(derivative, derivative_nonzero),
        forall|i: int|
            0 <= i < derivative.len() ==> #[trigger] derivative_nonzero[i] == nonzero[i + 1],
    ensures
        degree(derivative_nonzero) == if degree(nonzero) > 0 {
            degree(nonzero) - 1
        } else {
            0
        },
{
    assert(derivative_nonzero =~= derivative_flags(nonzero));
    lemma_degree_of_derivative(nonzero);
}

/// Dropping the first flag lowers the degree by one, and leaves it at 0
/// where it was 0.
pub proof fn lemma_degree_of_derivative(nonzero: Seq<bool>)
    ensures
        degree(derivative_flags(nonzero)) == if degree(nonzero) > 0 {
            degree(nonzero) - 1
        } else {
            0
        },
{
    if nonzero.len() == 0 {
        return ;
    }
    let rest = nonzero.drop_first();
    lemma_last_set(nonzero);
    lemma_last_set(rest);
    match last_set(nonzero) {
        Some(i) => {
            if i > 0 {
                assert(rest[i - 1] == nonzero[i]);
                assert forall|j: int| i - 1 < j < rest.len() implies !rest[j] by {
                    assert(rest[j] == nonzero[j + 1]);
                }
                lemma_last_set_unique(rest, i - 1);
            } else {
                assert forall|j: int| 0 <= j < rest.len() implies !rest[j] by {
                    assert(rest[j] == nonzero[j + 1]);
                }
                lemma_none_set(rest);
            }
        },
        None => {
            assert forall|j: int| 0 <= j < rest.len() implies !rest[j] by {
                assert(rest[j] == nonzero[j + 1]);
            }
            lemma_none_set(rest);
        },
    }
}

} // verus!
