//! Fixed-size tensors.

use vstd::prelude::*;
use vstd::std_specs::ops::AddSpec;
use vstd::std_specs::ops::MulSpec;
use vstd::std_specs::ops::MulSpecImpl;
use std::ops::Add;
use std::ops::Mul;

verus! {

/// A tensor that owns its data, for example an array of numbers or an array of arrays.
#[derive(Debug)]
pub struct Tensor<A> {
    value: A,
}

impl<A> View for Tensor<A> {
    type V = A;

    closed spec fn view(&self) -> A {
        self.value
    }
}

impl<A> Tensor<A> {
    /// Wraps `data` in a tensor.
    pub fn new(data: A) -> (tensor: Self)
        ensures
            tensor@ == data,
    {
        Self { value: data }
    }
}

/// The sum of the products `a[k] * b[k]` for `k < n`, as the element type's own
/// `+` and `*` compute them, folded from the left: `((a0*b0 + a1*b1) + a2*b2) + ...`.
pub open spec fn dot_prefix<T: MulSpec<Output = T> + AddSpec<Output = T>>(a: Seq<T>, b: Seq<T>, n: nat) -> T
    recommends
        1 <= n,
    decreases n,
{
    if n <= 1 {
        a[0].mul_spec(b[0])
    } else {
        dot_prefix(a, b, (n - 1) as nat).add_spec(a[n - 1].mul_spec(b[n - 1]))
    }
}

/// What the element type needs so that the dot product of `a` and `b` runs
/// without a panic: every product, and every partial sum to which the next
/// product is added, is defined (for machine integers: does not overflow).
/// Where the element type's `+` or `*` has no specification, every product and
/// every sum must be defined.
pub open spec fn dot_defined<T: MulSpec<Output = T> + AddSpec<Output = T>>(a: Seq<T>, b: Seq<T>, n: nat) -> bool {
    if T::obeys_mul_spec() && T::obeys_add_spec() {
        &&& forall|k: int| 0 <= k < n ==> #[trigger] a[k].mul_req(b[k])
        &&& forall|k: int|
            1 <= k < n ==> #[trigger] dot_prefix(a, b, k as nat).add_req(a[k].mul_spec(b[k]))
    } else {
        &&& forall|x: T, y: T| #[trigger] x.mul_req(y)
        &&& forall|x: T, y: T| #[trigger] x.add_req(y)
    }
}

/// The dot product of two tensors of `S` elements each, `S > 0`.
///
/// The element type is bounded by `Add` and `Copy`: the products are summed with `+`,
/// which vstd specifies (as it does `*`) where it does not specify `+=`, and only `Copy`
/// elements can be read out of an array by index in verified code.
impl<T, const S: usize> Mul for Tensor<[T; S]> where T: Mul<Output = T> + Add<Output = T> + Copy {
    type Output = T;

    fn mul(self, other: Self) -> (result: T) {
        let a = self.value;
        let b = other.value;
        let mut result = a[0] * b[0];
        let mut k: usize = 1;
        while k < S
            invariant
                1 <= k <= S,
                a@ == self@@,
                b@ == other@@,
                a@.len() == S,
                b@.len() == S,
                dot_defined(a@, b@, S as nat),
                T::obeys_mul_spec() && T::obeys_add_spec() ==> result == dot_prefix(a@, b@, k as nat),
            decreases S - k,
        {
            let product = a[k] * b[k];
            proof {
                if T::obeys_mul_spec() && T::obeys_add_spec() {
                    let kk = k as int;
                    assert(dot_prefix(a@, b@, kk as nat).add_req(a@[kk].mul_spec(b@[kk])));
                }
            }
            result = result + product;
            k = k + 1;
        }
        result
    }
}

impl<T, const S: usize> MulSpecImpl for Tensor<[T; S]> where T: Mul<Output = T> + Add<Output = T> + Copy {
    open spec fn obeys_mul_spec() -> bool {
        T::obeys_mul_spec() && T::obeys_add_spec()
    }

    open spec fn mul_req(self, rhs: Self) -> bool {
        S > 0 && dot_defined(self@@, rhs@@, S as nat)
    }

    open spec fn mul_spec(self, rhs: Self) -> T {
        dot_prefix(self@@, rhs@@, S as nat)
    }
}

/// The dot product does not depend on the order of its two operands, wherever the
/// element type's `*` gives the same product for `a[k] * b[k]` as for `b[k] * a[k]`
/// (as it does for every machine integer type).
pub proof fn lemma_dot_prefix_commutes<T: MulSpec<Output = T> + AddSpec<Output = T>>(
    a: Seq<T>,
    b: Seq<T>,
    n: nat,
)
    requires
        1 <= n,
        forall|k: int| 0 <= k < n ==> #[trigger] a[k].mul_spec(b[k]) == b[k].mul_spec(a[k]),
    ensures
        dot_prefix(a, b, n) == dot_prefix(b, a, n),
    decreases n,
{
    if n == 1 {
        assert(a[0].mul_spec(b[0]) == b[0].mul_spec(a[0]));
    } else {
        lemma_dot_prefix_commutes(a, b, (n - 1) as nat);
        assert(a[n - 1].mul_spec(b[n - 1]) == b[n - 1].mul_spec(a[n - 1]));
    }
}


/// Multiplying two tensors gives the same dot product in either order, wherever the
/// element type's `*` commutes on each pair of elements. For element types whose `+` and
/// `*` follow vstd's specifications (every machine integer type), `x * y` returns
/// `mul_spec(x, y)`, so there `x * y == y * x` of the operator's results.
pub proof fn lemma_tensor_dot_commutes<T, const S: usize>(x: Tensor<[T; S]>, y: Tensor<[T; S]>)
    where T: Mul<Output = T> + Add<Output = T> + Copy
    requires
        S > 0,
        forall|k: int| 0 <= k < S ==> #[trigger] x@@[k].mul_spec(y@@[k]) == y@@[k].mul_spec(x@@[k]),
    ensures
        MulSpec::mul_spec(x, y) == MulSpec::mul_spec(y, x),
{
    lemma_dot_prefix_commutes(x@@, y@@, S as nat);
}


/// The sum of the products `a[k] * b[k]` for `k < n`, in mathematical integers.
pub open spec fn sum_of_products(a: Seq<int>, b: Seq<int>, n: nat) -> int
    decreases n,
{
    if n == 0 {
        0
    } else {
        sum_of_products(a, b, (n - 1) as nat) + a[n - 1] * b[n - 1]
    }
}

/// Each further element pair adds its product to the dot product: the dot product of the
/// first `n + 1` elements is that of the first `n` plus `a[n] * b[n]`, for every `n >= 1`.
pub proof fn lemma_dot_prefix_adds_next_product<T: MulSpec<Output = T> + AddSpec<Output = T>>(
    a: Seq<T>,
    b: Seq<T>,
    n: nat,
)
    requires
        1 <= n,
    ensures
        dot_prefix(a, b, n + 1) == dot_prefix(a, b, n).add_spec(a[n as int].mul_spec(b[n as int])),
{
}

/// Where the element type's `+` and `*` agree, as far as they are defined, with integer
/// addition and multiplication under a reading `to_int` of the elements as integers, the
/// dot product of the first `n` element pairs reads as the integer sum of all `n`
/// products: every element pair contributes its product once.
pub proof fn lemma_dot_prefix_is_sum_of_products<T: MulSpec<Output = T> + AddSpec<Output = T>>(
    a: Seq<T>,
    b: Seq<T>,
    n: nat,
    to_int: spec_fn(T) -> int,
)
    requires
        1 <= n <= a.len(),
        n <= b.len(),
        forall|k: int| 0 <= k < n ==> #[trigger] a[k].mul_req(b[k]),
        forall|k: int|
            1 <= k < n ==> #[trigger] dot_prefix(a, b, k as nat).add_req(a[k].mul_spec(b[k])),
        forall|x: T, y: T| #[trigger] x.mul_req(y) ==> to_int(x.mul_spec(y)) == to_int(x) * to_int(y),
        forall|x: T, y: T| #[trigger] x.add_req(y) ==> to_int(x.add_spec(y)) == to_int(x) + to_int(y),
    ensures
        to_int(dot_prefix(a, b, n)) == sum_of_products(a.map_values(to_int), b.map_values(to_int), n),
    decreases n,
{
    let ai = a.map_values(to_int);
    let bi = b.map_values(to_int);
    if n == 1 {
        assert(a[0].mul_req(b[0]));
        assert(sum_of_products(ai, bi, 0) == 0);
        assert(ai[0] == to_int(a[0]) && bi[0] == to_int(b[0]));
    } else {
        let m = (n - 1) as nat;
        lemma_dot_prefix_is_sum_of_products(a, b, m, to_int);
        assert(a[m as int].mul_req(b[m as int]));
        assert(dot_prefix(a, b, m).add_req(a[m as int].mul_spec(b[m as int])));
        assert(ai[m as int] == to_int(a[m as int]) && bi[m as int] == to_int(b[m as int]));
    }
}

/// The dot product of two `i32` tensors that can be multiplied without overflow is the
/// sum of all `S` products `x[k] * y[k]`; `x * y` returns it.
pub proof fn lemma_i32_dot_is_sum_of_products<const S: usize>(x: Tensor<[i32; S]>, y: Tensor<[i32; S]>)
    requires
        MulSpec::mul_req(x, y),
    ensures
        MulSpec::mul_spec(x, y) as int == sum_of_products(
            x@@.map_values(|v: i32| v as int),
            y@@.map_values(|v: i32| v as int),
            S as nat,
        ),
{
    lemma_dot_prefix_is_sum_of_products(x@@, y@@, S as nat, |v: i32| v as int);
}

/// The dot product of two `i64` tensors that can be multiplied without overflow is the
/// sum of all `S` products `x[k] * y[k]`; `x * y` returns it.
pub proof fn lemma_i64_dot_is_sum_of_products<const S: usize>(x: Tensor<[i64; S]>, y: Tensor<[i64; S]>)
    requires
        MulSpec::mul_req(x, y),
    ensures
        MulSpec::mul_spec(x, y) as int == sum_of_products(
            x@@.map_values(|v: i64| v as int),
            y@@.map_values(|v: i64| v as int),
            S as nat,
        ),
{
    lemma_dot_prefix_is_sum_of_products(x@@, y@@, S as nat, |v: i64| v as int);
}

/// The dot product of two `u32` tensors that can be multiplied without overflow is the
/// sum of all `S` products `x[k] * y[k]`; `x * y` returns it.
pub proof fn lemma_u32_dot_is_sum_of_products<const S: usize>(x: Tensor<[u32; S]>, y: Tensor<[u32; S]>)
    requires
        MulSpec::mul_req(x, y),
    ensures
        MulSpec::mul_spec(x, y) as int == sum_of_products(
            x@@.map_values(|v: u32| v as int),
            y@@.map_values(|v: u32| v as int),
            S as nat,
        ),
{
    lemma_dot_prefix_is_sum_of_products(x@@, y@@, S as nat, |v: u32| v as int);
}

/// The dot product of two `u64` tensors that can be multiplied without overflow is the
/// sum of all `S` products `x[k] * y[k]`; `x * y` returns it.
pub proof fn lemma_u64_dot_is_sum_of_products<const S: usize>(x: Tensor<[u64; S]>, y: Tensor<[u64; S]>)
    requires
        MulSpec::mul_req(x, y),
    ensures
        MulSpec::mul_spec(x, y) as int == sum_of_products(
            x@@.map_values(|v: u64| v as int),
            y@@.map_values(|v: u64| v as int),
            S as nat,
        ),
{
    lemma_dot_prefix_is_sum_of_products(x@@, y@@, S as nat, |v: u64| v as int);
}

} // verus!
