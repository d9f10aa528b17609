use vstd::prelude::*;

verus! {

/// `Σ_{i=0}^{n-1} (a + i) · (b + i)`, and `0` when `n <= 0`.
pub open spec fn well_sum(a: int, b: int, n: int) -> int
    decreases n,
{
    if n <= 0 {
        0
    } else {
        well_sum(a, b, n - 1) + (a + n - 1) * (b + n - 1)
    }
}

/// The sum `Σ_{i=0}^{n-1} (a + i) · (b + i)`; zero when `n <= 0`. The sum
/// itself must fit in an `i32`; the partial sums need not.
#[allow(non_snake_case)]
pub fn magicalWell(a: i32, b: i32, n: i32) -> (r: i32)
    requires
        i32::MIN <= well_sum(a as int, b as int, n as int) <= i32::MAX,
    ensures
        r == well_sum(a as int, b as int, n as int),
{
    let mut acc: i128 = 0;
    let mut i: i32 = 0;
    while i < n
        invariant
            0 <= i,
            i <= n || i == 0,
            acc == well_sum(a as int, b as int, i as int),
            -(i as int) * 0x1_0000_0000_0000_0000 <= acc <= (i as int) * 0x1_0000_0000_0000_0000,
        decreases n - i,
    {
        let x: i128 = a as i128 + i as i128;
        let y: i128 = b as i128 + i as i128;
        assert(-0x1_0000_0000 <= x <= 0x1_0000_0000 && -0x1_0000_0000 <= y <= 0x1_0000_0000);
        assert(-0x1_0000_0000_0000_0000 <= x * y <= 0x1_0000_0000_0000_0000) by (nonlinear_arith)
            requires
                -0x1_0000_0000 <= x <= 0x1_0000_0000,
                -0x1_0000_0000 <= y <= 0x1_0000_0000,
        ;
        acc = acc + x * y;
        i = i + 1;
    }
    acc as i32
}

} // verus!
