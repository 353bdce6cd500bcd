use vstd::prelude::*;

verus! {

/// A product is no larger in magnitude than the product of its factors' bounds.
pub proof fn lemma_product_bound(a: int, b: int, la: int, lb: int)
    by (nonlinear_arith)
    requires
        -la <= a <= la,
        -lb <= b <= lb,
    ensures
        -(la * lb) <= a * b <= la * lb,
{
}

/// A square is never negative and no larger than the square of its root's bound.
pub proof fn lemma_square_bound(a: int, la: int)
    by (nonlinear_arith)
    requires
        -la <= a <= la,
    ensures
        0 <= a * a <= la * la,
{
}

} // verus!
