use vstd::prelude::*;

verus! {

/// Stack space that every level of the recursion may use without a check.
pub const BASE_RED_ZONE: usize = 32 * 1024;

/// New stack space allotted per byte of red zone.
pub const STACK_PER_RED_ZONE: usize = 1024;

/// Largest fresh stack that is ever requested: a quarter of the address space, which leaves
/// room to round the request up to whole pages and to add guard pages around it.
pub const LARGEST_STACK: usize = usize::MAX / 4;

/// `x`, or `usize::MAX` where `x` does not fit into a `usize`.
pub open spec fn saturated(x: int) -> int {
    if x > usize::MAX {
        usize::MAX as int
    } else {
        x
    }
}

/// Stack space that one level of the recursion needs: a fixed allowance plus the room for the
/// solver's temporaries, which grow with the square of the dimension.
pub open spec fn red_zone_bytes(dimension: nat, point_size: nat) -> int {
    BASE_RED_ZONE + (8 * dimension + 2 * dimension * dimension) * point_size
}

/// Relies on stacker::maybe_grow: it runs `callback` once and hands back what it returned,
/// either on the current stack, where at least `red_zone` bytes of it are left, or on a fresh
/// stack of at least `stack_size` bytes. It panics where rounding `stack_size` up to whole
/// pages plus two guard pages overflows, which a request of at most `LARGEST_STACK` bytes
/// never does; like an allocation, it also fails where the system cannot map a new stack.
#[verifier::external_body]
fn grow_if_short<R, F: FnOnce() -> R>(red_zone: usize, stack_size: usize, callback: F) -> (r: R)
    requires
        stack_size <= LARGEST_STACK,
        callback.requires(()),
    ensures
        callback.ensures((), r),
{
    stacker::maybe_grow(red_zone, stack_size, callback)
}

/// Runs `callback`, on a fresh stack of `stack_size` bytes where fewer than `red_zone` bytes of
/// the current one are left, so that deep recursion inside it does not exhaust the stack.
pub fn maybe_grow<R, F: FnOnce() -> R>(red_zone: usize, stack_size: usize, callback: F) -> (r: R)
    requires
        stack_size <= LARGEST_STACK,
        callback.requires(()),
    ensures
        callback.ensures((), r),
{
    grow_if_short(red_zone, stack_size, callback)
}

proof fn lemma_saturated_add(a: int, b: int)
    requires
        a >= 0,
        b >= 0,
    ensures
        saturated(saturated(a) + saturated(b)) == saturated(a + b),
{
}

proof fn lemma_saturated_mul(a: int, b: int)
    requires
        a >= 0,
        b >= 0,
    ensures
        saturated(saturated(a) * saturated(b)) == saturated(a * b),
{
    let m = usize::MAX as int;
    if a > m && b > 0 {
        assert(m * saturated(b) >= m) by (nonlinear_arith)
            requires
                saturated(b) >= 1,
                m >= 0,
        ;
        assert(a * b >= m) by (nonlinear_arith)
            requires
                a > m,
                b >= 1,
                m >= 0,
        ;
    } else if b > m && a > 0 {
        assert(saturated(a) * m >= m) by (nonlinear_arith)
            requires
                saturated(a) >= 1,
                m >= 0,
        ;
        assert(a * b >= m) by (nonlinear_arith)
            requires
                b > m,
                a >= 1,
                m >= 0,
        ;
    }
}

/// `a + b`, or `usize::MAX` where the sum does not fit.
fn add_saturating(a: usize, b: usize) -> (r: usize)
    ensures
        r == saturated(a + b),
{
    a.saturating_add(b)
}

/// `a * b`, or `usize::MAX` where the product does not fit.
fn mul_saturating(a: usize, b: usize) -> (r: usize)
    ensures
        r == saturated(a * b),
{
    match a.checked_mul(b) {
        Some(product) => product,
        None => usize::MAX,
    }
}

/// Stack headroom to ensure before each level of the recursion over points of `point_size`
/// bytes in `dimension` dimensions; `usize::MAX` where that does not fit.
pub fn red_zone(dimension: usize, point_size: usize) -> (r: usize)
    ensures
        r == saturated(red_zone_bytes(dimension as nat, point_size as nat)),
{
    let ghost d = dimension as int;
    let ghost s = point_size as int;
    let linear = mul_saturating(8, dimension);
    let square = mul_saturating(mul_saturating(2, dimension), dimension);
    let per_point = add_saturating(linear, square);
    let frame = mul_saturating(per_point, point_size);
    let r = add_saturating(BASE_RED_ZONE, frame);
    proof {
        lemma_saturated_mul(2 * d, d);
        lemma_saturated_add(8 * d, 2 * d * d);
        lemma_saturated_mul(8 * d + 2 * d * d, s);
        lemma_saturated_add(BASE_RED_ZONE as int, (8 * d + 2 * d * d) * s);
        assert(2 * d * d == (2 * d) * d) by (nonlinear_arith);
    }
    r
}

/// Size of the fresh stack to allot when fewer than `red_zone` bytes are left: room for many
/// levels, and no more than `LARGEST_STACK`.
pub fn stack_size(red_zone: usize) -> (r: usize)
    ensures
        r == if red_zone * STACK_PER_RED_ZONE > LARGEST_STACK {
            LARGEST_STACK as int
        } else {
            red_zone * STACK_PER_RED_ZONE
        },
{
    if red_zone > LARGEST_STACK / STACK_PER_RED_ZONE {
        LARGEST_STACK
    } else {
        red_zone * STACK_PER_RED_ZONE
    }
}

} // verus!
