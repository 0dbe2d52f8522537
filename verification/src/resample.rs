//! Resampling a stream block by block gives what resampling it in one piece would.

use vstd::prelude::*;

use crate::ieee::Real64;
use crate::remote::{blended_at, resampled, virtual_stream, walked, Path, Resampler};

verus! {

/// The first `n` blocks, one behind the other.
pub open spec fn joined<A>(blocks: Seq<Seq<A>>, n: int) -> Seq<A>
    decreases n,
{
    if n <= 0 {
        Seq::empty()
    } else {
        joined(blocks, n - 1) + blocks[n - 1]
    }
}

/// A stream was resampled from its start, block by block: block `c` with the outcome
/// `out[c]`. `states` are the resampler before every block, and after the last.
pub open spec fn is_resampling<
    S: Copy,
    T,
    W: Fn(Real64) -> usize,
    A: Fn(Real64, Real64) -> Real64,
    R: Fn(Real64, usize) -> Real64,
    B: Fn(S, S, Real64, usize) -> T,
>(path: Path<W, A, R, B>, blocks: Seq<Seq<S>>, out: Seq<Seq<T>>, states: Seq<Resampler<S>>) -> bool {
    &&& out.len() == blocks.len()
    &&& states.len() == blocks.len() + 1
    &&& states[0].pos == (Real64 { bits: 0 })
    &&& states[0].last is None
    &&& forall|c: int| 0 <= c < blocks.len() ==> (#[trigger] blocks[c]).len() <= usize::MAX
    &&& forall|c: int| 0 <= c < blocks.len() ==> #[trigger] follows(path, blocks, out, states, c)
}

/// Block `c` was resampled.
pub open spec fn follows<
    S: Copy,
    T,
    W: Fn(Real64) -> usize,
    A: Fn(Real64, Real64) -> Real64,
    R: Fn(Real64, usize) -> Real64,
    B: Fn(S, S, Real64, usize) -> T,
>(path: Path<W, A, R, B>, blocks: Seq<Seq<S>>, out: Seq<Seq<T>>, states: Seq<Resampler<S>>, c: int) -> bool {
    resampled(path, states[c], blocks[c], out[c], states[c + 1])
}

proof fn joined_grows<A>(blocks: Seq<Seq<A>>, c: int, n: int)
    requires
        0 <= c <= n <= blocks.len(),
    ensures
        joined(blocks, c).len() <= joined(blocks, n).len(),
        joined(blocks, n).take(joined(blocks, c).len() as int) == joined(blocks, c),
    decreases n - c,
{
    if c < n {
        joined_grows(blocks, c, n - 1);
        let short = joined(blocks, n - 1);
        let size = joined(blocks, c).len() as int;
        assert(joined(blocks, n).take(size) =~= short.take(size));
    } else {
        assert(joined(blocks, n).take(joined(blocks, n).len() as int) =~= joined(blocks, n));
    }
}

proof fn last_is_the_final_sample<
    S: Copy,
    T,
    W: Fn(Real64) -> usize,
    A: Fn(Real64, Real64) -> Real64,
    R: Fn(Real64, usize) -> Real64,
    B: Fn(S, S, Real64, usize) -> T,
>(path: Path<W, A, R, B>, blocks: Seq<Seq<S>>, out: Seq<Seq<T>>, states: Seq<Resampler<S>>, c: int)
    requires
        is_resampling(path, blocks, out, states),
        0 <= c <= blocks.len(),
    ensures
        states[c].step == states[0].step,
        states[c].last == (if joined(blocks, c).len() == 0 {
            None
        } else {
            Some(joined(blocks, c).last())
        }),
    decreases c,
{
    if c > 0 {
        last_is_the_final_sample(path, blocks, out, states, c - 1);
        assert(follows(path, blocks, out, states, c - 1));
        if blocks[c - 1].len() > 0 {
            assert(joined(blocks, c).last() == blocks[c - 1].last());
        } else {
            assert(joined(blocks, c) =~= joined(blocks, c - 1));
        }
    }
}

/// The virtual stream of a block is a part of that of the whole.
proof fn block_is_part_of_the_whole<
    S: Copy,
    T,
    W: Fn(Real64) -> usize,
    A: Fn(Real64, Real64) -> Real64,
    R: Fn(Real64, usize) -> Real64,
    B: Fn(S, S, Real64, usize) -> T,
>(path: Path<W, A, R, B>, blocks: Seq<Seq<S>>, out: Seq<Seq<T>>, states: Seq<Resampler<S>>, c: int, q: int)
    requires
        is_resampling(path, blocks, out, states),
        0 <= c < blocks.len(),
        0 <= q <= blocks[c].len(),
        blocks[c].len() > 0,
    ensures
        virtual_stream(states[c].last, blocks[c])[q] == virtual_stream(
            None,
            joined(blocks, blocks.len() as int),
        )[joined(blocks, c).len() + q],
{
    let x = joined(blocks, blocks.len() as int);
    let start = joined(blocks, c).len() as int;
    last_is_the_final_sample(path, blocks, out, states, c);
    joined_grows(blocks, c, c + 1);
    joined_grows(blocks, c, blocks.len() as int);
    joined_grows(blocks, c + 1, blocks.len() as int);
    let upto = joined(blocks, c + 1);
    assert forall|i: int| 0 <= i < blocks[c].len() implies x[start + i] == #[trigger] blocks[c][i] by {
        assert(upto[start + i] == blocks[c][i]);
        assert(x.take(upto.len() as int)[start + i] == upto[start + i]);
    }
    if q == 0 {
        if start == 0 {
            assert(x[0] == blocks[c][0]);
        } else {
            assert(x.take(start)[start - 1] == joined(blocks, c).last());
        }
    } else {
        assert(x[start + (q - 1)] == blocks[c][q - 1]);
    }
}

/// How a stream is cut into blocks does not matter for what an output lies between: it
/// is a sample between two neighbours in the virtual stream of the whole, as far behind
/// the start of its block as the whole part of its position says.
pub proof fn cuts_do_not_matter<
    S: Copy,
    T,
    W: Fn(Real64) -> usize,
    A: Fn(Real64, Real64) -> Real64,
    R: Fn(Real64, usize) -> Real64,
    B: Fn(S, S, Real64, usize) -> T,
>(path: Path<W, A, R, B>, blocks: Seq<Seq<S>>, out: Seq<Seq<T>>, states: Seq<Resampler<S>>, c: int, j: int) -> (r: (
    Real64,
    usize,
))
    requires
        is_resampling(path, blocks, out, states),
        0 <= c < blocks.len(),
        0 <= j < out[c].len(),
    ensures
        r.1 < blocks[c].len(),
        call_ensures(path.whole, (r.0,), r.1),
        ({
            let v = virtual_stream(None, joined(blocks, blocks.len() as int));
            let k = joined(blocks, c).len() + r.1;
            call_ensures(path.blend, (v[k], v[k + 1], r.0, r.1), out[c][j])
        }),
{
    assert(follows(path, blocks, out, states, c));
    let (walk, at) = the_walk(path, states[c], blocks[c], out[c], states[c + 1]);
    assert(at[j] < blocks[c].len());
    assert(call_ensures(path.whole, (walk[j],), at[j]));
    let own = virtual_stream(states[c].last, blocks[c]);
    assert(call_ensures(path.blend, (own[at[j] as int], own[at[j] + 1], walk[j], at[j]), out[c][j]));
    block_is_part_of_the_whole(path, blocks, out, states, c, at[j] as int);
    block_is_part_of_the_whole(path, blocks, out, states, c, at[j] + 1);
    (walk[j], at[j])
}

/// The positions at which a block was resampled, and their whole parts.
proof fn the_walk<
    S: Copy,
    T,
    W: Fn(Real64) -> usize,
    A: Fn(Real64, Real64) -> Real64,
    R: Fn(Real64, usize) -> Real64,
    B: Fn(S, S, Real64, usize) -> T,
>(path: Path<W, A, R, B>, before: Resampler<S>, input: Seq<S>, made: Seq<T>, after: Resampler<S>) -> (r: (
    Seq<Real64>,
    Seq<usize>,
))
    requires
        resampled(path, before, input, made, after),
        input.len() > 0 || made.len() > 0,
    ensures
        walked(path.whole, path.advance, before.step, input.len() as int, before.pos, r.0, r.1),
        blended_at(path.blend, virtual_stream(before.last, input), r.0, r.1, made),
        call_ensures(path.rewind, (r.0.last(), input.len() as usize), after.pos),
{
    let n = input.len() as int;
    let v = virtual_stream(before.last, input);
    choose|walk: Seq<Real64>, at: Seq<usize>|
        #![trigger walked(path.whole, path.advance, before.step, n, before.pos, walk, at)]
        {
            &&& walked(path.whole, path.advance, before.step, n, before.pos, walk, at)
            &&& blended_at(path.blend, v, walk, at, made)
            &&& call_ensures(path.rewind, (walk.last(), n as usize), after.pos)
        }
}

/// The position of output `m` at a step of `num / den` samples.
pub open spec fn position(m: int, num: int, den: int) -> int {
    m * num / den
}

/// How many outputs stand before sample `n`, at a step of `num / den` samples.
pub open spec fn outputs_before(n: int, num: int, den: int) -> int {
    (n * den + num - 1) / num
}

/// An output stands before sample `n` exactly if it is one of the first
/// `outputs_before(n)`.
pub proof fn outputs_are_counted(m: int, n: int, num: int, den: int)
    requires
        0 <= m,
        0 <= n,
        0 < num,
        0 < den,
    ensures
        position(m, num, den) < n <==> m < outputs_before(n, num, den),
{
    let a = m * num;
    let p = a / den;
    let b = n * den;
    let c = (b + num - 1) / num;
    assert(p * den <= a < p * den + den) by (nonlinear_arith)
        requires
            p == a / den,
            0 < den,
    ;
    assert(c * num <= b + num - 1 < c * num + num) by (nonlinear_arith)
        requires
            c == (b + num - 1) / num,
            0 < num,
    ;
    if p < n {
        assert(p * den + den <= b) by (nonlinear_arith)
            requires
                p < n,
                0 < den,
                b == n * den,
        ;
        assert(a < b);
        assert(m < c) by (nonlinear_arith)
            requires
                a == m * num,
                a < b,
                b + num - 1 < c * num + num,
                0 < num,
        ;
    } else {
        assert(p * den >= b) by (nonlinear_arith)
            requires
                p >= n,
                0 < den,
                b == n * den,
        ;
        assert(a >= b);
        assert(m >= c) by (nonlinear_arith)
            requires
                a == m * num,
                a >= b,
                c * num <= b + num - 1,
                0 < num,
        ;
    }
}

/// How far the next output lies behind sample `n`, in parts of which a sample has `den`.
pub open spec fn lead(n: int, num: int, den: int) -> int {
    outputs_before(n, num, den) * num - n * den
}

proof fn lead_is_below_a_step(n: int, num: int, den: int)
    requires
        0 <= n,
        0 < num,
        0 < den,
    ensures
        0 <= lead(n, num, den) < num,
        0 <= outputs_before(n, num, den),
{
    let b = n * den;
    let c = (b + num - 1) / num;
    assert(0 <= b) by (nonlinear_arith)
        requires
            0 <= n,
            0 < den,
            b == n * den,
    ;
    assert(c * num <= b + num - 1 < c * num + num && 0 <= c) by (nonlinear_arith)
        requires
            c == (b + num - 1) / num,
            0 < num,
            0 <= b,
    ;
}

/// The arithmetic is exact at a step of `num / den` samples: `value` gives what a
/// position is worth, in parts of which a sample has `den`, and up to the worth `limit`
/// whole parts, steps and rewinding are what they should be. What a sample between two
/// others is depends on these and the fraction of its position: it is what `mix` says.
pub open spec fn is_exact<
    S,
    T,
    W: Fn(Real64) -> usize,
    A: Fn(Real64, Real64) -> Real64,
    R: Fn(Real64, usize) -> Real64,
    B: Fn(S, S, Real64, usize) -> T,
>(
    path: Path<W, A, R, B>,
    step: Real64,
    value: spec_fn(Real64) -> Option<int>,
    mix: spec_fn(S, S, int) -> T,
    num: int,
    den: int,
    limit: int,
) -> bool {
    &&& 0 < num
    &&& 0 < den
    &&& value(Real64 { bits: 0 }) == Some(0int)
    &&& forall|p: Real64, k: usize|
        is_worth(value, p, limit + num) && #[trigger] call_ensures(path.whole, (p,), k) ==> k == worth(value, p) / den
    &&& forall|p: Real64, q: Real64|
        is_worth(value, p, limit) && #[trigger] call_ensures(path.advance, (p, step), q) ==> value(q) == Some(
            worth(value, p) + num,
        )
    &&& forall|p: Real64, n: usize, q: Real64|
        is_worth(value, p, limit + num) && n * den <= worth(value, p) && #[trigger] call_ensures(
            path.rewind,
            (p, n),
            q,
        ) ==> value(q) == Some(worth(value, p) - n * den)
    &&& forall|a: S, b: S, p: Real64, k: usize, r: T|
        is_worth(value, p, limit) && #[trigger] call_ensures(path.blend, (a, b, p, k), r) ==> r == mix(
            a,
            b,
            worth(value, p) - k * den,
        )
}

/// The position has a worth, from zero to below `limit`.
pub open spec fn is_worth(value: spec_fn(Real64) -> Option<int>, p: Real64, limit: int) -> bool {
    value(p) is Some && 0 <= worth(value, p) < limit
}

/// What a position is worth.
pub open spec fn worth(value: spec_fn(Real64) -> Option<int>, p: Real64) -> int {
    value(p)->0
}

/// Output `m` of a whole stream at a step of `num / den` samples.
pub open spec fn output_of<S, T>(mix: spec_fn(S, S, int) -> T, stream: Seq<S>, num: int, den: int, m: int) -> T {
    let v = virtual_stream(None, stream);
    let k = position(m, num, den);
    mix(v[k], v[k + 1], m * num - k * den)
}

/// The outputs of a whole stream at a step of `num / den` samples.
pub open spec fn outputs_of<S, T>(mix: spec_fn(S, S, int) -> T, stream: Seq<S>, num: int, den: int) -> Seq<T> {
    Seq::new(
        outputs_before(stream.len() as int, num, den) as nat,
        |m: int| output_of(mix, stream, num, den, m),
    )
}

proof fn walk_is_even<
    S: Copy,
    T,
    W: Fn(Real64) -> usize,
    A: Fn(Real64, Real64) -> Real64,
    R: Fn(Real64, usize) -> Real64,
    B: Fn(S, S, Real64, usize) -> T,
>(
    path: Path<W, A, R, B>,
    step: Real64,
    value: spec_fn(Real64) -> Option<int>,
    mix: spec_fn(S, S, int) -> T,
    num: int,
    den: int,
    limit: int,
    n: int,
    from: Real64,
    walk: Seq<Real64>,
    at: Seq<usize>,
    i: int,
)
    requires
        is_exact(path, step, value, mix, num, den, limit),
        walked(path.whole, path.advance, step, n, from, walk, at),
        is_worth(value, from, num),
        0 <= n,
        n * den <= limit,
        0 <= i < at.len(),
    ensures
        value(walk[i]) == Some(worth(value, from) + i * num),
        is_worth(value, walk[i], limit + num),
        at[i] == (worth(value, from) + i * num) / den,
        i < at.len() - 1 ==> is_worth(value, walk[i], limit) && worth(value, walk[i]) < n * den,
    decreases i,
{
    let x = worth(value, from);
    assert(n * den >= 0) by (nonlinear_arith)
        requires
            0 <= n,
            0 < den,
    ;
    if i > 0 {
        walk_is_even(path, step, value, mix, num, den, limit, n, from, walk, at, i - 1);
        assert(call_ensures(path.advance, (walk[i - 1], step), walk[i - 1 + 1]));
        assert((i - 1) * num + num == i * num) by (nonlinear_arith);
    } else {
        assert(i * num == 0) by (nonlinear_arith)
            requires
                i == 0,
        ;
    }
    assert(call_ensures(path.whole, (walk[i],), at[i]));
    if i < at.len() - 1 {
        let w = x + i * num;
        let k = at[i] as int;
        assert(k < n);
        assert(w < n * den) by (nonlinear_arith)
            requires
                k == w / den,
                k < n,
                0 < den,
        ;
    }
}

/// At an exact step of `num / den` samples a stream of `n` samples gives
/// `n * den / num` outputs, rounded up, however it is cut, and output `m` is what lies
/// at `m * num / den` in the virtual stream of the whole. After every block the next
/// output lies less than a step behind it.
pub proof fn outputs_are_of_the_whole<
    S: Copy,
    T,
    W: Fn(Real64) -> usize,
    A: Fn(Real64, Real64) -> Real64,
    R: Fn(Real64, usize) -> Real64,
    B: Fn(S, S, Real64, usize) -> T,
>(
    path: Path<W, A, R, B>,
    blocks: Seq<Seq<S>>,
    out: Seq<Seq<T>>,
    states: Seq<Resampler<S>>,
    value: spec_fn(Real64) -> Option<int>,
    mix: spec_fn(S, S, int) -> T,
    num: int,
    den: int,
    limit: int,
    n: int,
)
    requires
        is_resampling(path, blocks, out, states),
        is_exact(path, states[0].step, value, mix, num, den, limit),
        forall|c: int| 0 <= c < blocks.len() ==> (#[trigger] blocks[c]).len() * den <= limit,
        0 <= n <= blocks.len(),
    ensures
        joined(out, n).len() == outputs_before(joined(blocks, n).len() as int, num, den),
        forall|m: int|
            0 <= m < joined(out, n).len() ==> (#[trigger] joined(out, n)[m]) == output_of(
                mix,
                joined(blocks, blocks.len() as int),
                num,
                den,
                m,
            ),
        value(states[n].pos) == Some(lead(joined(blocks, n).len() as int, num, den)),
        is_worth(value, states[n].pos, num),
    decreases n,
{
    let len = joined(blocks, n).len() as int;
    lead_is_below_a_step(len, num, den);
    if n == 0 {
        assert(outputs_before(0, num, den) == 0) by (nonlinear_arith)
            requires
                0 < num,
                outputs_before(0, num, den) == (0 * den + num - 1) / num,
        ;
        assert(lead(0, num, den) == 0) by (nonlinear_arith)
            requires
                lead(0, num, den) == 0 * num - 0 * den,
        ;
    } else {
        outputs_are_of_the_whole(path, blocks, out, states, value, mix, num, den, limit, n - 1);
        let c = n - 1;
        assert(follows(path, blocks, out, states, c));
        if blocks[c].len() == 0 {
            assert(joined(blocks, n) =~= joined(blocks, c));
            assert(joined(out, n) =~= joined(out, c));
        } else {
            block_is_on_grid(path, blocks, out, states, value, mix, num, den, limit, c);
            let before = joined(out, c);
            assert forall|m: int| 0 <= m < joined(out, n).len() implies (#[trigger] joined(out, n)[m]) == output_of(
                mix,
                joined(blocks, blocks.len() as int),
                num,
                den,
                m,
            ) by {
                if m < before.len() {
                    assert(joined(out, n)[m] == before[m]);
                } else {
                    assert(joined(out, n)[m] == out[c][m - before.len()]);
                }
            }
        }
    }
}

proof fn block_is_on_grid<
    S: Copy,
    T,
    W: Fn(Real64) -> usize,
    A: Fn(Real64, Real64) -> Real64,
    R: Fn(Real64, usize) -> Real64,
    B: Fn(S, S, Real64, usize) -> T,
>(
    path: Path<W, A, R, B>,
    blocks: Seq<Seq<S>>,
    out: Seq<Seq<T>>,
    states: Seq<Resampler<S>>,
    value: spec_fn(Real64) -> Option<int>,
    mix: spec_fn(S, S, int) -> T,
    num: int,
    den: int,
    limit: int,
    c: int,
)
    requires
        is_resampling(path, blocks, out, states),
        is_exact(path, states[0].step, value, mix, num, den, limit),
        0 <= c < blocks.len(),
        0 < blocks[c].len(),
        blocks[c].len() * den <= limit,
        value(states[c].pos) == Some(lead(joined(blocks, c).len() as int, num, den)),
    ensures
        ({
            let start = joined(blocks, c).len() as int;
            let first = outputs_before(start, num, den);
            &&& first + out[c].len() == outputs_before(start + blocks[c].len(), num, den)
            &&& forall|j: int|
                0 <= j < out[c].len() ==> (#[trigger] out[c][j]) == output_of(
                    mix,
                    joined(blocks, blocks.len() as int),
                    num,
                    den,
                    first + j,
                )
            &&& value(states[c + 1].pos) == Some(lead(start + blocks[c].len(), num, den))
        }),
{
    let start = joined(blocks, c).len() as int;
    let size = blocks[c].len() as int;
    let first = outputs_before(start, num, den);
    let from = states[c].pos;
    let step = states[0].step;
    let x = lead(start, num, den);
    assert(follows(path, blocks, out, states, c));
    last_is_the_final_sample(path, blocks, out, states, c);
    lead_is_below_a_step(start, num, den);
    let (walk, at) = the_walk(path, states[c], blocks[c], out[c], states[c + 1]);
    let made = out[c].len() as int;
    // Every output stands where the grid has it.
    assert forall|j: int| 0 <= j < made implies (#[trigger] out[c][j]) == output_of(
        mix,
        joined(blocks, blocks.len() as int),
        num,
        den,
        first + j,
    ) by {
        walk_is_even(path, step, value, mix, num, den, limit, size, from, walk, at, j);
        let own = virtual_stream(states[c].last, blocks[c]);
        let k = at[j] as int;
        assert(k < size);
        assert(call_ensures(path.blend, (own[k], own[k + 1], walk[j], at[j]), out[c][j]));
        block_is_part_of_the_whole(path, blocks, out, states, c, k);
        block_is_part_of_the_whole(path, blocks, out, states, c, k + 1);
        place_on_grid(start, first, j, num, den);
        assert(start * den + k * den == (start + k) * den) by (nonlinear_arith);
        assert(position(first + j, num, den) == start + k);
    }
    // And the next lies behind the block.
    let w = x + made * num;
    walk_is_even(path, step, value, mix, num, den, limit, size, from, walk, at, made);
    place_on_grid(start, first, made, num, den);
    assert(at[made] == position(first + made, num, den) - start);
    assert(position(first + made, num, den) >= start + size);
    outputs_are_counted(first + made, start + size, num, den);
    if made > 0 {
        walk_is_even(path, step, value, mix, num, den, limit, size, from, walk, at, made - 1);
        place_on_grid(start, first, made - 1, num, den);
        assert(at[made - 1] < size);
        outputs_are_counted(first + (made - 1), start + size, num, den);
    } else {
        outputs_grow(start, start + size, num, den);
    }
    let end = outputs_before(start + size, num, den);
    assert(first + made == end);
    let k = at[made] as int;
    assert(size * den <= w) by (nonlinear_arith)
        requires
            k == w / den,
            size <= k,
            0 < den,
    ;
    assert(call_ensures(path.rewind, (walk.last(), blocks[c].len() as usize), states[c + 1].pos));
    assert(walk.last() == walk[made]);
    assert(w - size * den == lead(start + size, num, den)) by (nonlinear_arith)
        requires
            w == first * num - start * den + made * num,
            first + made == end,
            lead(start + size, num, den) == end * num - (start + size) * den,
    ;
}

/// Where output `first + j` stands, counted from sample `start`.
proof fn place_on_grid(start: int, first: int, j: int, num: int, den: int)
    requires
        0 < den,
    ensures
        (first * num - start * den + j * num) / den == position(first + j, num, den) - start,
        first * num - start * den + j * num == (first + j) * num - start * den,
{
    let a = (first + j) * num;
    assert(first * num + j * num == a) by (nonlinear_arith)
        requires
            a == (first + j) * num,
    ;
    assert((a - start * den) / den == a / den - start) by (nonlinear_arith)
        requires
            0 < den,
    ;
}

proof fn outputs_grow(a: int, b: int, num: int, den: int)
    requires
        0 <= a <= b,
        0 < num,
        0 < den,
    ensures
        outputs_before(a, num, den) <= outputs_before(b, num, den),
{
    let m = outputs_before(b, num, den);
    lead_is_below_a_step(b, num, den);
    outputs_are_counted(m, b, num, den);
    outputs_are_counted(m, a, num, den);
}

/// At an exact step two ways to cut one stream give the same outputs: those of the whole
/// stream.
pub proof fn outputs_do_not_depend_on_the_cuts<
    S: Copy,
    T,
    W: Fn(Real64) -> usize,
    A: Fn(Real64, Real64) -> Real64,
    R: Fn(Real64, usize) -> Real64,
    B: Fn(S, S, Real64, usize) -> T,
>(
    path: Path<W, A, R, B>,
    blocks: Seq<Seq<S>>,
    out: Seq<Seq<T>>,
    states: Seq<Resampler<S>>,
    value: spec_fn(Real64) -> Option<int>,
    mix: spec_fn(S, S, int) -> T,
    num: int,
    den: int,
    limit: int,
    stream: Seq<S>,
)
    requires
        is_resampling(path, blocks, out, states),
        is_exact(path, states[0].step, value, mix, num, den, limit),
        forall|c: int| 0 <= c < blocks.len() ==> (#[trigger] blocks[c]).len() * den <= limit,
        stream == joined(blocks, blocks.len() as int),
    ensures
        joined(out, out.len() as int) == outputs_of(mix, stream, num, den),
{
    outputs_are_of_the_whole(path, blocks, out, states, value, mix, num, den, limit, blocks.len() as int);
    lead_is_below_a_step(stream.len() as int, num, den);
    assert(joined(out, out.len() as int) =~= outputs_of(mix, stream, num, den));
}

} // verus!
