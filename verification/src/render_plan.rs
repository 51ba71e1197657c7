//! The integer bookkeeping of a rendered frame: the jump sizes of the jump
//! flood, the order of the GPU passes with their timestamp queries, and the
//! sizes of dispatches and textures.

use vstd::prelude::*;

verus! {

/// The jump sizes of the flood starting from `start`: `start`, then each
/// half of the one before (rounded down), while it is at least 1.
pub open spec fn halvings(start: u32) -> Seq<u32>
    decreases start,
{
    if start == 0 {
        Seq::empty()
    } else {
        seq![start] + halvings(start / 2)
    }
}

/// Builds the jump sequence: `start`, `start / 2`, ..., 1.
pub fn jump_sizes(start: u32) -> (jumps: Vec<u32>)
    ensures
        jumps@ == halvings(start),
{
    let mut jumps: Vec<u32> = Vec::new();
    let mut j = start;
    while j >= 1
        invariant
            jumps@ + halvings(j) == halvings(start),
        decreases j,
    {
        let ghost before = jumps@;
        jumps.push(j);
        proof {
            assert(halvings(j) == seq![j] + halvings(j / 2));
            assert(before + halvings(j) =~= before.push(j) + halvings(j / 2));
        }
        j = j / 2;
    }
    proof {
        assert(jumps@ + halvings(j) =~= jumps@);
    }
    jumps
}

/// Number of timestamp queries of a frame with `jump_count` jump steps: a
/// begin and an end for the seed pass, each step, the heat map pass and the
/// stop points pass.
pub fn timestamp_query_count(jump_count: u32) -> (count: u32)
    requires
        2 * (jump_count + 3) <= u32::MAX,
    ensures
        count == 2 * (jump_count + 3),
{
    let timestamp_pass_count = 1 + jump_count + 1 + 1; // seed + steps + render + stop_points
    timestamp_pass_count * 2
}

/// Number of workgroups of `workgroup_size` threads that cover `n` items.
pub fn dispatch_count(n: u32, workgroup_size: u32) -> (count: u32)
    requires
        workgroup_size > 0,
        n + workgroup_size - 1 <= u32::MAX,
    ensures
        count == (n + workgroup_size - 1) / (workgroup_size as int),
        count * workgroup_size >= n,
        count == 0 || (count - 1) * workgroup_size < n,
{
    let count = (n + (workgroup_size - 1)) / workgroup_size;
    proof {
        let w = workgroup_size as int;
        let t = (n + w - 1) as int;
        vstd::arithmetic::div_mod::lemma_fundamental_div_mod(t, w);
        assert(t == w * (t / w) + t % w);
        assert(0 <= t % w < w);
        assert(count * w == w * (t / w)) by (nonlinear_arith)
            requires
                count == t / w,
        ;
        assert((count - 1) * w == count * w - w) by (nonlinear_arith);
    }
    count
}

/// One side of the jump flood textures for a window side of `size` pixels
/// rendered at `1 / scale` of the resolution: at least 1.
pub fn jfa_extent(size: u32, scale: u32) -> (extent: u32)
    requires
        scale > 0,
    ensures
        extent == if size / scale >= 1 {
            size / scale
        } else {
            1
        },
{
    let e = size / scale;
    if e >= 1 {
        e
    } else {
        1
    }
}

/// A GPU pass of a frame, with the index of its first timestamp query (its
/// end goes to the next index).
#[derive(Clone, Copy, Debug, PartialEq, Eq, Structural)]
pub enum FramePass {
    /// Scatters the stops onto the first texture.
    Seed { query: u32 },
    /// One jump flood step with jump number `jump_index`; reads the second
    /// texture (and writes the first) when `read_b`, the other way otherwise.
    JumpStep { jump_index: u32, read_b: bool, query: u32 },
    /// Finds the earliest and latest arrival in the final texture (the
    /// first texture when `read_a`, the second otherwise).
    MinMax { read_a: bool },
    /// Draws the heat map from the final texture.
    Heatmap { read_a: bool, query: u32 },
    /// Draws the stops on top.
    StopPoints { query: u32 },
}

/// The passes of a frame with `jump_count` jump steps, in order. The seed
/// pass writes the first texture; the steps alternate between the textures,
/// the first reading the first texture and writing the second; the min-max
/// and heat map passes read the texture the last step wrote, which is the
/// first texture when the number of steps is even. Every pass but the
/// min-max pass records a begin and an end timestamp.
pub open spec fn spec_frame_passes(jump_count: u32) -> Seq<FramePass> {
    seq![FramePass::Seed { query: 0 }] + Seq::new(
        jump_count as nat,
        |i: int|
            FramePass::JumpStep {
                jump_index: i as u32,
                read_b: i % 2 == 1,
                query: (2 + 2 * i) as u32,
            },
    ) + seq![
        FramePass::MinMax { read_a: jump_count % 2 == 0 },
        FramePass::Heatmap { read_a: jump_count % 2 == 0, query: (2 + 2 * jump_count) as u32 },
        FramePass::StopPoints { query: (4 + 2 * jump_count) as u32 },
    ]
}

/// Lists the passes of a frame with `jump_count` jump steps.
pub fn frame_passes(jump_count: u32) -> (passes: Vec<FramePass>)
    requires
        2 * (jump_count + 3) <= u32::MAX,
    ensures
        passes@ == spec_frame_passes(jump_count),
{
    let mut passes: Vec<FramePass> = Vec::new();
    let mut q: u32 = 0; // query index for gpu timers
    passes.push(FramePass::Seed { query: q });
    q = q + 2;
    // flips read/write between texture_a and texture_b:
    // false -> read texture_a, write texture_b
    // true -> read texture_b, write texture_a
    let mut flip = false;
    let ghost steps = Seq::new(
        jump_count as nat,
        |i: int|
            FramePass::JumpStep {
                jump_index: i as u32,
                read_b: i % 2 == 1,
                query: (2 + 2 * i) as u32,
            },
    );
    for k in 0..jump_count
        invariant
            2 * (jump_count + 3) <= u32::MAX,
            q == 2 + 2 * k,
            flip == (k % 2 == 1),
            steps == Seq::new(
                jump_count as nat,
                |i: int|
                    FramePass::JumpStep {
                        jump_index: i as u32,
                        read_b: i % 2 == 1,
                        query: (2 + 2 * i) as u32,
                    },
            ),
            passes@ == seq![FramePass::Seed { query: 0 }] + steps.take(k as int),
    {
        passes.push(FramePass::JumpStep { jump_index: k, read_b: flip, query: q });
        proof {
            assert(steps.take(k + 1) =~= steps.take(k as int).push(steps[k as int]));
        }
        q = q + 2;
        flip = !flip;
    }
    // after the loop the next step would read the texture the last one wrote
    passes.push(FramePass::MinMax { read_a: !flip });
    passes.push(FramePass::Heatmap { read_a: !flip, query: q });
    q = q + 2;
    passes.push(FramePass::StopPoints { query: q });
    proof {
        assert(steps.take(jump_count as int) =~= steps);
        assert(passes@ =~= spec_frame_passes(jump_count));
    }
    passes
}

/// The jump steps alternate between the two textures: the first step reads
/// the texture the seed pass wrote, and each step reads the texture the step
/// before it wrote.
pub proof fn jump_steps_alternate(jump_count: u32, i: int)
    requires
        0 <= i < jump_count,
    ensures
        spec_frame_passes(jump_count)[1 + i] is JumpStep,
        spec_frame_passes(jump_count)[1 + i]->jump_index == i,
        i == 0 ==> !spec_frame_passes(jump_count)[1 + i]->read_b,
        i > 0 ==> spec_frame_passes(jump_count)[i] is JumpStep && spec_frame_passes(jump_count)[1 + i]->read_b
            != spec_frame_passes(jump_count)[i]->read_b,
{
}

/// The min-max and heat map passes read the texture the last jump step
/// wrote (a step reading the second texture writes the first), or the
/// seeded first texture when there is no step.
pub proof fn final_passes_read_last_written(jump_count: u32)
    ensures
        ({
            let passes = spec_frame_passes(jump_count);
            let last_wrote_a = jump_count == 0 || passes[jump_count as int]->read_b;
            &&& jump_count > 0 ==> passes[jump_count as int] is JumpStep
            &&& passes[jump_count + 1] == FramePass::MinMax { read_a: last_wrote_a }
            &&& passes[jump_count + 2] is Heatmap
            &&& passes[jump_count + 2]->Heatmap_read_a == last_wrote_a
        }),
{
}

/// Each timed pass of a frame has its own pair of timestamp queries: the
/// seed pass the first pair, jump step `i` the pair after it, then the heat
/// map and the stop points, whose end query is the last of
/// `timestamp_query_count` queries.
pub proof fn timed_passes_fill_queries(jump_count: u32)
    requires
        2 * (jump_count + 3) <= u32::MAX,
    ensures
        ({
            let passes = spec_frame_passes(jump_count);
            &&& passes.len() == jump_count + 4
            &&& passes[0] == FramePass::Seed { query: 0 }
            &&& forall|i: int| 0 <= i < jump_count ==> (#[trigger] passes[1 + i]) is JumpStep && passes[1
                + i]->JumpStep_query == 2 + 2 * i
            &&& passes[jump_count + 2] is Heatmap
            &&& passes[jump_count + 2]->Heatmap_query == 2 + 2 * jump_count
            &&& passes[jump_count + 3] is StopPoints
            &&& passes[jump_count + 3]->StopPoints_query + 2 == 2 * (jump_count + 3)
        }),
{
}

} // verus!
