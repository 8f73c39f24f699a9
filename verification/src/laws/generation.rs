//! What the generator is made to do by its settings.

use vstd::prelude::*;
use vstd::string::*;

use crate::generate::{
    background_opacity, closing, dims_of, mask_lines, pass_count, pass_of, pixel_limit, saved_at,
    scored_pixels, whitened, work_plan, Kernel, Pass, ProfileView, Slot, WorkPlan,
};
use crate::laws::tables::{least, most};
use crate::text::decimal;

verus! {

/// The work for each shape spends what the settings ask for: as many random candidates,
/// 65535 at most, and the mutations in rounds of 256 each, as many whole rounds as there
/// are and one at least. The buffers hold 48 bytes for each candidate that is tried at
/// once and for each shape.
pub proof fn law_plan_spends_what_is_asked(p: ProfileView)
    requires
        p.stop_at * 48 <= u64::MAX,
    ensures
        ({
            let plan = work_plan(p);
            let rounds = plan.rounds as int;
            let mutations = p.mutated_samples as int;
            &&& plan.random == least(p.random_samples as int, 65535)
            &&& mutations >= 256 ==> rounds * 256 <= mutations < (rounds + 1) * 256
            &&& mutations < 256 ==> rounds == 1
            &&& plan.candidates == most(plan.random as int, 256)
            &&& plan.result_bytes == 48 * plan.candidates
            &&& plan.shape_bytes == 48 * p.stop_at
        }),
{
    let n = p.mutated_samples as int;
    assert((n / 256) * 256 <= n < (n / 256 + 1) * 256);
}

/// More mutations never mean fewer rounds, and 256 more mean one round more.
pub proof fn law_more_mutations_mean_more_rounds(p: ProfileView, q: ProfileView)
    requires
        q.mutated_samples >= p.mutated_samples,
    ensures
        work_plan(q).rounds >= work_plan(p).rounds,
        p.mutated_samples >= 256 && q.mutated_samples == p.mutated_samples + 256 ==> work_plan(
            q,
        ).rounds == work_plan(p).rounds + 1,
{
    let a = p.mutated_samples as int;
    let b = q.mutated_samples as int;
    assert(a / 256 <= b / 256);
    assert((a + 256) / 256 == a / 256 + 1);
}

/// The passes of a shape: first the random candidates and the best of them; then, in each
/// round, a step of the climb, 256 mutations and the best of all; then the shape is put on
/// the canvas and recorded. There is no other pass.
pub proof fn law_shape_is_made_in_order(plan: WorkPlan, round: int)
    requires
        0 <= round < plan.rounds,
    ensures
        pass_of(plan, 0) == Some(
            Pass {
                kernel: Kernel::Evaluate,
                slot: Slot::EvaluateRandom,
                groups: Some(plan.random),
            },
        ),
        pass_of(plan, 1) == Some(
            Pass { kernel: Kernel::Reduce, slot: Slot::ReduceFirst, groups: Some(1) },
        ),
        pass_of(plan, 2 + 3 * round) == Some(
            Pass { kernel: Kernel::Advance, slot: Slot::Other, groups: Some(1) },
        ),
        pass_of(plan, 3 + 3 * round) == Some(
            Pass { kernel: Kernel::Evaluate, slot: Slot::EvaluateClimb, groups: Some(256) },
        ),
        pass_of(plan, 4 + 3 * round) == Some(
            Pass { kernel: Kernel::Reduce, slot: Slot::ReduceFold, groups: Some(1) },
        ),
        pass_of(plan, 2 + 3 * plan.rounds) == Some(
            Pass { kernel: Kernel::CommitArgs, slot: Slot::Other, groups: Some(1) },
        ),
        pass_of(plan, 3 + 3 * plan.rounds) == Some(
            Pass { kernel: Kernel::Commit, slot: Slot::Other, groups: None },
        ),
        pass_of(plan, 4 + 3 * plan.rounds) == Some(
            Pass { kernel: Kernel::EndShape, slot: Slot::Other, groups: Some(1) },
        ),
        forall|i: int| i >= 5 + 3 * plan.rounds ==> #[trigger] pass_of(plan, i) is None,
        pass_count(plan) == 5 + 3 * plan.rounds,
{
}

/// A pass that evaluates candidates runs one group for each candidate of its parameters,
/// and the pass behind it takes the best of as many. Mutations are told from random
/// candidates, and every pass works on the same image.
pub proof fn law_candidates_are_all_compared(plan: WorkPlan, i: int, w: u32, h: u32)
    ensures
        pass_of(plan, i) matches Some(pass) ==> {
            let dims = dims_of(pass.slot, w, h, plan);
            &&& dims.w == w
            &&& dims.h == h
            &&& pass.kernel == Kernel::Evaluate ==> pass.groups == Some(dims.candidates)
            &&& pass.kernel == Kernel::Evaluate ==> (pass_of(plan, i + 1) matches Some(next)
                && next.kernel == Kernel::Reduce && dims_of(next.slot, w, h, plan) == dims)
            &&& pass.kernel == Kernel::Evaluate ==> (dims.climb == 0 <==> i == 0)
            &&& pass.kernel == Kernel::Evaluate ==> dims.climb <= 1
        },
{
}

/// The working image is as large as it can be: sixteen bytes of each pixel fit into one
/// binding and into one buffer, one dispatch of 65535 groups of 64 covers the pixels, and
/// one pixel more would be too many for one of these.
pub proof fn law_working_image_fits(binding_bytes: int, buffer_bytes: int)
    requires
        0 <= binding_bytes,
        0 <= buffer_bytes,
    ensures
        ({
            let n = pixel_limit(binding_bytes, buffer_bytes);
            &&& n >= 0
            &&& 16 * n <= binding_bytes
            &&& 16 * n <= buffer_bytes
            &&& n <= 65535 * 64
            &&& 16 * (n + 1) > binding_bytes || 16 * (n + 1) > buffer_bytes || n + 1 > 65535 * 64
        }),
{
}

/// The shapes are saved often enough and not without reason: among any `save_every`
/// numbers in a row there is one at which they are, and at each of the others only where
/// it is a save point or the end.
pub proof fn law_shapes_are_saved_regularly(p: ProfileView, k: int)
    requires
        p.save_every >= 1,
        0 <= k,
        k + p.save_every <= usize::MAX,
    ensures
        exists|n: usize| k < n <= k + p.save_every && #[trigger] saved_at(p, n),
        forall|n: usize| #[trigger] p.save_at.contains(n) ==> saved_at(p, n),
        saved_at(p, p.stop_at),
        forall|m: int, n: usize|
            #[trigger] times(m, p.save_every as int) == n ==> #[trigger] saved_at(p, n),
        forall|n: usize| #[trigger]
            saved_at(p, n) ==> n == p.stop_at || p.save_at.contains(n) || exists|m: int|
                #[trigger] times(m, p.save_every as int) == n,
{
    let e = p.save_every as int;
    let m = k / e + 1;
    let n = (m * e) as usize;
    assert(k < m * e <= k + e) by (nonlinear_arith)
        requires
            e >= 1,
            k >= 0,
            m == k / e + 1,
    ;
    assert((m * e) % e == 0) by (nonlinear_arith)
        requires
            e >= 1,
    ;
    assert(n as int == m * e);
    assert(n % p.save_every == 0);
    assert(saved_at(p, n));
    assert forall|q: int, x: usize| #[trigger] times(q, e) == x implies #[trigger] saved_at(
        p,
        x,
    ) by {
        assert((q * e) % e == 0) by (nonlinear_arith)
            requires
                e >= 1,
        ;
    }
    assert forall|x: usize| #[trigger] saved_at(p, x) implies x == p.stop_at
        || p.save_at.contains(x) || exists|q: int| #[trigger] times(q, e) == x by {
        if x % p.save_every == 0 {
            let q = x as int / e;
            assert(q * e == x) by (nonlinear_arith)
                requires
                    e >= 1,
                    x as int % e == 0,
                    q == x as int / e,
            ;
            assert(times(q, e) == x);
        }
    }
}

/// A multiple.
pub open spec fn times(m: int, e: int) -> int {
    m * e
}

/// The pixels that are matched are counted one by one: all of them with a background, and
/// without one those whose opacity is at least half of 255.
pub proof fn law_opaque_pixels_are_counted(rgba: Seq<u8>, transparent: bool, n: int)
    requires
        0 <= n,
        4 * n <= rgba.len(),
    ensures
        scored_pixels(rgba, transparent, n) == Seq::new(n as nat, |i: int| rgba[4 * i + 3]).filter(
            |a: u8| !transparent || 2 * a >= 255,
        ).len(),
        !transparent ==> scored_pixels(rgba, transparent, n) == n,
        0 <= scored_pixels(rgba, transparent, n) <= n,
    decreases n,
{
    reveal(Seq::filter);
    let s = Seq::new(n as nat, |i: int| rgba[4 * i + 3]);
    if n > 0 {
        law_opaque_pixels_are_counted(rgba, transparent, n - 1);
        assert(s.drop_last() =~= Seq::new((n - 1) as nat, |i: int| rgba[4 * i + 3]));
        assert(s.last() == rgba[4 * n - 1]);
    }
}

/// A colour over white is the nearest whole number to the mix of the colour and white in
/// the ratio of the opacity: an opaque colour stays, nothing is left of a transparent one,
/// and more opacity never makes it lighter.
pub proof fn law_colours_mix_with_white(c: u8, alpha: u8, beta: u8)
    ensures
        0 <= whitened(c, alpha) <= 255,
        -255 <= 510 * whitened(c, alpha) - 2 * (c * alpha + 255 * (255 - alpha)) <= 255,
        whitened(c, 255) == c,
        whitened(c, 0) == 255,
        alpha <= beta ==> whitened(c, beta) <= whitened(c, alpha),
{
    let x = c * alpha + 255 * (255 - alpha);
    let y = c * beta + 255 * (255 - beta);
    assert(0 <= x <= 255 * 255) by (nonlinear_arith)
        requires
            0 <= c <= 255,
            0 <= alpha <= 255,
            x == c * alpha + 255 * (255 - alpha),
    ;
    if alpha <= beta {
        assert(y <= x) by (nonlinear_arith)
            requires
                0 <= c <= 255,
                alpha <= beta,
                x == c * alpha + 255 * (255 - alpha),
                y == c * beta + 255 * (255 - beta),
        ;
    }
}

/// Without a background the geometry has none, with one it is opaque.
pub proof fn law_background_shows_unless_transparent(p: ProfileView)
    ensures
        p.transparent_bg ==> background_opacity(p) == 0,
        !p.transparent_bg ==> background_opacity(p) == 255,
{
}

/// What is said of the mask: how many of the pixels count, and a warning just where the
/// background is to be left out and nothing is masked.
pub proof fn law_empty_mask_is_warned_of(transparent: bool, counted: nat, total: nat)
    ensures
        mask_lines(transparent, counted as int, total as int).len() == (if transparent && counted
            == total {
            2nat
        } else {
            1
        }),
        transparent ==> exists|rest: Seq<char>|
            mask_lines(transparent, counted as int, total as int)[0] == "Transparent mode ON: "@
                + decimal(counted) + " / "@ + decimal(total) + #[trigger] (" px"@ + rest),
{
    if transparent {
        reveal_strlit(" px are subject (scored), ");
        reveal_strlit(" px");
        let all = " px are subject (scored), "@;
        let rest = all.skip(3) + decimal((total - counted) as nat)
            + " masked as background (bg alpha 0)."@;
        assert(all =~= " px"@ + all.skip(3));
        assert(mask_lines(transparent, counted as int, total as int)[0]
            =~= "Transparent mode ON: "@ + decimal(counted) + " / "@ + decimal(total) + (" px"@
            + rest));
    }
}

/// The colour of the car is told just where it shows through: with a background, and with
/// shapes that are not solid.
pub proof fn law_car_colour_is_told_where_it_shows(p: ProfileView, hsv: Seq<char>, other: Seq<char>)
    ensures
        p.transparent_bg || p.shape_alpha == 255 ==> closing(p, hsv) == closing(p, other),
        !p.transparent_bg && p.shape_alpha < 255 && hsv.len() != other.len() ==> closing(p, hsv)
            != closing(p, other),
        !p.transparent_bg && p.shape_alpha < 255 ==> exists|before: Seq<char>, after: Seq<char>|
            closing(p, hsv) == #[trigger] (before + hsv + after),
{
    if !p.transparent_bg && p.shape_alpha < 255 {
        let before = "Blended shapes (alpha "@ + decimal(p.shape_alpha as nat)
            + "): for a clean look set the car colour to HSV\n"@;
        let after =
            "\n(or use Background=Transparent / Opacity=255 to skip colour matching)."@;
        assert(closing(p, hsv) =~= before + hsv + after);
        assert(closing(p, other) =~= before + other + after);
        if hsv.len() != other.len() {
            assert((before + hsv + after).len() != (before + other + after).len());
        }
    }
}

} // verus!
