//! The K-means clustering engine: randomized seeding, the assignment pass,
//! the centroid update pass, and the fixed-count refinement loop.

use vstd::prelude::*;

use crate::rng::gen_index;
use crate::sample::{
    all_channels_valid, channels_valid, distance_spec, distance_heuristic, zero_pos, Sample,
};

verus! {

/// Index of the center nearest to `p` among the first `n` centers, ties
/// broken toward the lowest index (the first strict improvement wins).
pub open spec fn nearest_upto(centers: Seq<Sample>, p: Sample, n: int) -> int
    decreases n,
{
    if n <= 1 {
        0
    } else {
        let best = nearest_upto(centers, p, n - 1);
        if distance_spec(centers[n - 1], p) < distance_spec(centers[best], p) {
            n - 1
        } else {
            best
        }
    }
}

/// Index of the center nearest to `p`, ties broken toward the lowest index.
pub open spec fn nearest_spec(centers: Seq<Sample>, p: Sample) -> int {
    nearest_upto(centers, p, centers.len() as int)
}

/// `nearest_upto` is in range, achieves the minimum distance, and is the
/// first index to do so.
pub proof fn lemma_nearest_upto_props(centers: Seq<Sample>, p: Sample, n: int)
    requires
        1 <= n <= centers.len(),
    ensures
        0 <= nearest_upto(centers, p, n) < n,
        forall|j: int|
            0 <= j < n ==> distance_spec(centers[nearest_upto(centers, p, n)], p)
                <= distance_spec(#[trigger] centers[j], p),
        forall|j: int|
            0 <= j < nearest_upto(centers, p, n) ==> distance_spec(
                centers[nearest_upto(centers, p, n)],
                p,
            ) < distance_spec(#[trigger] centers[j], p),
    decreases n,
{
    if n > 1 {
        lemma_nearest_upto_props(centers, p, n - 1);
    }
}

/// Range and minimality of `nearest_spec` for a non-empty center list.
pub proof fn lemma_nearest_spec_props(centers: Seq<Sample>, p: Sample)
    requires
        centers.len() >= 1,
    ensures
        0 <= nearest_spec(centers, p) < centers.len(),
        forall|j: int|
            0 <= j < centers.len() ==> distance_spec(centers[nearest_spec(centers, p)], p)
                <= distance_spec(#[trigger] centers[j], p),
        forall|j: int|
            0 <= j < nearest_spec(centers, p) ==> distance_spec(centers[nearest_spec(centers, p)], p)
                < distance_spec(#[trigger] centers[j], p),
{
    lemma_nearest_upto_props(centers, p, centers.len() as int);
}

/// Index of the center nearest to `p`, scanning in ascending index order so
/// a tie keeps the earlier center.
pub fn nearest_center(centers: &Vec<Sample>, p: &Sample) -> (i: usize)
    requires
        centers@.len() >= 1,
        all_channels_valid(centers@),
        channels_valid(*p),
    ensures
        i < centers@.len(),
        i as int == nearest_spec(centers@, *p),
{
    let mut best: usize = 0;
    let mut best_d: i32 = distance_heuristic(&centers[0], p);
    let mut k: usize = 1;
    while k < centers.len()
        invariant
            1 <= k <= centers@.len(),
            all_channels_valid(centers@),
            channels_valid(*p),
            best < k,
            best as int == nearest_upto(centers@, *p, k as int),
            best_d == distance_spec(centers@[best as int], *p),
        decreases centers@.len() - k,
    {
        let d = distance_heuristic(&centers[k], p);
        if d < best_d {
            best = k;
            best_d = d;
        }
        k = k + 1;
    }
    best
}

/// For every sample, the index of its nearest center.
pub open spec fn assign_spec(points: Seq<Sample>, centers: Seq<Sample>) -> Seq<int> {
    Seq::new(points.len(), |i: int| nearest_spec(centers, points[i]))
}

/// Assign every sample to its nearest center; ties go to the lowest index.
pub fn assign(points: &Vec<Sample>, centers: &Vec<Sample>) -> (a: Vec<usize>)
    requires
        centers@.len() >= 1,
        all_channels_valid(points@),
        all_channels_valid(centers@),
    ensures
        a@.len() == points@.len(),
        forall|i: int|
            0 <= i < a@.len() ==> (#[trigger] a@[i]) as int == assign_spec(points@, centers@)[i],
        forall|i: int| 0 <= i < a@.len() ==> (#[trigger] a@[i]) < centers@.len(),
{
    let mut a: Vec<usize> = Vec::new();
    let mut i: usize = 0;
    while i < points.len()
        invariant
            i <= points@.len(),
            a@.len() == i,
            centers@.len() >= 1,
            all_channels_valid(points@),
            all_channels_valid(centers@),
            forall|j: int|
                0 <= j < i ==> (#[trigger] a@[j]) as int == nearest_spec(centers@, points@[j]),
            forall|j: int| 0 <= j < i ==> (#[trigger] a@[j]) < centers@.len(),
        decreases points@.len() - i,
    {
        let c = nearest_center(centers, &points[i]);
        a.push(c);
        i = i + 1;
    }
    a
}

/// The members of cluster `c` among the first `n` samples, in sample order.
pub open spec fn members_upto(points: Seq<Sample>, centers: Seq<Sample>, c: int, n: int) -> Seq<
    Sample,
>
    decreases n,
{
    if n <= 0 {
        Seq::empty()
    } else {
        let pre = members_upto(points, centers, c, n - 1);
        if nearest_spec(centers, points[n - 1]) == c {
            pre.push(points[n - 1])
        } else {
            pre
        }
    }
}

/// The members of cluster `c`: the samples whose nearest center is `c`, in
/// sample order.
pub open spec fn cluster_members(points: Seq<Sample>, centers: Seq<Sample>, c: int) -> Seq<Sample> {
    members_upto(points, centers, c, points.len() as int)
}

/// Members of any cluster keep valid channels and do not outnumber the pool.
pub proof fn lemma_members_upto_props(points: Seq<Sample>, centers: Seq<Sample>, c: int, n: int)
    requires
        0 <= n <= points.len(),
        all_channels_valid(points),
    ensures
        members_upto(points, centers, c, n).len() <= n,
        all_channels_valid(members_upto(points, centers, c, n)),
    decreases n,
{
    if n > 0 {
        lemma_members_upto_props(points, centers, c, n - 1);
    }
}

/// Group every sample into the cluster of its nearest center. The result has
/// one bucket per center, and bucket `c` holds exactly the samples whose
/// nearest center is `c`, in their original order.
pub fn generate_selections(points: &Vec<Sample>, selection_centers: &Vec<Sample>) -> (sels: Vec<
    Vec<Sample>,
>)
    requires
        selection_centers@.len() >= 1,
        all_channels_valid(points@),
        all_channels_valid(selection_centers@),
    ensures
        sels@.len() == selection_centers@.len(),
        forall|c: int|
            0 <= c < sels@.len() ==> (#[trigger] sels@[c])@ == cluster_members(
                points@,
                selection_centers@,
                c,
            ),
{
    let a = assign(points, selection_centers);
    let mut sels: Vec<Vec<Sample>> = Vec::new();
    let mut c: usize = 0;
    while c < selection_centers.len()
        invariant
            c <= selection_centers@.len(),
            sels@.len() == c,
            a@.len() == points@.len(),
            forall|j: int|
                0 <= j < a@.len() ==> (#[trigger] a@[j]) as int == nearest_spec(
                    selection_centers@,
                    points@[j],
                ),
            forall|d: int|
                0 <= d < c ==> (#[trigger] sels@[d])@ == cluster_members(
                    points@,
                    selection_centers@,
                    d,
                ),
        decreases selection_centers@.len() - c,
    {
        let mut bucket: Vec<Sample> = Vec::new();
        let mut i: usize = 0;
        while i < points.len()
            invariant
                i <= points@.len(),
                a@.len() == points@.len(),
                c < selection_centers@.len(),
                forall|j: int|
                    0 <= j < a@.len() ==> (#[trigger] a@[j]) as int == nearest_spec(
                        selection_centers@,
                        points@[j],
                    ),
                bucket@ == members_upto(points@, selection_centers@, c as int, i as int),
            decreases points@.len() - i,
        {
            if a[i] == c {
                bucket.push(points[i]);
            }
            i = i + 1;
        }
        sels.push(bucket);
        c = c + 1;
    }
    sels
}

/// Sum over the first `k` clusters of the member count among the first `n`
/// samples.
pub open spec fn members_total(points: Seq<Sample>, centers: Seq<Sample>, k: int, n: int) -> int
    decreases k,
{
    if k <= 0 {
        0
    } else {
        members_total(points, centers, k - 1, n) + members_upto(points, centers, k - 1, n).len()
    }
}

/// Taking one more sample into account raises the total member count by one
/// exactly when that sample's cluster lies among the first `k`.
proof fn lemma_members_total_step(points: Seq<Sample>, centers: Seq<Sample>, k: int, n: int)
    requires
        1 <= n <= points.len(),
    ensures
        members_total(points, centers, k, n) == members_total(points, centers, k, n - 1) + (
        if 0 <= nearest_spec(centers, points[n - 1]) < k {
            1int
        } else {
            0int
        }),
    decreases k,
{
    if k > 0 {
        lemma_members_total_step(points, centers, k - 1, n);
    }
}

/// With no samples taken into account, every cluster is empty.
proof fn lemma_members_total_zero(points: Seq<Sample>, centers: Seq<Sample>, k: int)
    ensures
        members_total(points, centers, k, 0) == 0,
    decreases k,
{
    if k > 0 {
        lemma_members_total_zero(points, centers, k - 1);
    }
}

/// Prefix form of the partition law: the first `n` samples are spread over
/// the clusters with nothing lost and nothing counted twice.
proof fn lemma_members_partition_upto(points: Seq<Sample>, centers: Seq<Sample>, n: int)
    requires
        centers.len() >= 1,
        0 <= n <= points.len(),
    ensures
        members_total(points, centers, centers.len() as int, n) == n,
    decreases n,
{
    if n > 0 {
        lemma_members_partition_upto(points, centers, n - 1);
        lemma_nearest_spec_props(centers, points[n - 1]);
        lemma_members_total_step(points, centers, centers.len() as int, n);
    } else {
        lemma_members_total_zero(points, centers, centers.len() as int);
    }
}

/// Every sample belongs to exactly one cluster after an assignment pass:
/// over all clusters, the member counts add up to the number of samples.
pub proof fn lemma_members_partition(points: Seq<Sample>, centers: Seq<Sample>)
    requires
        centers.len() >= 1,
    ensures
        members_total(points, centers, centers.len() as int, points.len() as int)
            == points.len(),
{
    lemma_members_partition_upto(points, centers, points.len() as int);
}

/// Sum of the red channel over a sample sequence.
pub open spec fn sum_r(s: Seq<Sample>) -> int
    decreases s.len(),
{
    if s.len() == 0 {
        0
    } else {
        sum_r(s.drop_last()) + s.last().r
    }
}

/// Sum of the green channel over a sample sequence.
pub open spec fn sum_g(s: Seq<Sample>) -> int
    decreases s.len(),
{
    if s.len() == 0 {
        0
    } else {
        sum_g(s.drop_last()) + s.last().g
    }
}

/// Sum of the blue channel over a sample sequence.
pub open spec fn sum_b(s: Seq<Sample>) -> int
    decreases s.len(),
{
    if s.len() == 0 {
        0
    } else {
        sum_b(s.drop_last()) + s.last().b
    }
}

/// Channel sums of a valid sequence lie between 0 and 255 per element.
pub proof fn lemma_channel_sum_bounds(s: Seq<Sample>)
    requires
        all_channels_valid(s),
    ensures
        0 <= sum_r(s) <= 255 * s.len(),
        0 <= sum_g(s) <= 255 * s.len(),
        0 <= sum_b(s) <= 255 * s.len(),
    decreases s.len(),
{
    if s.len() > 0 {
        assert(all_channels_valid(s.drop_last()));
        lemma_channel_sum_bounds(s.drop_last());
    }
}

/// The arithmetic mean color of a non-empty sample sequence, each channel an
/// integer mean rounded toward zero, with no position.
pub open spec fn mean_sample(s: Seq<Sample>) -> Sample {
    Sample {
        r: (sum_r(s) / s.len() as int) as i32,
        g: (sum_g(s) / s.len() as int) as i32,
        b: (sum_b(s) / s.len() as int) as i32,
        x: 0,
        y: 0,
    }
}

/// The mean of a non-empty valid sequence has valid channels.
pub proof fn lemma_mean_sample_valid(s: Seq<Sample>)
    requires
        s.len() >= 1,
        all_channels_valid(s),
    ensures
        channels_valid(mean_sample(s)),
        mean_sample(s).x == 0,
        mean_sample(s).y == 0,
{
    lemma_channel_sum_bounds(s);
    let n = s.len() as int;
    lemma_channel_mean_bound(sum_r(s), n);
    lemma_channel_mean_bound(sum_g(s), n);
    lemma_channel_mean_bound(sum_b(s), n);
}

/// A sum of `n` channel values between 0 and 255 has a mean between 0 and
/// 255.
proof fn lemma_channel_mean_bound(sum: int, n: int)
    requires
        n >= 1,
        0 <= sum <= 255 * n,
    ensures
        0 <= sum / n <= 255,
{
    vstd::arithmetic::div_mod::lemma_div_is_ordered(0, sum, n);
    vstd::arithmetic::div_mod::lemma_div_is_ordered(sum, 255 * n, n);
    vstd::arithmetic::div_mod::lemma_div_multiples_vanish(255, n);
}

/// The largest sample count one clustering run accepts; keeps every channel
/// sum far from the limits of the accumulator.
pub const MAX_SAMPLES: usize = 0x7fff_ffff;

/// The mean color of one non-empty selection, summing each channel in a wide
/// accumulator and dividing by the member count (rounding toward zero).
pub(crate) fn channel_means(sel: &Vec<Sample>) -> (m: Sample)
    requires
        1 <= sel@.len() <= MAX_SAMPLES,
        all_channels_valid(sel@),
    ensures
        m == mean_sample(sel@),
        channels_valid(m),
{
    let mut acc_r: u64 = 0;
    let mut acc_g: u64 = 0;
    let mut acc_b: u64 = 0;
    let mut j: usize = 0;
    while j < sel.len()
        invariant
            j <= sel@.len(),
            sel@.len() <= MAX_SAMPLES,
            all_channels_valid(sel@),
            acc_r == sum_r(sel@.take(j as int)),
            acc_g == sum_g(sel@.take(j as int)),
            acc_b == sum_b(sel@.take(j as int)),
            acc_r <= 255 * j,
            acc_g <= 255 * j,
            acc_b <= 255 * j,
        decreases sel@.len() - j,
    {
        proof {
            assert(sel@.take(j + 1).drop_last() =~= sel@.take(j as int));
            assert(sel@.take(j + 1).last() == sel@[j as int]);
        }
        acc_r = acc_r + sel[j].r as u64;
        acc_g = acc_g + sel[j].g as u64;
        acc_b = acc_b + sel[j].b as u64;
        j = j + 1;
    }
    proof {
        assert(sel@.take(sel@.len() as int) =~= sel@);
        lemma_channel_sum_bounds(sel@);
        lemma_mean_sample_valid(sel@);
    }
    let n = sel.len() as u64;
    Sample {
        r: (acc_r / n) as i32,
        g: (acc_g / n) as i32,
        b: (acc_b / n) as i32,
        x: 0,
        y: 0,
    }
}

/// Recompute each cluster's centroid as the arithmetic mean of its members'
/// channels. A cluster with no members keeps its previous centroid: that is
/// this engine's policy for the degenerate empty-cluster case, so the
/// update is defined for every input.
pub fn calculate_centers(selections: &Vec<Vec<Sample>>, previous: &Vec<Sample>) -> (centers: Vec<
    Sample,
>)
    requires
        selections@.len() == previous@.len(),
        forall|c: int|
            0 <= c < selections@.len() ==> (#[trigger] selections@[c])@.len() <= MAX_SAMPLES,
        forall|c: int| 0 <= c < selections@.len() ==> all_channels_valid((#[trigger] selections@[c])@),
        all_channels_valid(previous@),
    ensures
        centers@.len() == selections@.len(),
        forall|c: int|
            0 <= c < selections@.len() && (#[trigger] selections@[c])@.len() > 0 ==> centers@[c]
                == mean_sample(selections@[c]@),
        forall|c: int|
            0 <= c < selections@.len() && (#[trigger] selections@[c])@.len() == 0 ==> centers@[c]
                == previous@[c],
        all_channels_valid(centers@),
        (forall|c: int|
            0 <= c < previous@.len() ==> (#[trigger] previous@[c]).x == 0 && previous@[c].y == 0)
            ==> (forall|c: int|
            0 <= c < centers@.len() ==> (#[trigger] centers@[c]).x == 0 && centers@[c].y == 0),
{
    let mut centers: Vec<Sample> = Vec::new();
    let mut c: usize = 0;
    while c < selections.len()
        invariant
            c <= selections@.len(),
            centers@.len() == c,
            selections@.len() == previous@.len(),
            forall|d: int|
                0 <= d < selections@.len() ==> (#[trigger] selections@[d])@.len() <= MAX_SAMPLES,
            forall|d: int|
                0 <= d < selections@.len() ==> all_channels_valid((#[trigger] selections@[d])@),
            all_channels_valid(previous@),
            forall|d: int|
                0 <= d < c && (#[trigger] selections@[d])@.len() > 0 ==> centers@[d] == mean_sample(
                    selections@[d]@,
                ),
            forall|d: int|
                0 <= d < c && (#[trigger] selections@[d])@.len() == 0 ==> centers@[d]
                    == previous@[d],
            forall|d: int| 0 <= d < c ==> channels_valid(#[trigger] centers@[d]),
        decreases selections@.len() - c,
    {
        if selections[c].len() > 0 {
            let m = channel_means(&selections[c]);
            centers.push(m);
        } else {
            centers.push(previous[c]);
        }
        c = c + 1;
    }
    proof {
        if forall|d: int|
            0 <= d < previous@.len() ==> (#[trigger] previous@[d]).x == 0 && previous@[d].y
                == 0 {
            assert forall|d: int| 0 <= d < centers@.len() implies (#[trigger] centers@[d]).x == 0
                && centers@[d].y == 0 by {
                if selections@[d]@.len() > 0 {
                    assert(centers@[d] == mean_sample(selections@[d]@));
                } else {
                    assert(centers@[d] == previous@[d]);
                }
            }
        }
    }
    centers
}

/// One assignment-and-update pass: every center becomes the mean of the
/// samples nearest to it, and a center with no members is retained.
pub open spec fn step_spec(points: Seq<Sample>, centers: Seq<Sample>) -> Seq<Sample> {
    Seq::new(
        centers.len(),
        |c: int|
            {
                let m = cluster_members(points, centers, c);
                if m.len() > 0 {
                    mean_sample(m)
                } else {
                    centers[c]
                }
            },
    )
}

/// The centers after a fixed number of assignment-and-update passes. There
/// is no convergence check: the count alone ends the loop.
pub open spec fn refine_spec(points: Seq<Sample>, centers: Seq<Sample>, iterations: nat) -> Seq<
    Sample,
>
    decreases iterations,
{
    if iterations == 0 {
        centers
    } else {
        refine_spec(points, step_spec(points, centers), (iterations - 1) as nat)
    }
}

/// Exactly one refinement iteration is exactly one assignment-and-update
/// pass.
pub proof fn lemma_refine_single_pass(points: Seq<Sample>, centers: Seq<Sample>)
    ensures
        refine_spec(points, centers, 1) == step_spec(points, centers),
{
    reveal_with_fuel(refine_spec, 2);
}

/// Iterating once more applies one further pass to the result.
pub proof fn lemma_refine_spec_snoc(points: Seq<Sample>, centers: Seq<Sample>, iterations: nat)
    ensures
        refine_spec(points, centers, iterations + 1) == step_spec(
            points,
            refine_spec(points, centers, iterations),
        ),
    decreases iterations,
{
    reveal_with_fuel(refine_spec, 2);
    if iterations > 0 {
        lemma_refine_spec_snoc(points, step_spec(points, centers), (iterations - 1) as nat);
    }
}

/// Run `iterations` assignment-and-update passes from the given initial
/// centers. Returns the refined centers (the palette) and the assignment of
/// the final pass: for each sample, the cluster it belonged to when the
/// final means were taken.
pub fn refine(points: &Vec<Sample>, initial_centers: &Vec<Sample>, iterations: usize) -> (res: (
    Vec<Sample>,
    Vec<usize>,
))
    requires
        initial_centers@.len() >= 1,
        points@.len() <= MAX_SAMPLES,
        iterations >= 1,
        all_channels_valid(points@),
        all_channels_valid(initial_centers@),
    ensures
        res.0@.len() == initial_centers@.len(),
        res.0@ == refine_spec(points@, initial_centers@, iterations as nat),
        all_channels_valid(res.0@),
        res.1@.len() == points@.len(),
        forall|i: int|
            0 <= i < res.1@.len() ==> (#[trigger] res.1@[i]) as int == nearest_spec(
                refine_spec(points@, initial_centers@, (iterations - 1) as nat),
                points@[i],
            ),
        forall|i: int| 0 <= i < res.1@.len() ==> (#[trigger] res.1@[i]) < initial_centers@.len(),
        (forall|i: int|
            0 <= i < initial_centers@.len() ==> (#[trigger] initial_centers@[i]).x == 0
                && initial_centers@[i].y == 0) ==> (forall|i: int|
            0 <= i < res.0@.len() ==> (#[trigger] res.0@[i]).x == 0 && res.0@[i].y == 0),
{
    let mut centers: Vec<Sample> = Vec::new();
    let mut i: usize = 0;
    while i < initial_centers.len()
        invariant
            i <= initial_centers@.len(),
            centers@ == initial_centers@.take(i as int),
        decreases initial_centers@.len() - i,
    {
        centers.push(initial_centers[i]);
        i = i + 1;
    }
    proof {
        assert(initial_centers@.take(initial_centers@.len() as int) =~= initial_centers@);
    }
    let mut assignment: Vec<usize> = Vec::new();
    let mut it: usize = 0;
    while it < iterations
        invariant
            it <= iterations,
            points@.len() <= MAX_SAMPLES,
            initial_centers@.len() >= 1,
            all_channels_valid(points@),
            all_channels_valid(initial_centers@),
            centers@.len() == initial_centers@.len(),
            all_channels_valid(centers@),
            centers@ == refine_spec(points@, initial_centers@, it as nat),
            (forall|i: int|
                0 <= i < initial_centers@.len() ==> (#[trigger] initial_centers@[i]).x == 0
                    && initial_centers@[i].y == 0) ==> (forall|i: int|
                0 <= i < centers@.len() ==> (#[trigger] centers@[i]).x == 0 && centers@[i].y
                    == 0),
            it >= 1 ==> assignment@.len() == points@.len(),
            it >= 1 ==> forall|j: int|
                0 <= j < assignment@.len() ==> (#[trigger] assignment@[j]) as int == nearest_spec(
                    refine_spec(points@, initial_centers@, (it - 1) as nat),
                    points@[j],
                ),
            it >= 1 ==> forall|j: int|
                0 <= j < assignment@.len() ==> (#[trigger] assignment@[j])
                    < initial_centers@.len(),
        decreases iterations - it,
    {
        let ghost centers_before = centers@;
        assignment = assign(points, &centers);
        let sels = generate_selections(points, &centers);
        proof {
            assert forall|c: int| 0 <= c < sels@.len() implies (#[trigger] sels@[c])@.len()
                <= MAX_SAMPLES && all_channels_valid(sels@[c]@) by {
                lemma_members_upto_props(points@, centers_before, c, points@.len() as int);
            }
        }
        centers = calculate_centers(&sels, &centers);
        proof {
            assert forall|d: int| 0 <= d < centers@.len() implies centers@[d] == step_spec(
                points@,
                centers_before,
            )[d] by {
                assert(sels@[d]@ == cluster_members(points@, centers_before, d));
            }
            assert(centers@ =~= step_spec(points@, centers_before));
            lemma_refine_spec_snoc(points@, initial_centers@, it as nat);
        }
        it = it + 1;
    }
    (centers, assignment)
}

/// The centers are copies, positions cleared, of samples drawn from the
/// pool without replacement: some sequence of source samples, no more
/// numerous than their copies in the pool, gives the centers color for
/// color.
pub open spec fn seeded_from(centers: Seq<Sample>, samples: Seq<Sample>) -> bool {
    exists|raw: Seq<Sample>|
        {
            &&& raw.len() == centers.len()
            &&& #[trigger] raw.to_multiset().subset_of(samples.to_multiset())
            &&& forall|i: int| 0 <= i < centers.len() ==> centers[i] == zero_pos(raw[i])
        }
}

/// Choose `k` initial centroids uniformly at random from the sample pool,
/// without replacement. Works on a private copy of the pool: each draw is
/// uniform over the prefix of samples not yet drawn, and the drawn sample
/// is moved to the pool's tail, past the reach of later draws, so the pool
/// keeps its size and no copy is drawn twice.
pub fn seed_centers(samples: &Vec<Sample>, k: usize, rng: &mut rand::rngs::StdRng) -> (centers:
    Vec<Sample>)
    requires
        1 <= k < samples@.len(),
        all_channels_valid(samples@),
    ensures
        centers@.len() == k,
        all_channels_valid(centers@),
        forall|i: int|
            0 <= i < k ==> (#[trigger] centers@[i]).x == 0 && centers@[i].y == 0,
        seeded_from(centers@, samples@),
{
    broadcast use vstd::seq_lib::group_to_multiset_ensures;
    broadcast use vstd::multiset::group_multiset_axioms;

    let n = samples.len();
    let mut pool: Vec<Sample> = Vec::new();
    let mut i: usize = 0;
    while i < n
        invariant
            i <= n,
            n == samples@.len(),
            pool@ == samples@.take(i as int),
        decreases n - i,
    {
        pool.push(samples[i]);
        i = i + 1;
    }
    proof {
        assert(samples@.take(n as int) =~= samples@);
    }
    let mut centers: Vec<Sample> = Vec::new();
    let ghost mut raw: Seq<Sample> = Seq::empty();
    let mut drawn: usize = 0;
    while drawn < k
        invariant
            drawn <= k,
            1 <= k < n,
            n == samples@.len(),
            pool@.len() == n,
            pool@.to_multiset() == samples@.to_multiset(),
            raw.len() == drawn,
            pool@.subrange(n - drawn, n as int) == raw,
            centers@.len() == drawn,
            forall|j: int| 0 <= j < drawn ==> centers@[j] == zero_pos(raw[j]),
            all_channels_valid(samples@),
            all_channels_valid(centers@),
        decreases k - drawn,
    {
        let ghost old_pool = pool@;
        let ghost old_raw = raw;
        let sel = gen_index(rng, n - drawn);
        let picked = pool[sel];
        proof {
            assert(old_pool.contains(picked));
            vstd::seq_lib::to_multiset_contains::<Sample>(old_pool, picked);
            vstd::seq_lib::to_multiset_contains::<Sample>(samples@, picked);
            assert(samples@.contains(picked));
            let w = choose|w: int| 0 <= w < samples@.len() && samples@[w] == picked;
            assert(channels_valid(samples@[w]));
        }
        centers.push(Sample { r: picked.r, g: picked.g, b: picked.b, x: 0, y: 0 });
        let removed = pool.remove(sel);
        pool.push(removed);
        proof {
            broadcast use vstd::multiset::group_multiset_axioms;

            raw = old_raw.push(picked);
            assert(pool@ == old_pool.remove(sel as int).push(picked));
            vstd::seq_lib::to_multiset_remove::<Sample>(old_pool, sel as int);
            vstd::seq_lib::to_multiset_build::<Sample>(old_pool.remove(sel as int), picked);
            assert(pool@.to_multiset() =~= old_pool.to_multiset());
            assert forall|t: int| n - (drawn + 1) <= t < n implies pool@[t] == raw[t - (n - (
            drawn + 1))] by {
                if t < n - 1 {
                    assert(pool@[t] == old_pool[t + 1]);
                    assert(old_pool[t + 1] == old_raw[t + 1 - (n - drawn)]);
                }
            }
            assert(pool@.subrange(n - (drawn + 1), n as int) =~= raw);
        }
        drawn = drawn + 1;
    }
    proof {
        let rest = pool@.subrange(0, n - k);
        assert(pool@ =~= rest + raw);
        vstd::seq_lib::lemma_multiset_commutative(rest, raw);
        assert forall|s: Sample| raw.to_multiset().count(s) <= samples@.to_multiset().count(
            s,
        ) by {
            assert(samples@.to_multiset().count(s) == rest.to_multiset().count(s)
                + raw.to_multiset().count(s));
        }
        assert(raw.to_multiset().subset_of(samples@.to_multiset()));
    }
    centers
}

/// Partition the samples into `k` color clusters: seed `k` centroids at
/// random from the pool, then run the fixed number of refinement passes.
/// Returns the palette (the final centroids) and, for each sample, the
/// cluster it belonged to when the final centroid means were taken.
pub fn cluster(
    samples: &Vec<Sample>,
    k: usize,
    iterations: usize,
    rng: &mut rand::rngs::StdRng,
) -> (res: (Vec<Sample>, Vec<usize>))
    requires
        1 <= k < samples@.len(),
        samples@.len() <= MAX_SAMPLES,
        iterations >= 1,
        all_channels_valid(samples@),
    ensures
        res.0@.len() == k,
        all_channels_valid(res.0@),
        forall|i: int| 0 <= i < res.0@.len() ==> (#[trigger] res.0@[i]).x == 0 && res.0@[i].y == 0,
        res.1@.len() == samples@.len(),
        forall|i: int| 0 <= i < res.1@.len() ==> (#[trigger] res.1@[i]) < k,
        exists|c0: Seq<Sample>|
            {
                &&& c0.len() == k
                &&& #[trigger] seeded_from(c0, samples@)
                &&& res.0@ == refine_spec(samples@, c0, iterations as nat)
                &&& forall|i: int|
                    0 <= i < res.1@.len() ==> (#[trigger] res.1@[i]) as int == nearest_spec(
                        refine_spec(samples@, c0, (iterations - 1) as nat),
                        samples@[i],
                    )
            },
{
    let centers0 = seed_centers(samples, k, rng);
    let res = refine(samples, &centers0, iterations);
    proof {
        assert(seeded_from(centers0@, samples@));
    }
    res
}

/// Why a clustering request was rejected.
#[derive(Clone, Copy, PartialEq, Eq, Structural, Debug)]
pub enum ClusterError {
    /// Some sample's channel lies outside the 8-bit intensity range.
    InvalidSample,
    /// More samples than one run accepts.
    TooManySamples,
    /// The cluster count must satisfy `1 <= k < samples.len()`.
    InvalidK,
    /// At least one refinement pass is required.
    ZeroIterations,
}

/// Every element of the vector has valid 8-bit channels.
pub fn samples_all_valid(samples: &Vec<Sample>) -> (ok: bool)
    ensures
        ok == all_channels_valid(samples@),
{
    let mut i: usize = 0;
    while i < samples.len()
        invariant
            i <= samples@.len(),
            forall|j: int| 0 <= j < i ==> channels_valid(#[trigger] samples@[j]),
        decreases samples@.len() - i,
    {
        let s = samples[i];
        if s.r < 0 || s.r > 255 || s.g < 0 || s.g > 255 || s.b < 0 || s.b > 255 {
            return false;
        }
        i = i + 1;
    }
    true
}

/// `cluster` behind explicit checks: rejects bad input with a descriptive
/// error instead of demanding preconditions, and never clamps a bad cluster
/// count. Succeeds exactly when the samples are valid 8-bit colors, the
/// pool is not oversized, `1 <= k < samples.len()`, and `iterations >= 1`.
pub fn cluster_checked(
    samples: &Vec<Sample>,
    k: usize,
    iterations: usize,
    rng: &mut rand::rngs::StdRng,
) -> (res: Result<(Vec<Sample>, Vec<usize>), ClusterError>)
    ensures
        (res is Err && res->Err_0 == ClusterError::InvalidSample) <==> !all_channels_valid(
            samples@,
        ),
        (res is Err && res->Err_0 == ClusterError::TooManySamples) <==> (all_channels_valid(
            samples@,
        ) && samples@.len() > MAX_SAMPLES),
        (res is Err && res->Err_0 == ClusterError::InvalidK) <==> (all_channels_valid(samples@)
            && samples@.len() <= MAX_SAMPLES && !(1 <= k < samples@.len())),
        (res is Err && res->Err_0 == ClusterError::ZeroIterations) <==> (all_channels_valid(
            samples@,
        ) && samples@.len() <= MAX_SAMPLES && 1 <= k < samples@.len() && iterations == 0),
        res is Ok <==> (all_channels_valid(samples@) && samples@.len() <= MAX_SAMPLES && 1 <= k
            < samples@.len() && iterations >= 1),
        res is Ok ==> {
            &&& res->Ok_0.0@.len() == k
            &&& all_channels_valid(res->Ok_0.0@)
            &&& forall|i: int|
                0 <= i < res->Ok_0.0@.len() ==> (#[trigger] res->Ok_0.0@[i]).x == 0
                    && res->Ok_0.0@[i].y == 0
            &&& res->Ok_0.1@.len() == samples@.len()
            &&& forall|i: int| 0 <= i < res->Ok_0.1@.len() ==> (#[trigger] res->Ok_0.1@[i]) < k
            &&& exists|c0: Seq<Sample>|
                {
                    &&& c0.len() == k
                    &&& #[trigger] seeded_from(c0, samples@)
                    &&& res->Ok_0.0@ == refine_spec(samples@, c0, iterations as nat)
                    &&& forall|i: int|
                        0 <= i < res->Ok_0.1@.len() ==> (#[trigger] res->Ok_0.1@[i]) as int
                            == nearest_spec(
                            refine_spec(samples@, c0, (iterations - 1) as nat),
                            samples@[i],
                        )
                }
        },
{
    if !samples_all_valid(samples) {
        return Err(ClusterError::InvalidSample);
    }
    if samples.len() > MAX_SAMPLES {
        return Err(ClusterError::TooManySamples);
    }
    if k < 1 || k >= samples.len() {
        return Err(ClusterError::InvalidK);
    }
    if iterations == 0 {
        return Err(ClusterError::ZeroIterations);
    }
    Ok(cluster(samples, k, iterations, rng))
}

} // verus!
