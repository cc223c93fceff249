//! The order in which accent hues are picked.
//!
//! Picking happens in phases: a primary hue, then hues by score (kept apart by a
//! minimum angle), then hues near the hue center, and finally hues in the middle of
//! the largest gaps. How each candidate is found is asked of an [`AccentHuePicker`];
//! the contracts here say which answers of the picker the hues are made of.
use crate::cluster::ClusterError;
use vstd::prelude::*;
use vstd::std_specs::convert::FromSpecImpl;

verus! {

/// Errors raised while picking accent hues.
#[derive(Debug, PartialEq, Eq, Clone, Copy)]
#[non_exhaustive]
pub enum AccentHueBuilderError {
    /// No color profiles were supplied to the accent hue builder.
    EmptyInput,
    /// Clustering failed while preparing accent hue candidates.
    Cluster(ClusterError),
}

impl From<ClusterError> for AccentHueBuilderError {
    fn from(err: ClusterError) -> (r: Self) {
        AccentHueBuilderError::Cluster(err)
    }
}

impl FromSpecImpl<ClusterError> for AccentHueBuilderError {
    open spec fn obeys_from_spec() -> bool {
        true
    }

    open spec fn from_spec(v: ClusterError) -> Self {
        AccentHueBuilderError::Cluster(v)
    }
}

/// Where the candidates for accent hues come from.
///
/// `picked` is the list of hues picked so far, in the order they were picked.
pub trait AccentHuePicker<H> {
    /// The `i`-th of `n` hues spread evenly around the circle.
    fn evenly_spaced_hue(&self, i: usize, n: usize) -> H;

    /// The primary hue, near the hue center; `None` exactly when there are no colors to pick from.
    fn primary_hue(&self) -> Option<H>;

    /// The best scoring hue kept apart from the picked ones, if it is not squeezed between two of them.
    fn scorewise_hue(&self, picked: &[H]) -> Option<H>;

    /// The hue closest to the hue center that keeps the minimum angle to the picked ones.
    fn centerwise_hue(&self, picked: &[H]) -> Option<H>;

    /// The hue in the middle of the largest gap between the picked ones.
    fn largest_gap_hue(&self, picked: &[H]) -> H;
}

/// The picker answered `hue` as the `i`-th of `n` evenly spaced hues.
pub open spec fn answered_evenly<H, P: AccentHuePicker<H>>(picker: &P, i: usize, n: usize, hue: H) -> bool {
    call_ensures(P::evenly_spaced_hue, (picker, i, n), hue)
}

/// The picker answered `primary` as its primary hue.
pub open spec fn answered_primary<H, P: AccentHuePicker<H>>(picker: &P, primary: Option<H>) -> bool {
    call_ensures(P::primary_hue, (picker,), primary)
}

/// The picker answered `hue` as the hue by score after `picked`.
pub open spec fn answered_scorewise<H, P: AccentHuePicker<H>>(picker: &P, picked: Seq<H>, hue: Option<H>) -> bool {
    exists|s: &[H]| s@ == picked && #[trigger] call_ensures(P::scorewise_hue, (picker, s), hue)
}

/// The picker answered `hue` as the hue near the hue center after `picked`.
pub open spec fn answered_centerwise<H, P: AccentHuePicker<H>>(picker: &P, picked: Seq<H>, hue: Option<H>) -> bool {
    exists|s: &[H]| s@ == picked && #[trigger] call_ensures(P::centerwise_hue, (picker, s), hue)
}

/// The picker answered `hue` as the hue splitting the largest gap after `picked`.
pub open spec fn answered_largest_gap<H, P: AccentHuePicker<H>>(picker: &P, picked: Seq<H>, hue: H) -> bool {
    exists|s: &[H]| s@ == picked && #[trigger] call_ensures(P::largest_gap_hue, (picker, s), hue)
}

/// Hue `i` of `hues` is the picker's hue by score after the hues before it.
pub open spec fn by_score<H, P: AccentHuePicker<H>>(picker: &P, hues: Seq<H>, i: int) -> bool {
    answered_scorewise(picker, hues.take(i), Some(hues[i]))
}

/// Hue `i` of `hues` is the picker's hue near the hue center after the hues before it.
pub open spec fn by_center<H, P: AccentHuePicker<H>>(picker: &P, hues: Seq<H>, i: int) -> bool {
    answered_centerwise(picker, hues.take(i), Some(hues[i]))
}

/// Hue `i` of `hues` is the picker's hue splitting the largest gap between the hues before it.
pub open spec fn by_gap<H, P: AccentHuePicker<H>>(picker: &P, hues: Seq<H>, i: int) -> bool {
    answered_largest_gap(picker, hues.take(i), hues[i])
}

/// After the primary hue `hues[0]`, the hues were picked in three phases: by score up to
/// `k1`, near the hue center up to `k2`, and by the largest gaps after that. A phase ends
/// early only when its picker answered `None`; the last one fills up to `n_hues`.
pub open spec fn phases_at<H, P: AccentHuePicker<H>>(picker: &P, n_hues: nat, hues: Seq<H>, k1: int, k2: int) -> bool {
    &&& 1 <= k1 <= k2 <= hues.len()
    &&& forall|i: int| 1 <= i < k1 ==> #[trigger] by_score(picker, hues, i)
    &&& k1 < n_hues ==> answered_scorewise(picker, hues.take(k1), None)
    &&& forall|i: int| k1 <= i < k2 ==> #[trigger] by_center(picker, hues, i)
    &&& k2 < n_hues ==> answered_centerwise(picker, hues.take(k2), None)
    &&& forall|i: int| k2 <= i < hues.len() ==> #[trigger] by_gap(picker, hues, i)
}

/// The hues after the primary one were picked in the three phases, ending at some `k1` and `k2`.
pub open spec fn picked_in_phases<H, P: AccentHuePicker<H>>(picker: &P, n_hues: nat, hues: Seq<H>) -> bool {
    exists|k1: int, k2: int| #[trigger] phases_at(picker, n_hues, hues, k1, k2)
}

/// `hues` is what generating `n_hues` accent hues gives for the answers of `picker`:
/// without a primary hue (no colors) the `n_hues` evenly spaced hues; otherwise the primary
/// hue first, then the phases, `n_hues` hues in all (one when none were asked for).
pub open spec fn generated_by<H, P: AccentHuePicker<H>>(picker: &P, n_hues: nat, hues: Seq<H>) -> bool {
    exists|primary: Option<H>|
        #[trigger] answered_primary(picker, primary) && match primary {
            None => hues.len() == n_hues && forall|i: int|
                0 <= i < n_hues ==> #[trigger] answered_evenly(picker, i as usize, n_hues as usize, hues[i]),
            Some(h) => {
                &&& hues.len() == if n_hues == 0 { 1 } else { n_hues }
                &&& hues[0] == h
                &&& picked_in_phases(picker, n_hues, hues)
            },
        }
}

/// When the picker has no primary hue, the hues generated are its `n_hues` evenly spaced
/// hues, the `i`-th at position `i`.
pub proof fn lemma_generate_without_primary<H, P: AccentHuePicker<H>>(picker: &P, n_hues: nat, hues: Seq<H>)
    requires
        generated_by(picker, n_hues, hues),
        forall|o: Option<H>| #[trigger] answered_primary(picker, o) ==> o is None,
    ensures
        hues.len() == n_hues,
        forall|i: int| 0 <= i < n_hues ==> #[trigger] answered_evenly(picker, i as usize, n_hues as usize, hues[i]),
{
}

/// When the picker's primary hue is `p`, the hues generated start with `p`; the next one,
/// if more than one is asked for, is the picker's hue by score after `[p]` when it gives
/// one, else its hue near the hue center after `[p]` when it gives one, else the hue
/// splitting the largest gap after `[p]`.
pub proof fn lemma_generate_second_hue<H, P: AccentHuePicker<H>>(
    picker: &P,
    n_hues: nat,
    hues: Seq<H>,
    p: H,
    start: Seq<H>,
)
    requires
        generated_by(picker, n_hues, hues),
        forall|o: Option<H>| #[trigger] answered_primary(picker, o) ==> o == Some(p),
        start == seq![p],
        forall|o1: Option<H>, o2: Option<H>|
            #[trigger] answered_scorewise(picker, start, o1) && #[trigger] answered_scorewise(picker, start, o2)
                ==> o1 == o2,
        forall|o1: Option<H>, o2: Option<H>|
            #[trigger] answered_centerwise(picker, start, o1) && #[trigger] answered_centerwise(picker, start, o2)
                ==> o1 == o2,
    ensures
        hues.len() >= 1,
        hues[0] == p,
        n_hues >= 2 ==> forall|h: H| #[trigger] answered_scorewise(picker, start, Some(h)) ==> hues[1] == h,
        n_hues >= 2 && answered_scorewise(picker, start, None) ==> forall|h: H|
            #[trigger] answered_centerwise(picker, start, Some(h)) ==> hues[1] == h,
        n_hues >= 2 && answered_scorewise(picker, start, None) && answered_centerwise(picker, start, None)
            ==> answered_largest_gap(picker, start, hues[1]),
{
    let primary = choose|primary: Option<H>|
        #[trigger] answered_primary(picker, primary) && match primary {
            None => hues.len() == n_hues && forall|i: int|
                0 <= i < n_hues ==> #[trigger] answered_evenly(picker, i as usize, n_hues as usize, hues[i]),
            Some(h) => {
                &&& hues.len() == if n_hues == 0 { 1 } else { n_hues }
                &&& hues[0] == h
                &&& picked_in_phases(picker, n_hues, hues)
            },
        };
    assert(primary == Some(p));
    assert(picked_in_phases(picker, n_hues, hues));
    if n_hues >= 2 {
        let (k1, k2) = choose|k1: int, k2: int| phases_at(picker, n_hues, hues, k1, k2);
        assert(hues.take(1) =~= start);
        if k1 >= 2 {
            assert(by_score(picker, hues, 1));
            assert(answered_scorewise(picker, start, Some(hues[1])));
        } else {
            assert(answered_scorewise(picker, start, None));
            if k2 >= 2 {
                assert(by_center(picker, hues, 1));
                assert(answered_centerwise(picker, start, Some(hues[1])));
            } else {
                assert(answered_centerwise(picker, start, None));
                assert(by_gap(picker, hues, 1));
            }
        }
    }
}

/// Generates `n_hues` accent hues.
///
/// Without colors the hues are spread evenly. Otherwise the primary hue comes first,
/// followed by hues by score while they can be placed, then hues near the hue center
/// while they fit, then hues splitting the largest gaps. With colors at least the
/// primary hue is returned, so asking for none gives one. Generating always succeeds.
pub fn generate<H: Copy, P: AccentHuePicker<H>>(picker: &P, n_hues: usize) -> (r: Result<
    Vec<H>,
    AccentHueBuilderError,
>)
    ensures
        r is Ok,
        r matches Ok(hues) ==> generated_by(picker, n_hues as nat, hues@),
{
    let primary = match picker.primary_hue() {
        Some(h) => h,
        None => {
            let mut hues: Vec<H> = Vec::new();
            let mut i: usize = 0;
            while i < n_hues
                invariant
                    i <= n_hues,
                    hues.len() == i,
                    forall|k: int| 0 <= k < i ==> #[trigger] answered_evenly(picker, k as usize, n_hues, hues@[k]),
                decreases n_hues - i,
            {
                let h = picker.evenly_spaced_hue(i, n_hues);
                hues.push(h);
                proof {
                    assert(answered_evenly(picker, i, n_hues, hues@[i as int]));
                }
                i += 1;
            }
            proof {
                assert(answered_primary(picker, None::<H>));
            }
            return Ok(hues);
        },
    };
    let ghost answer = Some(primary);
    proof {
        assert(answered_primary(picker, answer));
    }
    let mut hues: Vec<H> = Vec::new();
    hues.push(primary);
    // Hues by score
    let mut placing: bool = true;
    while placing && hues.len() < n_hues
        invariant
            1 <= hues.len() <= if n_hues >= 1 { n_hues as int } else { 1 },
            hues@[0] == primary,
            forall|i: int| 1 <= i < hues.len() ==> #[trigger] by_score(picker, hues@, i),
            !placing ==> answered_scorewise(picker, hues@, None),
        decreases n_hues - hues.len(), (if placing { 1int } else { 0int }),
    {
        let picked = hues.as_slice();
        let next = picker.scorewise_hue(picked);
        match next {
            Some(h) => {
                let ghost before = hues@;
                hues.push(h);
                proof {
                    assert(before =~= hues@.take(before.len() as int));
                    assert forall|i: int| 1 <= i < hues.len() implies #[trigger] by_score(picker, hues@, i) by {
                        if i < before.len() {
                            assert(by_score(picker, before, i));
                            assert(before.take(i) =~= hues@.take(i));
                        }
                    }
                }
            },
            None => {
                placing = false;
            },
        }
    }
    let ghost k1: int = hues.len() as int;
    let ghost after_score = hues@;
    // Hues closest to the hue center
    placing = true;
    while placing && hues.len() < n_hues
        invariant
            1 <= k1 <= hues.len() <= if n_hues >= 1 { n_hues as int } else { 1 },
            hues@.take(k1) == after_score,
            hues@[0] == primary,
            forall|i: int| 1 <= i < k1 ==> #[trigger] by_score(picker, hues@, i),
            forall|i: int| k1 <= i < hues.len() ==> #[trigger] by_center(picker, hues@, i),
            !placing ==> answered_centerwise(picker, hues@, None),
        decreases n_hues - hues.len(), (if placing { 1int } else { 0int }),
    {
        let picked = hues.as_slice();
        let next = picker.centerwise_hue(picked);
        match next {
            Some(h) => {
                let ghost before = hues@;
                hues.push(h);
                proof {
                    assert(before =~= hues@.take(before.len() as int));
                    assert(hues@.take(k1) =~= before.take(k1));
                    assert forall|i: int| 1 <= i < k1 implies #[trigger] by_score(picker, hues@, i) by {
                        assert(by_score(picker, before, i));
                        assert(before.take(i) =~= hues@.take(i));
                    }
                    assert forall|i: int| k1 <= i < hues.len() implies #[trigger] by_center(picker, hues@, i) by {
                        if i < before.len() {
                            assert(by_center(picker, before, i));
                            assert(before.take(i) =~= hues@.take(i));
                        }
                    }
                }
            },
            None => {
                placing = false;
            },
        }
    }
    let ghost k2: int = hues.len() as int;
    let ghost after_center = hues@;
    // Hues splitting the largest gaps
    while hues.len() < n_hues
        invariant
            1 <= k1 <= k2 <= hues.len() <= if n_hues >= 1 { n_hues as int } else { 1 },
            hues@.take(k1) == after_score,
            hues@.take(k2) == after_center,
            hues@[0] == primary,
            forall|i: int| 1 <= i < k1 ==> #[trigger] by_score(picker, hues@, i),
            forall|i: int| k1 <= i < k2 ==> #[trigger] by_center(picker, hues@, i),
            forall|i: int| k2 <= i < hues.len() ==> #[trigger] by_gap(picker, hues@, i),
        decreases n_hues - hues.len(),
    {
        let picked = hues.as_slice();
        let h = picker.largest_gap_hue(picked);
        let ghost before = hues@;
        hues.push(h);
        proof {
            assert(before =~= hues@.take(before.len() as int));
            assert(hues@.take(k1) =~= before.take(k1));
            assert(hues@.take(k2) =~= before.take(k2));
            assert forall|i: int| 1 <= i < k1 implies #[trigger] by_score(picker, hues@, i) by {
                assert(by_score(picker, before, i));
                assert(before.take(i) =~= hues@.take(i));
            }
            assert forall|i: int| k1 <= i < k2 implies #[trigger] by_center(picker, hues@, i) by {
                assert(by_center(picker, before, i));
                assert(before.take(i) =~= hues@.take(i));
            }
            assert forall|i: int| k2 <= i < hues.len() implies #[trigger] by_gap(picker, hues@, i) by {
                if i < before.len() {
                    assert(by_gap(picker, before, i));
                    assert(before.take(i) =~= hues@.take(i));
                }
            }
        }
    }
    proof {
        if k1 < n_hues {
            assert(answered_scorewise(picker, after_score, None));
        }
        if k2 < n_hues {
            assert(answered_centerwise(picker, after_center, None));
        }
        assert(phases_at(picker, n_hues as nat, hues@, k1, k2));
        assert(picked_in_phases(picker, n_hues as nat, hues@));
    }
    Ok(hues)
}

} // verus!
