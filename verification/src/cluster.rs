//! Agglomerative clustering of color profiles.
//!
//! The merging follows the generic clustering algorithm of Müllner (2011),
//! "Modern hierarchical, agglomerative clustering algorithms", with a
//! nearest-neighbour candidate per cluster and a priority queue of candidates.
//! A cluster is the list of the input positions it holds, in merge order; how
//! dissimilar two clusters are is asked of a [`Linkage`].
use vstd::multiset::Multiset;
use vstd::prelude::*;

verus! {

/// Errors raised while clustering.
#[derive(Debug, PartialEq, Eq, Clone, Copy)]
pub enum ClusterError {
    /// The merge order broke down: two inputs were merged into the only remaining cluster.
    InternalError,
}

/// What the clustering asks of the colors being clustered.
///
/// Clusters are given as the input positions of their members, in merge order.
pub trait Linkage {
    /// A key that orders dissimilarities: a smaller key means more similar clusters.
    fn dissimilarity_key(&self, left: &[usize], right: &[usize]) -> u64;

    /// Whether the two clusters are too dissimilar to be merged.
    fn exceeds_merge_threshold(&self, left: &[usize], right: &[usize]) -> bool;
}

/// The members of all clusters of `clusters`, counted with multiplicity.
pub open spec fn all_members(clusters: Seq<Vec<usize>>) -> Multiset<usize>
    decreases clusters.len(),
{
    if clusters.len() == 0 {
        Multiset::empty()
    } else {
        all_members(clusters.drop_last()).add(clusters.last()@.to_multiset())
    }
}

/// The clusters are a partition of the input positions `0..n`: every position
/// below `n` is held exactly once, and nothing else is held.
pub open spec fn is_partition_of(clusters: Seq<Vec<usize>>, n: nat) -> bool {
    forall|x: usize| #[trigger] all_members(clusters).count(x) == (if x < n { 1nat } else { 0nat })
}

/// The linkage answered `key` for the clusters `left` and `right`, in that order.
pub open spec fn answered_key<L: Linkage>(linkage: &L, left: Seq<usize>, right: Seq<usize>, key: u64) -> bool {
    exists|l: &[usize], r: &[usize]|
        l@ == left && r@ == right && #[trigger] call_ensures(L::dissimilarity_key, (linkage, l, r), key)
}

/// The linkage answered `key` for `subject` and `other`, with the subject first when `subject_first`.
pub open spec fn answered_toward<L: Linkage>(
    linkage: &L,
    subject: Seq<usize>,
    other: Seq<usize>,
    subject_first: bool,
    key: u64,
) -> bool {
    if subject_first {
        answered_key(linkage, subject, other, key)
    } else {
        answered_key(linkage, other, subject, key)
    }
}

/// The linkage answered `key` for the clusters `x` and `y`, in either order.
pub open spec fn answered_pair_key<L: Linkage>(linkage: &L, x: Seq<usize>, y: Seq<usize>, key: u64) -> bool {
    answered_key(linkage, x, y, key) || answered_key(linkage, y, x, key)
}

/// The linkage answered `exceeds` when asked whether merging `left` with `right` exceeds the threshold.
pub open spec fn answered_exceeds<L: Linkage>(linkage: &L, left: Seq<usize>, right: Seq<usize>, exceeds: bool) -> bool {
    exists|l: &[usize], r: &[usize]|
        l@ == left && r@ == right && #[trigger] call_ensures(
            L::exceeds_merge_threshold,
            (linkage, l, r),
            exceeds,
        )
}

/// The members of each cluster of `clusters`.
pub open spec fn member_lists(clusters: Seq<Vec<usize>>) -> Seq<Seq<usize>> {
    clusters.map_values(|c: Vec<usize>| c@)
}

/// The linkage answered, for the clusters `x` and `y` in either order, a key no smaller than `key`.
pub open spec fn pair_key_at_least<L: Linkage>(linkage: &L, x: Seq<usize>, y: Seq<usize>, key: u64) -> bool {
    exists|k: u64| key <= k && #[trigger] answered_pair_key(linkage, x, y, k)
}

/// Among the clusters `present`, `present[i]` and `present[j]` are a least-key pair: the
/// linkage answered `key` for them, and for every two of the clusters a key no smaller.
pub open spec fn least_key_pair<L: Linkage>(
    linkage: &L,
    present: Seq<Seq<usize>>,
    i: int,
    j: int,
    key: u64,
) -> bool {
    &&& 0 <= i < present.len()
    &&& 0 <= j < present.len()
    &&& i != j
    &&& answered_pair_key(linkage, present[i], present[j], key)
    &&& forall|m1: int, m2: int|
        0 <= m1 < present.len() && 0 <= m2 < present.len() && m1 != m2 ==> #[trigger] pair_key_at_least(
            linkage,
            present[m1],
            present[m2],
            key,
        )
}

/// The members of the clusters `present`, counted with multiplicity.
pub open spec fn member_count(present: Seq<Seq<usize>>) -> Multiset<usize>
    decreases present.len(),
{
    if present.len() == 0 {
        Multiset::empty()
    } else {
        member_count(present.drop_last()).add(present.last().to_multiset())
    }
}

/// The clusters `present` hold every input below `n` exactly once, and nothing else.
pub open spec fn covers_inputs(present: Seq<Seq<usize>>, n: nat) -> bool {
    forall|x: usize| #[trigger] member_count(present).count(x) == (if x < n { 1nat } else { 0nat })
}

/// Cluster `i` of `history` is the merge of two earlier clusters, the first listed first,
/// that the linkage allowed to merge and that were a least-key pair among the
/// clusters `present` at that moment: earlier clusters of `history` that together hold
/// every input below `n` exactly once.
pub open spec fn is_allowed_merge<L: Linkage>(
    linkage: &L,
    n: nat,
    history: Seq<Seq<usize>>,
    present: Seq<Seq<usize>>,
    i: int,
) -> bool {
    &&& covers_inputs(present, n)
    &&& forall|m: int| 0 <= m < present.len() ==> history.take(i).contains(#[trigger] present[m])
    &&& exists|a: int, b: int, p: int, q: int, key: u64|
        0 <= a < i && 0 <= b < i && a != b && history[i] == history[a] + history[b]
            && #[trigger] answered_exceeds(linkage, history[a], history[b], false)
            && present[p] == history[a] && present[q] == history[b]
            && #[trigger] least_key_pair(linkage, present, p, q, key)
}

/// `history` starts with the single inputs `0..n`, and every later cluster is an allowed
/// merge, made among the clusters `presents[i]`.
pub open spec fn built_by_allowed_merges<L: Linkage>(
    linkage: &L,
    n: nat,
    history: Seq<Seq<usize>>,
    presents: Seq<Seq<Seq<usize>>>,
) -> bool {
    &&& history.len() >= n
    &&& presents.len() == history.len()
    &&& forall|i: int| 0 <= i < n ==> #[trigger] history[i] == seq![i as usize]
    &&& forall|i: int| n <= i < history.len() ==> #[trigger] is_allowed_merge(linkage, n, history, presents[i], i)
}

/// Every cluster of `clusters` was built from the inputs `0..n` by merges the linkage allowed,
/// each of a least-key pair.
pub open spec fn built_from_inputs<L: Linkage>(linkage: &L, n: nat, clusters: Seq<Vec<usize>>) -> bool {
    exists|history: Seq<Seq<usize>>, presents: Seq<Seq<Seq<usize>>>|
        #[trigger] built_by_allowed_merges(linkage, n, history, presents) && forall|i: int|
            0 <= i < clusters.len() ==> history.contains(#[trigger] clusters[i]@)
}

/// Clustering stopped at the threshold: the least-key pair `clusters[i]`,
/// `clusters[j]` was judged too dissimilar to merge.
pub open spec fn stopped_at_threshold<L: Linkage>(linkage: &L, clusters: Seq<Vec<usize>>) -> bool {
    exists|i: int, j: int, key: u64|
        #[trigger] least_key_pair(linkage, member_lists(clusters), i, j, key)
            && answered_exceeds(linkage, clusters[i]@, clusters[j]@, true)
}


/// Every candidate in the queue carries a key that the linkage answered for its cluster
/// and that cluster's nearest neighbour.
spec fn candidates_answered<L: Linkage>(
    linkage: &L,
    clusters: Seq<Vec<usize>>,
    nearest: Seq<usize>,
    queue: Seq<Option<u64>>,
) -> bool {
    forall|k: int|
        1 <= k < queue.len() && #[trigger] queue[k] is Some ==> answered_pair_key(
            linkage,
            clusters[k]@,
            clusters[nearest[k - 1] as int]@,
            queue[k]->0,
        )
}

/// For every active cluster `y` below `x`, the linkage answered a key for `x` and `y` no
/// smaller than `key`.
spec fn bounded_below<L: Linkage>(
    linkage: &L,
    clusters: Seq<Vec<usize>>,
    active: Seq<usize>,
    x: usize,
    key: u64,
) -> bool {
    forall|y: usize|
        active.contains(y) && y < x ==> #[trigger] pair_key_at_least(
            linkage,
            clusters[x as int]@,
            clusters[y as int]@,
            key,
        )
}

/// The key of every candidate in the queue bounds the keys of its cluster toward the
/// active clusters below it.
spec fn queue_bounded<L: Linkage>(
    linkage: &L,
    clusters: Seq<Vec<usize>>,
    active: Seq<usize>,
    queue: Seq<Option<u64>>,
) -> bool {
    forall|k: int|
        1 <= k < queue.len() && #[trigger] queue[k] is Some ==> bounded_below(
            linkage,
            clusters,
            active,
            k as usize,
            queue[k]->0,
        )
}

/// A nearest cluster below `limit` bounds the keys of `subject` toward every active cluster below `limit`.
proof fn lemma_bound_from_nearest<L: Linkage>(
    linkage: &L,
    clusters: Seq<Vec<usize>>,
    active: Seq<usize>,
    subject: Seq<usize>,
    subject_first: bool,
    limit: usize,
    x: usize,
    least: u64,
)
    requires
        is_first_least(linkage, clusters, active, subject, subject_first, limit, x, least),
    ensures
        forall|y: usize|
            active.contains(y) && y < limit ==> #[trigger] pair_key_at_least(
                linkage,
                subject,
                clusters[y as int]@,
                least,
            ),
{
    assert forall|y: usize| active.contains(y) && y < limit implies #[trigger] pair_key_at_least(
        linkage,
        subject,
        clusters[y as int]@,
        least,
    ) by {
        let j = choose|j: int| 0 <= j < active.len() && active[j] == y;
        assert(toward_at_least(linkage, subject, clusters[active[j] as int]@, subject_first, least, active[j] < x));
        let k = choose|k: u64|
            least <= k && (active[j] < x ==> least < k) && #[trigger] answered_toward(
                linkage,
                subject,
                clusters[active[j] as int]@,
                subject_first,
                k,
            );
        assert(answered_pair_key(linkage, subject, clusters[y as int]@, k));
    }
}

/// A bound toward the active clusters below `x` survives removing active clusters and
/// appending clusters.
proof fn lemma_bounded_transfer<L: Linkage>(
    linkage: &L,
    c1: Seq<Vec<usize>>,
    a1: Seq<usize>,
    c2: Seq<Vec<usize>>,
    a2: Seq<usize>,
    x: usize,
    key: u64,
)
    requires
        bounded_below(linkage, c1, a1, x, key),
        x < c1.len() <= c2.len(),
        forall|k: int| 0 <= k < c1.len() ==> c2[k] == c1[k],
        forall|y: usize| a2.contains(y) && y < x ==> a1.contains(y),
    ensures
        bounded_below(linkage, c2, a2, x, key),
{
    assert forall|y: usize| a2.contains(y) && y < x implies #[trigger] pair_key_at_least(
        linkage,
        c2[x as int]@,
        c2[y as int]@,
        key,
    ) by {
        assert(pair_key_at_least(linkage, c1[x as int]@, c1[y as int]@, key));
        assert(c2[x as int] == c1[x as int]);
        assert(c2[y as int] == c1[y as int]);
    }
}

/// The member lists of the active clusters count the members that `gathered` counts.
proof fn lemma_member_count_active(clusters: Seq<Vec<usize>>, active: Seq<usize>)
    requires
        forall|i: int| 0 <= i < active.len() ==> active[i] < clusters.len(),
    ensures
        member_count(Seq::new(active.len() as nat, |m: int| clusters[active[m] as int]@)) == gathered(
            clusters,
            active,
        ),
    decreases active.len(),
{
    if active.len() > 0 {
        let shorter = active.drop_last();
        lemma_member_count_active(clusters, shorter);
        let lists = Seq::new(active.len() as nat, |m: int| clusters[active[m] as int]@);
        assert(lists.drop_last() =~= Seq::new(shorter.len() as nat, |m: int| clusters[shorter[m] as int]@));
    }
}

/// Appending an allowed merge of a least-key pair keeps a history built by such merges.
proof fn lemma_history_push<L: Linkage>(
    linkage: &L,
    n: nat,
    history: Seq<Seq<usize>>,
    presents: Seq<Seq<Seq<usize>>>,
    present: Seq<Seq<usize>>,
    a: int,
    b: int,
    p: int,
    q: int,
    key: u64,
)
    requires
        built_by_allowed_merges(linkage, n, history, presents),
        0 <= a < history.len(),
        0 <= b < history.len(),
        a != b,
        answered_exceeds(linkage, history[a], history[b], false),
        forall|m: int| 0 <= m < present.len() ==> history.contains(#[trigger] present[m]),
        least_key_pair(linkage, present, p, q, key),
        present[p] == history[a],
        present[q] == history[b],
        covers_inputs(present, n),
    ensures
        built_by_allowed_merges(linkage, n, history.push(history[a] + history[b]), presents.push(present)),
{
    let grown = history.push(history[a] + history[b]);
    let grown_presents = presents.push(present);
    assert forall|i: int| 0 <= i < n implies #[trigger] grown[i] == seq![i as usize] by {
        assert(history[i] == seq![i as usize]);
    }
    assert forall|i: int| n <= i < grown.len() implies #[trigger] is_allowed_merge(
        linkage,
        n,
        grown,
        grown_presents[i],
        i,
    ) by {
        if i < history.len() {
            assert(is_allowed_merge(linkage, n, history, presents[i], i));
            assert(grown.take(i) =~= history.take(i));
            assert(grown_presents[i] == presents[i]);
            let (x, y, px, qy, k) = choose|x: int, y: int, px: int, qy: int, k: u64|
                0 <= x < i && 0 <= y < i && x != y && history[i] == history[x] + history[y]
                    && #[trigger] answered_exceeds(linkage, history[x], history[y], false)
                    && presents[i][px] == history[x] && presents[i][qy] == history[y]
                    && #[trigger] least_key_pair(linkage, presents[i], px, qy, k);
            assert(grown[x] == history[x] && grown[y] == history[y] && grown[i] == history[i]);
        } else {
            assert(grown.take(i) =~= history);
            assert(grown_presents[i] == present);
            assert(grown[a] == history[a] && grown[b] == history[b]);
        }
    }
}

/// The members of the clusters named by `active`, counted with multiplicity.
spec fn gathered(clusters: Seq<Vec<usize>>, active: Seq<usize>) -> Multiset<usize>
    decreases active.len(),
{
    if active.len() == 0 {
        Multiset::empty()
    } else {
        gathered(clusters, active.drop_last()).add(
            clusters[active.last() as int]@.to_multiset(),
        )
    }
}

/// Merging two clusters lists the members of the first, then those of the second.
pub fn merge(left: &Vec<usize>, right: &Vec<usize>) -> (merged: Vec<usize>)
    ensures
        merged@ == left@ + right@,
{
    let mut merged: Vec<usize> = Vec::new();
    let mut i: usize = 0;
    while i < left.len()
        invariant
            i <= left.len(),
            merged@ == left@.take(i as int),
        decreases left.len() - i,
    {
        merged.push(left[i]);
        i += 1;
        assert(merged@ =~= left@.take(i as int));
    }
    let mut j: usize = 0;
    while j < right.len()
        invariant
            j <= right.len(),
            merged@ == left@ + right@.take(j as int),
        decreases right.len() - j,
    {
        merged.push(right[j]);
        j += 1;
        assert(merged@ =~= left@ + right@.take(j as int));
    }
    assert(left@.take(left@.len() as int) =~= left@);
    assert(right@.take(right@.len() as int) =~= right@);
    merged
}

/// Whether cluster `i` has a candidate in the queue whose nearest neighbour is no longer active.
spec fn is_stale(queue: Seq<Option<u64>>, nearest: Seq<usize>, active: Seq<usize>, i: int) -> bool {
    1 <= i && i < queue.len() && queue[i] is Some && !active.contains(nearest[i - 1])
}

/// The number of stale candidates among the first `k` queue slots.
spec fn stale_count(queue: Seq<Option<u64>>, nearest: Seq<usize>, active: Seq<usize>, k: int) -> nat
    decreases k,
{
    if k <= 0 {
        0
    } else {
        stale_count(queue, nearest, active, k - 1) + (if is_stale(queue, nearest, active, k - 1) {
            1nat
        } else {
            0nat
        })
    }
}

/// Changing the queue or the neighbours at one slot `j` changes the stale count only there.
proof fn lemma_stale_count_point_change(
    q1: Seq<Option<u64>>,
    n1: Seq<usize>,
    q2: Seq<Option<u64>>,
    n2: Seq<usize>,
    active: Seq<usize>,
    j: int,
    k: int,
)
    requires
        0 <= j < k,
        forall|i: int| 0 <= i < k && i != j ==> is_stale(q1, n1, active, i) == is_stale(q2, n2, active, i),
    ensures
        stale_count(q2, n2, active, k) + (if is_stale(q1, n1, active, j) { 1int } else { 0int })
            == stale_count(q1, n1, active, k) + (if is_stale(q2, n2, active, j) { 1int } else { 0int }),
    decreases k,
{
    if k - 1 > j {
        lemma_stale_count_point_change(q1, n1, q2, n2, active, j, k - 1);
    } else {
        lemma_stale_count_same(q1, n1, q2, n2, active, k - 1);
    }
}

/// Slot-wise equal staleness gives equal stale counts.
proof fn lemma_stale_count_same(
    q1: Seq<Option<u64>>,
    n1: Seq<usize>,
    q2: Seq<Option<u64>>,
    n2: Seq<usize>,
    active: Seq<usize>,
    k: int,
)
    requires
        forall|i: int| 0 <= i < k ==> is_stale(q1, n1, active, i) == is_stale(q2, n2, active, i),
    ensures
        stale_count(q2, n2, active, k) == stale_count(q1, n1, active, k),
    decreases k,
{
    if k > 0 {
        lemma_stale_count_same(q1, n1, q2, n2, active, k - 1);
    }
}

/// Naming one more active cluster adds its members.
proof fn lemma_gathered_push(clusters: Seq<Vec<usize>>, active: Seq<usize>, p: usize)
    ensures
        gathered(clusters, active.push(p)) == gathered(clusters, active).add(
            clusters[p as int]@.to_multiset(),
        ),
{
    assert(active.push(p).drop_last() =~= active);
}

/// Adding a cluster does not change the members of the clusters already named.
proof fn lemma_gathered_extend(clusters: Seq<Vec<usize>>, c: Vec<usize>, active: Seq<usize>)
    requires
        forall|i: int| 0 <= i < active.len() ==> active[i] < clusters.len(),
    ensures
        gathered(clusters.push(c), active) == gathered(clusters, active),
    decreases active.len(),
{
    if active.len() > 0 {
        lemma_gathered_extend(clusters, c, active.drop_last());
    }
}

/// Whether `x` is one of the active cluster indices.
fn is_active(active: &Vec<usize>, x: usize) -> (r: bool)
    ensures
        r == active@.contains(x),
{
    let mut i: usize = 0;
    while i < active.len()
        invariant
            i <= active.len(),
            forall|j: int| 0 <= j < i ==> active@[j] != x,
        decreases active.len() - i,
    {
        if active[i] == x {
            return true;
        }
        i += 1;
    }
    false
}

/// Takes out of the queue the candidate with the smallest key (the first such one).
fn pop_nearest(queue: &mut Vec<Option<u64>>) -> (a: usize)
    requires
        exists|i: int| 0 <= i < old(queue).len() && old(queue)@[i] is Some,
    ensures
        a < old(queue).len(),
        old(queue)@[a as int] is Some,
        final(queue)@ == old(queue)@.update(a as int, None),
        forall|i: int|
            0 <= i < old(queue).len() && old(queue)@[i] is Some ==> old(queue)@[a as int]->0
                <= old(queue)@[i]->0,
        forall|i: int|
            0 <= i < a && old(queue)@[i] is Some ==> old(queue)@[a as int]->0 < old(queue)@[i]->0,
{
    let mut best: Option<(usize, u64)> = None;
    let mut i: usize = 0;
    while i < queue.len()
        invariant
            i <= queue.len(),
            queue@ == old(queue)@,
            match best {
                None => forall|j: int| 0 <= j < i ==> queue@[j] is None,
                Some((b, k)) => {
                    &&& b < i
                    &&& queue@[b as int] == Some(k)
                    &&& forall|j: int| 0 <= j < i && queue@[j] is Some ==> k <= queue@[j]->0
                    &&& forall|j: int| 0 <= j < b && queue@[j] is Some ==> k < queue@[j]->0
                },
            },
        decreases queue.len() - i,
    {
        match queue[i] {
            Some(k) => {
                match best {
                    None => {
                        best = Some((i, k));
                    },
                    Some((_, bk)) => {
                        if k < bk {
                            best = Some((i, k));
                        }
                    },
                }
            },
            None => {},
        }
        i += 1;
    }
    match best {
        Some((b, _)) => {
            queue.set(b, None);
            b
        },
        None => {
            proof {
                let w = choose|j: int| 0 <= j < old(queue).len() && old(queue)@[j] is Some;
                assert(queue@[w] is None);
            }
            0
        },
    }
}

/// The linkage answered, for `subject` and `other` (the subject first when `subject_first`),
/// a key no smaller than `key`, and larger than `key` when `strictly`.
pub open spec fn toward_at_least<L: Linkage>(
    linkage: &L,
    subject: Seq<usize>,
    other: Seq<usize>,
    subject_first: bool,
    key: u64,
    strictly: bool,
) -> bool {
    exists|k: u64|
        key <= k && (strictly ==> key < k) && #[trigger] answered_toward(linkage, subject, other, subject_first, k)
}

/// `x` is, among the active clusters below `limit`, the first one whose key toward `subject`
/// is least: the linkage answered `least` for `x`, a key no smaller for each such cluster,
/// and a larger one for those before `x`.
pub open spec fn is_first_least<L: Linkage>(
    linkage: &L,
    clusters: Seq<Vec<usize>>,
    active: Seq<usize>,
    subject: Seq<usize>,
    subject_first: bool,
    limit: usize,
    x: usize,
    least: u64,
) -> bool {
    &&& answered_toward(linkage, subject, clusters[x as int]@, subject_first, least)
    &&& forall|j: int|
        #![trigger active[j]]
        0 <= j < active.len() && active[j] < limit ==> toward_at_least(
            linkage,
            subject,
            clusters[active[j] as int]@,
            subject_first,
            least,
            active[j] < x,
        )
}

/// Among the active clusters below `limit`, the first one least dissimilar to `subject`.
///
/// `active` is sorted, so these are the leading active clusters. With `subject_first`
/// the subject is the left argument of the linkage, else the right one.
fn nearest_below<L: Linkage>(
    linkage: &L,
    clusters: &Vec<Vec<usize>>,
    active: &Vec<usize>,
    subject: &Vec<usize>,
    subject_first: bool,
    limit: usize,
) -> (r: Option<(usize, u64)>)
    requires
        forall|i: int, j: int| 0 <= i < j < active.len() ==> active@[i] < active@[j],
        limit <= clusters.len(),
    ensures
        r is None <==> (active.len() == 0 || active@[0] >= limit),
        r matches Some((x, _)) ==> active@.contains(x) && x < limit,
        r matches Some((x, least)) ==> is_first_least(linkage, clusters@, active@, subject@, subject_first, limit, x, least),
{
    let mut best: Option<(usize, u64)> = None;
    let ghost mut keys: Seq<u64> = Seq::empty();
    let ghost mut best_pos: int = 0;
    let mut i: usize = 0;
    while i < active.len() && active[i] < limit
        invariant
            i <= active.len(),
            forall|j: int| 0 <= j < i ==> active@[j] < limit,
            forall|i: int, j: int| 0 <= i < j < active.len() ==> active@[i] < active@[j],
            limit <= clusters.len(),
            keys.len() == i,
            forall|j: int|
                0 <= j < i ==> #[trigger] answered_toward(
                    linkage,
                    subject@,
                    clusters@[active@[j] as int]@,
                    subject_first,
                    keys[j],
                ),
            best is None <==> i == 0,
            best matches Some((x, bk)) ==> {
                &&& 0 <= best_pos < i
                &&& active@[best_pos] == x
                &&& keys[best_pos] == bk
                &&& forall|j: int| 0 <= j < i ==> bk <= keys[j]
                &&& forall|j: int| 0 <= j < best_pos ==> bk < keys[j]
            },
        decreases active.len() - i,
    {
        let p = active[i];
        let key = if subject_first {
            linkage.dissimilarity_key(subject.as_slice(), clusters[p].as_slice())
        } else {
            linkage.dissimilarity_key(clusters[p].as_slice(), subject.as_slice())
        };
        proof {
            keys = keys.push(key);
        }
        match best {
            None => {
                best = Some((p, key));
                proof {
                    best_pos = i as int;
                }
            },
            Some((_, bk)) => {
                if key < bk {
                    best = Some((p, key));
                    proof {
                        best_pos = i as int;
                    }
                }
            },
        }
        i += 1;
    }
    match best {
        Some((x, bk)) => {
            proof {
                assert(active@.contains(x));
                assert forall|j: int|
                    #![trigger active@[j]]
                    0 <= j < active.len() && active@[j] < limit implies toward_at_least(
                    linkage,
                    subject@,
                    clusters@[active@[j] as int]@,
                    subject_first,
                    bk,
                    active@[j] < x,
                ) by {
                    if j >= i {
                        assert(active@[i as int] >= limit);
                        if j > i {
                            assert(active@[i as int] < active@[j]);
                        }
                    }
                    if active@[j] < x && j >= best_pos {
                        if j > best_pos {
                            assert(active@[best_pos] < active@[j]);
                        }
                    }
                    assert(answered_toward(linkage, subject@, clusters@[active@[j] as int]@, subject_first, keys[j]));
                }
                assert(answered_toward(linkage, subject@, clusters@[active@[best_pos] as int]@, subject_first, keys[best_pos]));
            }
            Some((x, bk))
        },
        None => None,
    }
}

/// The active clusters without `a` and `b`, in the same order.
fn without_pair(active: &Vec<usize>, a: usize, b: usize, Ghost(clusters): Ghost<Seq<Vec<usize>>>) -> (kept: Vec<usize>)
    requires
        forall|i: int, j: int| 0 <= i < j < active.len() ==> active@[i] < active@[j],
        forall|i: int| 0 <= i < active.len() ==> active@[i] < clusters.len(),
        active@.contains(a),
        active@.contains(b),
        a != b,
    ensures
        kept.len() + 2 == active.len(),
        forall|i: int, j: int| 0 <= i < j < kept.len() ==> kept@[i] < kept@[j],
        forall|x: usize| kept@.contains(x) <==> (active@.contains(x) && x != a && x != b),
        active@[0] != a && active@[0] != b ==> kept@[0] == active@[0],
        gathered(clusters, active@) =~= gathered(clusters, kept@).add(
            clusters[a as int]@.to_multiset(),
        ).add(clusters[b as int]@.to_multiset()),
{
    broadcast use vstd::multiset::group_multiset_axioms;

    let mut kept: Vec<usize> = Vec::new();
    let mut i: usize = 0;
    let ghost ma = clusters[a as int]@.to_multiset();
    let ghost mb = clusters[b as int]@.to_multiset();
    while i < active.len()
        invariant
            i <= active.len(),
            forall|i: int, j: int| 0 <= i < j < active.len() ==> active@[i] < active@[j],
            forall|i: int| 0 <= i < active.len() ==> active@[i] < clusters.len(),
            a < clusters.len(),
            b < clusters.len(),
            ma == clusters[a as int]@.to_multiset(),
            mb == clusters[b as int]@.to_multiset(),
            a != b,
            kept.len() + (if active@.take(i as int).contains(a) { 1int } else { 0int }) + (if active@.take(
                i as int,
            ).contains(b) { 1int } else { 0int }) == i,
            forall|k: int| 0 <= k < kept.len() ==> active@.take(i as int).contains(#[trigger] kept@[k]),
            forall|i: int, j: int| 0 <= i < j < kept.len() ==> kept@[i] < kept@[j],
            forall|x: usize|
                kept@.contains(x) <==> (active@.take(i as int).contains(x) && x != a && x != b),
            i > 0 && active@[0] != a && active@[0] != b ==> kept@[0] == active@[0],
            gathered(clusters, active@.take(i as int)) =~= gathered(clusters, kept@).add(
                if active@.take(i as int).contains(a) { ma } else { Multiset::empty() },
            ).add(if active@.take(i as int).contains(b) { mb } else { Multiset::empty() }),
        decreases active.len() - i,
    {
        let p = active[i];
        let ghost before = active@.take(i as int);
        let ghost after = active@.take(i + 1);
        let ghost old_kept = kept@;
        assert(active@.take(i + 1) =~= before.push(p));
        assert(!before.contains(p)) by {
            if before.contains(p) {
                let j = choose|j: int| 0 <= j < before.len() && before[j] == p;
                assert(active@[j] < active@[i as int]);
            }
        }
        proof {
            lemma_gathered_push(clusters, before, p);
        }
        if p != a && p != b {
            kept.push(p);
            proof {
                lemma_gathered_push(clusters, old_kept, p);
                assert forall|k: int| 0 <= k < kept.len() implies active@.take(i + 1).contains(
                    #[trigger] kept@[k],
                ) by {
                    if k < old_kept.len() {
                        assert(before.contains(old_kept[k]));
                    } else {
                        assert(active@.take(i + 1)[i as int] == p);
                    }
                }
                assert forall|k1: int, k2: int| 0 <= k1 < k2 < kept.len() implies kept@[k1]
                    < kept@[k2] by {
                    if k2 == old_kept.len() {
                        assert(before.contains(old_kept[k1]));
                        let j = choose|j: int| 0 <= j < before.len() && before[j] == old_kept[k1];
                        assert(active@[j] < active@[i as int]);
                    }
                }
                assert forall|x: usize| kept@.contains(x) <==> (after.contains(x)
                    && x != a && x != b) by {
                    assert(after[i as int] == p);
                    if x == p {
                        assert(kept@[kept.len() - 1] == p);
                        assert(after.contains(p));
                    } else {
                        if kept@.contains(x) {
                            let k = choose|k: int| 0 <= k < kept.len() && kept@[k] == x;
                            assert(old_kept[k] == x);
                            assert(old_kept.contains(x));
                            let j = choose|j: int| 0 <= j < before.len() && before[j] == x;
                            assert(after[j] == x);
                        }
                        if after.contains(x) && x != a && x != b {
                            let j = choose|j: int| 0 <= j < i + 1 && after[j] == x;
                            assert(j != i);
                            assert(before[j] == x);
                            assert(old_kept.contains(x));
                            let k = choose|k: int| 0 <= k < old_kept.len() && old_kept[k] == x;
                            assert(kept@[k] == x);
                        }
                    }
                }
                if i == 0 {
                    assert(kept@[0] == p);
                }
            }
        } else {
            proof {
                assert forall|k: int| 0 <= k < kept.len() implies active@.take(i + 1).contains(
                    #[trigger] kept@[k],
                ) by {
                    assert(before.contains(kept@[k]));
                    let j = choose|j: int| 0 <= j < before.len() && before[j] == kept@[k];
                    assert(after[j] == kept@[k]);
                }
                assert forall|x: usize| kept@.contains(x) <==> (active@.take(i + 1).contains(x)
                    && x != a && x != b) by {
                    if active@.take(i + 1).contains(x) && x != a && x != b {
                        let j = choose|j: int| 0 <= j < i + 1 && after[j] == x;
                        assert(before[j] == x);
                    }
                    if kept@.contains(x) {
                        assert(before.contains(x));
                        let j = choose|j: int| 0 <= j < before.len() && before[j] == x;
                        assert(after[j] == x);
                    }
                }
            }
        }
        i += 1;
    }
    assert(active@.take(active.len() as int) =~= active@);
    kept
}

/// A copy of a cluster's members.
fn copy_members(members: &Vec<usize>) -> (copy: Vec<usize>)
    ensures
        copy@ == members@,
{
    let mut copy: Vec<usize> = Vec::new();
    let mut i: usize = 0;
    while i < members.len()
        invariant
            i <= members.len(),
            copy@ == members@.take(i as int),
        decreases members.len() - i,
    {
        copy.push(members[i]);
        i += 1;
        assert(copy@ =~= members@.take(i as int));
    }
    assert(members@.take(members.len() as int) =~= members@);
    copy
}

/// The active clusters, in the order of `active`.
fn collect_active(clusters: &Vec<Vec<usize>>, active: &Vec<usize>) -> (result: Vec<Vec<usize>>)
    requires
        forall|i: int| 0 <= i < active.len() ==> active@[i] < clusters.len(),
    ensures
        result.len() == active.len(),
        forall|i: int| 0 <= i < active.len() ==> #[trigger] result@[i]@ == clusters@[active@[i] as int]@,
        all_members(result@) == gathered(clusters@, active@),
{
    let mut result: Vec<Vec<usize>> = Vec::new();
    let mut i: usize = 0;
    while i < active.len()
        invariant
            i <= active.len(),
            forall|i: int| 0 <= i < active.len() ==> active@[i] < clusters.len(),
            result.len() == i,
            forall|k: int| 0 <= k < i ==> #[trigger] result@[k]@ == clusters@[active@[k] as int]@,
            all_members(result@) == gathered(clusters@, active@.take(i as int)),
        decreases active.len() - i,
    {
        let p = active[i];
        let ghost before = result@;
        result.push(copy_members(&clusters[p]));
        proof {
            assert(result@.drop_last() =~= before);
            assert(active@.take(i + 1).drop_last() =~= active@.take(i as int));
        }
        i += 1;
    }
    assert(active@.take(active.len() as int) =~= active@);
    result
}

/// The active clusters, collected, were all built by allowed merges when every cluster was.
proof fn lemma_built_from_active<L: Linkage>(
    linkage: &L,
    n: nat,
    history: Seq<Seq<usize>>,
    presents: Seq<Seq<Seq<usize>>>,
    clusters: Seq<Vec<usize>>,
    active: Seq<usize>,
    result: Seq<Vec<usize>>,
)
    requires
        built_by_allowed_merges(linkage, n, history, presents),
        history.len() == clusters.len(),
        forall|k: int| 0 <= k < clusters.len() ==> #[trigger] history[k] == clusters[k]@,
        forall|i: int| 0 <= i < active.len() ==> active[i] < clusters.len(),
        result.len() == active.len(),
        forall|i: int| 0 <= i < active.len() ==> #[trigger] result[i]@ == clusters[active[i] as int]@,
    ensures
        built_from_inputs(linkage, n, result),
{
    assert forall|i: int| 0 <= i < result.len() implies history.contains(#[trigger] result[i]@) by {
        assert(history[active[i] as int] == clusters[active[i] as int]@);
        assert(result[i]@ == clusters[active[i] as int]@);
    }
}

/// With every queued key at least `ka`, and `ka` bounding the keys of `a` toward the
/// active clusters below it, every two active clusters `hi > lo` have a key no smaller than `ka`.
proof fn lemma_active_pair_bound<L: Linkage>(
    linkage: &L,
    clusters: Seq<Vec<usize>>,
    queue: Seq<Option<u64>>,
    active: Seq<usize>,
    a: usize,
    ka: u64,
    hi: usize,
    lo: usize,
)
    requires
        queue.len() == clusters.len(),
        forall|i: int, j: int| 0 <= i < j < active.len() ==> active[i] < active[j],
        active.contains(hi),
        active.contains(lo),
        lo < hi,
        forall|x: usize| active.contains(x) && x != active[0] && x != a ==> queue[x as int] is Some,
        forall|k: int| 0 <= k < queue.len() && queue[k] is Some ==> ka <= queue[k]->0,
        forall|i: int| 0 <= i < active.len() ==> active[i] < clusters.len(),
        queue_bounded(linkage, clusters, active, queue),
        bounded_below(linkage, clusters, active, a, ka),
    ensures
        pair_key_at_least(linkage, clusters[hi as int]@, clusters[lo as int]@, ka),
{
    if hi == a {
        assert(pair_key_at_least(linkage, clusters[a as int]@, clusters[lo as int]@, ka));
    } else {
        let jl = choose|j: int| 0 <= j < active.len() && active[j] == lo;
        let jh = choose|j: int| 0 <= j < active.len() && active[j] == hi;
        assert(hi != active[0]) by {
            if jl > 0 {
                assert(active[0] < active[jl]);
            }
        }
        assert(hi < clusters.len());
        assert(queue[hi as int] is Some);
        let q = queue[hi as int]->0;
        assert(hi >= 1) by {
            assert(active[0] <= lo) by {
                if jl > 0 {
                    assert(active[0] < active[jl]);
                }
            }
        }
        assert(bounded_below(linkage, clusters, active, hi, q));
        assert(pair_key_at_least(linkage, clusters[hi as int]@, clusters[lo as int]@, q));
        let k = choose|k: u64| q <= k && #[trigger] answered_pair_key(
            linkage,
            clusters[hi as int]@,
            clusters[lo as int]@,
            k,
        );
        assert(ka <= k);
    }
}

/// The popped candidate `a` with its nearest neighbour `b` and key `ka` is a least-key
/// pair among the active clusters, listed in `present`.
proof fn lemma_least_pair<L: Linkage>(
    linkage: &L,
    clusters: Seq<Vec<usize>>,
    queue: Seq<Option<u64>>,
    active: Seq<usize>,
    present: Seq<Seq<usize>>,
    a: usize,
    b: usize,
    ka: u64,
    i: int,
    j: int,
)
    requires
        queue.len() == clusters.len(),
        forall|i: int, j: int| 0 <= i < j < active.len() ==> active[i] < active[j],
        forall|i: int| 0 <= i < active.len() ==> active[i] < clusters.len(),
        0 <= i < active.len(),
        0 <= j < active.len(),
        active[i] == a,
        active[j] == b,
        a != b,
        forall|x: usize| active.contains(x) && x != active[0] && x != a ==> queue[x as int] is Some,
        forall|k: int| 0 <= k < queue.len() && queue[k] is Some ==> ka <= queue[k]->0,
        queue_bounded(linkage, clusters, active, queue),
        bounded_below(linkage, clusters, active, a, ka),
        answered_pair_key(linkage, clusters[a as int]@, clusters[b as int]@, ka),
        present.len() == active.len(),
        forall|m: int| 0 <= m < active.len() ==> #[trigger] present[m] == clusters[active[m] as int]@,
    ensures
        least_key_pair(linkage, present, i, j, ka),
{
    assert(present[i] == clusters[a as int]@);
    assert(present[j] == clusters[b as int]@);
    assert forall|m1: int, m2: int|
        0 <= m1 < present.len() && 0 <= m2 < present.len() && m1 != m2 implies #[trigger] pair_key_at_least(
        linkage,
        present[m1],
        present[m2],
        ka,
    ) by {
        let x = active[m1];
        let y = active[m2];
        assert(active.contains(x) && active.contains(y));
        assert(present[m1] == clusters[x as int]@);
        assert(present[m2] == clusters[y as int]@);
        if m1 < m2 {
            assert(x < y);
            lemma_active_pair_bound(linkage, clusters, queue, active, a, ka, y, x);
            let k = choose|k: u64| ka <= k && #[trigger] answered_pair_key(
                linkage,
                clusters[y as int]@,
                clusters[x as int]@,
                k,
            );
            assert(answered_pair_key(linkage, clusters[x as int]@, clusters[y as int]@, k));
        } else {
            assert(y < x);
            lemma_active_pair_bound(linkage, clusters, queue, active, a, ka, x, y);
        }
    }
}

/// Clusters the inputs `0..n`, merging the least dissimilar clusters first until the
/// nearest pair exceeds the merge threshold or two clusters remain.
///
/// Each resulting cluster lists the inputs it holds; together they hold every input
/// exactly once, and each was built by merges that the linkage allowed, each of a
/// least-key pair of the clusters present at the time. When more than two
/// clusters come back (or the only two inputs), the linkage judged the least-key
/// pair too dissimilar to merge. Merging the only two inputs is an internal error.
pub fn cluster_colors<L: Linkage>(n: usize, linkage: &L) -> (r: Result<Vec<Vec<usize>>, ClusterError>)
    ensures
        r is Err ==> n == 2 && answered_exceeds(linkage, seq![1usize], seq![0usize], false),
        n != 2 ==> r is Ok,
        r matches Ok(clusters) ==> {
            &&& is_partition_of(clusters@, n as nat)
            &&& forall|i: int| 0 <= i < clusters.len() ==> #[trigger] clusters@[i].len() > 0
            &&& clusters.len() <= n
            &&& n >= 1 ==> clusters.len() >= 1
            &&& n >= 2 ==> clusters.len() >= 2
            &&& built_from_inputs(linkage, n as nat, clusters@)
            &&& (clusters.len() > 2 || n == 2) ==> stopped_at_threshold(linkage, clusters@)
        },
{
    broadcast use vstd::multiset::group_multiset_axioms;
    broadcast use vstd::seq_lib::group_to_multiset_ensures;

    if n == 0 {
        let empty: Vec<Vec<usize>> = Vec::new();
        proof {
            assert(all_members(empty@) =~= Multiset::empty());
            assert(built_by_allowed_merges(linkage, 0, Seq::<Seq<usize>>::empty(), Seq::<Seq<Seq<usize>>>::empty()));
        }
        return Ok(empty);
    }
    // Every input starts as a cluster of its own.
    let mut clusters: Vec<Vec<usize>> = Vec::new();
    let mut active: Vec<usize> = Vec::new();
    let mut i: usize = 0;
    while i < n
        invariant
            i <= n,
            clusters.len() == i,
            active.len() == i,
            forall|k: int| 0 <= k < i ==> active@[k] == k,
            forall|k: int| 0 <= k < i ==> (#[trigger] clusters@[k])@ == seq![k as usize],
            forall|x: usize|
                #[trigger] gathered(clusters@, active@).count(x) == (if x < i { 1nat } else { 0nat }),
        decreases n - i,
    {
        let mut single: Vec<usize> = Vec::new();
        single.push(i);
        let ghost before_clusters = clusters@;
        let ghost before_active = active@;
        clusters.push(single);
        active.push(i);
        proof {
            lemma_gathered_extend(before_clusters, single, before_active);
            lemma_gathered_push(clusters@, before_active, i);
            assert(single@ =~= Seq::<usize>::empty().push(i));
            vstd::seq_lib::to_multiset_len(Seq::<usize>::empty());
            vstd::multiset::lemma_multiset_empty_len(Seq::<usize>::empty().to_multiset());
            assert(Seq::<usize>::empty().to_multiset() =~= Multiset::empty());
            vstd::seq_lib::to_multiset_build(Seq::<usize>::empty(), i);
            assert(single@.to_multiset() =~= Multiset::empty().insert(i));
            assert forall|x: usize| #[trigger] gathered(clusters@, active@).count(x) == (if x < i
                + 1 { 1nat } else { 0nat }) by {}
        }
        i += 1;
    }
    let ghost mut history: Seq<Seq<usize>> = Seq::new(n as nat, |k: int| seq![k as usize]);
    let ghost mut presents: Seq<Seq<Seq<usize>>> = Seq::new(n as nat, |k: int| Seq::<Seq<usize>>::empty());
    proof {
        assert(built_by_allowed_merges(linkage, n as nat, history, presents));
    }
    // The nearest earlier cluster of each cluster but the first, and the queue of candidates.
    let mut nearest: Vec<usize> = Vec::new();
    let mut queue: Vec<Option<u64>> = Vec::new();
    queue.push(None);
    let mut p: usize = 1;
    while p < n
        invariant
            1 <= p <= n,
            clusters.len() == n,
            active.len() == n,
            forall|k: int| 0 <= k < n ==> active@[k] == k,
            forall|k: int| 0 <= k < n ==> (#[trigger] clusters@[k])@ == seq![k as usize],
            nearest.len() + 1 == p,
            queue.len() == p,
            queue@[0] is None,
            forall|k: int| 0 <= k < nearest.len() ==> nearest@[k] <= k,
            forall|k: int| 1 <= k < p ==> queue@[k] is Some,
            candidates_answered(linkage, clusters@, nearest@, queue@),
            queue_bounded(linkage, clusters@, active@, queue@),
        decreases n - p,
    {
        let (x, key) = nearest_below(linkage, &clusters, &active, &clusters[p], true, p).unwrap();
        assert(x < p) by {
            let j = choose|j: int| 0 <= j < active.len() && active@[j] == x;
        }
        let ghost q0 = queue@;
        let ghost n0 = nearest@;
        nearest.push(x);
        queue.push(Some(key));
        proof {
            lemma_bound_from_nearest(linkage, clusters@, active@, clusters@[p as int]@, true, p, x, key);
            assert(bounded_below(linkage, clusters@, active@, p, key));
            assert forall|k: int| 1 <= k < queue.len() && #[trigger] queue@[k] is Some implies bounded_below(
                linkage,
                clusters@,
                active@,
                k as usize,
                queue@[k]->0,
            ) by {
                if k < p {
                    assert(q0[k] is Some);
                }
            }
            assert(answered_key(linkage, clusters@[p as int]@, clusters@[x as int]@, key));
            assert forall|k: int| 1 <= k < queue.len() && #[trigger] queue@[k] is Some implies answered_pair_key(
                linkage,
                clusters@[k]@,
                clusters@[nearest@[k - 1] as int]@,
                queue@[k]->0,
            ) by {
                if k < p {
                    assert(q0[k] is Some);
                    assert(nearest@[k - 1] == n0[k - 1]);
                }
            }
        }
        p += 1;
    }
    proof {
        assert forall|k: int| 0 <= k < queue.len() && queue@[k] is Some implies k >= 1
            && active@.contains(k as usize) by {
            assert(active@[k] == k);
        }
        assert forall|x: usize| active@.contains(x) && x != active@[0] implies queue@[x as int] is Some by {
            let j = choose|j: int| 0 <= j < active.len() && active@[j] == x;
        }
        assert forall|x: usize| #[trigger] gathered(clusters@, active@).count(x) == (if x < n {
            1nat
        } else {
            0nat
        }) by {}
        assert forall|k: int| 0 <= k < clusters.len() implies #[trigger] history[k] == clusters@[k]@ by {
            assert(clusters@[k]@ == seq![k as usize]);
        }
    }
    while active.len() > 1
        invariant
            n >= 1,
            clusters.len() >= n,
            clusters.len() + active.len() == 2 * n,
            queue.len() == clusters.len(),
            nearest.len() + 1 == clusters.len(),
            forall|k: int| 0 <= k < nearest.len() ==> nearest@[k] <= k,
            forall|k: int| 0 <= k < clusters.len() ==> (#[trigger] clusters@[k]).len() > 0,
            forall|i: int, j: int| 0 <= i < j < active.len() ==> active@[i] < active@[j],
            forall|i: int| 0 <= i < active.len() ==> active@[i] < clusters.len(),
            1 <= active.len() <= n,
            active.len() >= 3 || active.len() == n,
            forall|x: usize|
                #[trigger] gathered(clusters@, active@).count(x) == (if x < n { 1nat } else { 0nat }),
            forall|k: int| 0 <= k < queue.len() && queue@[k] is Some ==> k >= 1 && active@.contains(k as usize),
            forall|x: usize| active@.contains(x) && x != active@[0] ==> queue@[x as int] is Some,
            candidates_answered(linkage, clusters@, nearest@, queue@),
            queue_bounded(linkage, clusters@, active@, queue@),
            history.len() == clusters.len(),
            forall|k: int| 0 <= k < clusters.len() ==> #[trigger] history[k] == clusters@[k]@,
            built_by_allowed_merges(linkage, n as nat, history, presents),
        decreases active.len(),
    {
        assert(active@.contains(active@[1]));
        assert(queue@[active@[1] as int] is Some);
        let ghost q_pop = queue@;
        let mut a = pop_nearest(&mut queue);
        let mut b = nearest[a - 1];
        let ghost mut ka: u64 = q_pop[a as int]->0;
        proof {
            assert(q_pop[a as int] is Some);
            assert forall|k: int| 1 <= k < queue.len() && #[trigger] queue@[k] is Some implies answered_pair_key(
                linkage,
                clusters@[k]@,
                clusters@[nearest@[k - 1] as int]@,
                queue@[k]->0,
            ) by {
                assert(q_pop[k] is Some);
            }
            assert forall|k: int| 0 <= k < queue.len() && queue@[k] is Some implies ka <= queue@[k]->0 by {
                assert(q_pop[k] is Some);
            }
            assert forall|k: int| 1 <= k < queue.len() && #[trigger] queue@[k] is Some implies bounded_below(
                linkage,
                clusters@,
                active@,
                k as usize,
                queue@[k]->0,
            ) by {
                assert(q_pop[k] is Some);
            }
            assert(bounded_below(linkage, clusters@, active@, a, ka));
        }
        let mut b_active = is_active(&active, b);
        // Refresh candidates whose nearest neighbour has been merged away.
        while !b_active
            invariant
                n >= 1,
                clusters.len() >= n,
                clusters.len() + active.len() == 2 * n,
                queue.len() == clusters.len(),
                nearest.len() + 1 == clusters.len(),
                forall|k: int| 0 <= k < nearest.len() ==> nearest@[k] <= k,
                forall|i: int, j: int| 0 <= i < j < active.len() ==> active@[i] < active@[j],
                forall|i: int| 0 <= i < active.len() ==> active@[i] < clusters.len(),
                2 <= active.len(),
                1 <= a < clusters.len(),
                active@.contains(a),
                queue@[a as int] is None,
                b == nearest@[a - 1],
                b_active == active@.contains(b),
                forall|k: int| 0 <= k < queue.len() && queue@[k] is Some ==> k >= 1 && active@.contains(k as usize),
                forall|x: usize| active@.contains(x) && x != active@[0] && x != a ==> queue@[x as int] is Some,
                candidates_answered(linkage, clusters@, nearest@, queue@),
                answered_pair_key(linkage, clusters@[a as int]@, clusters@[b as int]@, ka),
                forall|k: int| 0 <= k < queue.len() && queue@[k] is Some ==> ka <= queue@[k]->0,
                queue_bounded(linkage, clusters@, active@, queue@),
                bounded_below(linkage, clusters@, active@, a, ka),
            decreases stale_count(queue@, nearest@, active@, queue.len() as int) + (if b_active {
                0int
            } else {
                1int
            }),
        {
            let ghost q0 = queue@;
            let ghost n0 = nearest@;
            match nearest_below(linkage, &clusters, &active, &clusters[a], true, a) {
                Some((x, key)) => {
                    nearest.set(a - 1, x);
                    queue.set(a, Some(key));
                    proof {
                        lemma_stale_count_point_change(q0, n0, queue@, nearest@, active@, a as int, queue.len() as int);
                        lemma_bound_from_nearest(linkage, clusters@, active@, clusters@[a as int]@, true, a, x, key);
                        assert(bounded_below(linkage, clusters@, active@, a, key));
                        assert forall|k: int| 1 <= k < queue.len() && #[trigger] queue@[k] is Some implies bounded_below(
                            linkage,
                            clusters@,
                            active@,
                            k as usize,
                            queue@[k]->0,
                        ) by {
                            if k != a {
                                assert(q0[k] is Some);
                            }
                        }
                        assert(answered_key(linkage, clusters@[a as int]@, clusters@[x as int]@, key));
                        assert forall|k: int| 1 <= k < queue.len() && #[trigger] queue@[k] is Some implies answered_pair_key(
                            linkage,
                            clusters@[k]@,
                            clusters@[nearest@[k - 1] as int]@,
                            queue@[k]->0,
                        ) by {
                            if k != a {
                                assert(q0[k] is Some);
                                assert(nearest@[k - 1] == n0[k - 1]);
                            }
                        }
                    }
                },
                None => {
                    proof {
                        let j = choose|j: int| 0 <= j < active.len() && active@[j] == a;
                        assert(a == active@[0]) by {
                            if j > 0 {
                                assert(active@[0] < active@[j]);
                            }
                        }
                        assert(active@.contains(active@[1]));
                        assert(queue@[active@[1] as int] is Some);
                    }
                },
            }
            let ghost q1 = queue@;
            a = pop_nearest(&mut queue);
            proof {
                lemma_stale_count_point_change(q1, nearest@, queue@, nearest@, active@, a as int, queue.len() as int);
                ka = q1[a as int]->0;
                assert(q1[a as int] is Some);
                assert forall|k: int| 1 <= k < queue.len() && #[trigger] queue@[k] is Some implies answered_pair_key(
                    linkage,
                    clusters@[k]@,
                    clusters@[nearest@[k - 1] as int]@,
                    queue@[k]->0,
                ) by {
                    assert(q1[k] is Some);
                }
                assert forall|k: int| 0 <= k < queue.len() && queue@[k] is Some implies ka <= queue@[k]->0 by {
                    assert(q1[k] is Some);
                }
                assert forall|k: int| 1 <= k < queue.len() && #[trigger] queue@[k] is Some implies bounded_below(
                    linkage,
                    clusters@,
                    active@,
                    k as usize,
                    queue@[k]->0,
                ) by {
                    assert(q1[k] is Some);
                }
                assert(bounded_below(linkage, clusters@, active@, a, ka));
            }
            b = nearest[a - 1];
            b_active = is_active(&active, b);
        }
        // `a` and its nearest neighbour `b` are the least dissimilar pair.
        let sa = clusters[a].as_slice();
        let sb = clusters[b].as_slice();
        let exceeds = linkage.exceeds_merge_threshold(sa, sb);
        proof {
            assert(answered_exceeds(linkage, clusters@[a as int]@, clusters@[b as int]@, exceeds));
        }
        if exceeds {
            let result = collect_active(&clusters, &active);
            proof {
                lemma_built_from_active(linkage, n as nat, history, presents, clusters@, active@, result@);
                let i = choose|i: int| 0 <= i < active.len() && active@[i] == a;
                let j = choose|j: int| 0 <= j < active.len() && active@[j] == b;
                let present = member_lists(result@);
                assert forall|m: int| 0 <= m < active.len() implies #[trigger] present[m]
                    == clusters@[active@[m] as int]@ by {
                    assert(result@[m]@ == clusters@[active@[m] as int]@);
                }
                lemma_least_pair(linkage, clusters@, queue@, active@, present, a, b, ka, i, j);
                assert(answered_exceeds(linkage, result@[i]@, result@[j]@, true));
            }
            return Ok(result);
        }
        assert(b < a);
        let ghost present = Seq::new(active.len() as nat, |m: int| clusters@[active@[m] as int]@);
        let ghost pos_a = choose|i: int| 0 <= i < active.len() && active@[i] == a;
        let ghost pos_b = choose|j: int| 0 <= j < active.len() && active@[j] == b;
        proof {
            lemma_least_pair(linkage, clusters@, queue@, active@, present, a, b, ka, pos_a, pos_b);
            lemma_member_count_active(clusters@, active@);
            assert forall|m: int| 0 <= m < present.len() implies history.contains(#[trigger] present[m]) by {
                assert(history[active@[m] as int] == clusters@[active@[m] as int]@);
            }
        }
        let ghost q_inner = queue@;
        let ghost n_inner = nearest@;
        let ghost old_active = active@;
        queue.set(b, None);
        let mut next_active = without_pair(&active, a, b, Ghost(clusters@));
        let new_index = clusters.len();
        let ghost kept = next_active@;
        let ghost old_clusters = clusters@;
        proof {
            assert forall|k: int| 0 <= k < kept.len() implies kept[k] < old_clusters.len() by {
                assert(kept.contains(kept[k]));
            }
        }
        next_active.push(new_index);
        let new_cluster = merge(&clusters[a], &clusters[b]);
        let ghost merged = new_cluster;
        proof {
            vstd::seq_lib::lemma_multiset_commutative(old_clusters[a as int]@, old_clusters[b as int]@);
        }
        if next_active.len() == 2 {
            clusters.push(new_cluster);
            proof {
                lemma_gathered_push(clusters@, kept, new_index);
                lemma_gathered_extend(old_clusters, merged, kept);
                assert(gathered(clusters@, next_active@) =~= gathered(old_clusters, active@));
                lemma_history_push(linkage, n as nat, history, presents, present, a as int, b as int, pos_a, pos_b, ka);
                history = history.push(history[a as int] + history[b as int]);
                presents = presents.push(present);
                assert forall|k: int| 0 <= k < next_active.len() implies next_active@[k] < clusters.len() by {
                    if k < kept.len() {
                        assert(kept[k] < old_clusters.len());
                    }
                }
            }
            let result = collect_active(&clusters, &next_active);
            proof {
                lemma_built_from_active(linkage, n as nat, history, presents, clusters@, next_active@, result@);
            }
            return Ok(result);
        }
        let (x, key) = match nearest_below(linkage, &clusters, &next_active, &new_cluster, false, new_index) {
            Some(found) => found,
            None => {
                proof {
                    assert(clusters@[1]@ == history[1]);
                    assert(clusters@[0]@ == history[0]);
                    assert(history[1] == seq![1usize]);
                    assert(history[0] == seq![0usize]);
                }
                return Err(ClusterError::InternalError);
            },
        };
        nearest.push(x);
        proof {
            assert(answered_key(linkage, clusters@[x as int]@, new_cluster@, key));
            lemma_bound_from_nearest(linkage, clusters@, next_active@, new_cluster@, false, new_index, x, key);
        }
        queue.push(Some(key));
        clusters.push(new_cluster);
        proof {
            lemma_gathered_push(clusters@, kept, new_index);
            lemma_gathered_extend(old_clusters, merged, kept);
            assert(gathered(clusters@, next_active@) =~= gathered(old_clusters, active@));
            lemma_history_push(linkage, n as nat, history, presents, present, a as int, b as int, pos_a, pos_b, ka);
            history = history.push(history[a as int] + history[b as int]);
            presents = presents.push(present);
            assert(next_active@.contains(x));
            assert(next_active@[next_active.len() - 1] == new_index);
            assert forall|k: int| 0 <= k < queue.len() && queue@[k] is Some implies k >= 1
                && next_active@.contains(k as usize) by {
                if k < new_index {
                    assert(q_inner[k] is Some);
                    assert(k != a && k != b);
                    assert(kept.contains(k as usize));
                    let j = choose|j: int| 0 <= j < kept.len() && kept[j] == k as usize;
                    assert(next_active@[j] == k);
                }
            }
            assert forall|y: usize| next_active@.contains(y) && y != next_active@[0] implies queue@[y as int] is Some by {
                if y != new_index {
                    let j = choose|j: int| 0 <= j < next_active.len() && next_active@[j] == y;
                    assert(j < kept.len());
                    assert(kept[j] == y);
                    assert(kept.contains(y));
                    assert(y != a && y != b && old_active.contains(y));
                    assert(kept.len() > 0);
                    assert(next_active@[0] == kept[0]);
                    if old_active[0] != a && old_active[0] != b {
                        assert(y != old_active[0]);
                    }
                    assert(q_inner[y as int] is Some);
                }
            }
            assert forall|k: int| 1 <= k < queue.len() && #[trigger] queue@[k] is Some implies answered_pair_key(
                linkage,
                clusters@[k]@,
                clusters@[nearest@[k - 1] as int]@,
                queue@[k]->0,
            ) by {
                if k < new_index {
                    assert(q_inner[k] is Some);
                    assert(nearest@[k - 1] == n_inner[k - 1]);
                    assert(n_inner[k - 1] < old_clusters.len());
                    assert(clusters@[k] == old_clusters[k]);
                    assert(clusters@[n_inner[k - 1] as int] == old_clusters[n_inner[k - 1] as int]);
                }
            }
            assert forall|k: int| 0 <= k < clusters.len() implies #[trigger] history[k] == clusters@[k]@ by {
                if k < new_index {
                    assert(clusters@[k] == old_clusters[k]);
                }
            }
            assert forall|k: int| 1 <= k < queue.len() && #[trigger] queue@[k] is Some implies bounded_below(
                linkage,
                clusters@,
                next_active@,
                k as usize,
                queue@[k]->0,
            ) by {
                if k < new_index {
                    assert(q_inner[k] is Some);
                    assert(bounded_below(linkage, old_clusters, old_active, k as usize, q_inner[k]->0));
                    assert forall|y: usize| next_active@.contains(y) && y < k implies old_active.contains(y) by {
                        let j = choose|j: int| 0 <= j < next_active.len() && next_active@[j] == y;
                        if j < kept.len() {
                            assert(kept[j] == y);
                            assert(kept.contains(y));
                        }
                    }
                    lemma_bounded_transfer(linkage, old_clusters, old_active, clusters@, next_active@, k as usize, q_inner[k]->0);
                } else {
                    assert forall|y: usize| next_active@.contains(y) && y < new_index implies #[trigger] pair_key_at_least(
                        linkage,
                        clusters@[new_index as int]@,
                        clusters@[y as int]@,
                        key,
                    ) by {
                        assert(pair_key_at_least(linkage, new_cluster@, old_clusters[y as int]@, key));
                        assert(clusters@[y as int] == old_clusters[y as int]);
                    }
                }
            }
        }
        active = next_active;
    }
    let result = collect_active(&clusters, &active);
    proof {
        lemma_built_from_active(linkage, n as nat, history, presents, clusters@, active@, result@);
    }
    Ok(result)
}

} // verus!
