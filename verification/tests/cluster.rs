use ordered_float::OrderedFloat;
use palette::convert::FromColorUnclamped;
use palette::{Oklab, OklabHue, Oklch};
use thaimeleon_lib::cluster::{cluster_colors, merge, ClusterError, Linkage};

// The color arithmetic of the scheme generator, for driving the clustering on real colors.

#[derive(Clone, Copy, Debug)]
struct Ab {
    a: f32,
    b: f32,
}

impl Ab {
    fn hue(&self) -> OklabHue {
        OklabHue::from_cartesian(self.a, self.b)
    }
    fn custom_root_chroma(&self) -> Ab {
        let hue_cos = self.hue().into_radians().cos();
        let hue_sin = self.hue().into_radians().sin();
        Ab {
            a: (self.a / hue_cos).powf(0.6) * hue_cos,
            b: (self.b / hue_sin).powf(0.6) * hue_sin,
        }
    }
    fn distance_squared(self, other: Ab) -> f32 {
        (self.a - other.a).powi(2) + (self.b - other.b).powi(2)
    }
}

fn hue_difference(x: OklabHue, y: OklabHue) -> f32 {
    let hue_difference = (x - y).into_positive_degrees().rem_euclid(360.0);
    if hue_difference > 180.0 {
        360.0 - hue_difference
    } else {
        hue_difference
    }
}

#[derive(Clone, Copy, Debug)]
struct Profile {
    ab: Ab,
    portion: f32,
}

fn profile(l: f32, c: f32, h: f32, portion: f32) -> Profile {
    let lab = Oklab::from_color_unclamped(Oklch::new(l, c, h));
    Profile {
        ab: Ab { a: lab.a, b: lab.b },
        portion,
    }
}

fn portion(points: &[Profile]) -> f32 {
    points.iter().fold(0.0, |acc, p| acc + p.portion)
}

fn rooted_centroid(points: &[Profile]) -> Ab {
    let sum = points.iter().fold(Ab { a: 0.0, b: 0.0 }, |acc, p| {
        let r = p.ab.custom_root_chroma();
        Ab {
            a: acc.a + r.a * p.portion,
            b: acc.b + r.b * p.portion,
        }
    });
    let w = portion(points);
    Ab { a: sum.a / w, b: sum.b / w }
}

fn centroid(points: &[Profile]) -> Ab {
    let sum = points.iter().fold(Ab { a: 0.0, b: 0.0 }, |acc, p| Ab {
        a: acc.a + p.ab.a * p.portion,
        b: acc.b + p.ab.b * p.portion,
    });
    let w = portion(points);
    Ab { a: sum.a / w, b: sum.b / w }
}

fn dissimilarity(left: &[Profile], right: &[Profile]) -> f32 {
    let centriod_a = rooted_centroid(left);
    let centriod_b = rooted_centroid(right);
    let max_hue_difference = left
        .iter()
        .map(|p| {
            right
                .iter()
                .map(|q| OrderedFloat(hue_difference(q.ab.hue(), p.ab.hue())))
                .max()
                .unwrap()
        })
        .max()
        .unwrap();
    if max_hue_difference > OrderedFloat(90.0)
        || hue_difference(centriod_a.hue(), centriod_b.hue()) > 60.0
    {
        f32::INFINITY
    } else {
        centriod_a.distance_squared(centriod_b) * (portion(left) * portion(right))
            / (portion(left) + portion(right))
    }
}

fn order_key(x: f32) -> u64 {
    if x.is_nan() {
        return u64::MAX;
    }
    let x = if x == 0.0 { 0.0f32 } else { x };
    let bits = x.to_bits();
    let key = if bits & 0x8000_0000 != 0 { !bits } else { bits | 0x8000_0000 };
    key as u64
}

struct Colors {
    points: Vec<Profile>,
}

impl Colors {
    fn members(&self, indices: &[usize]) -> Vec<Profile> {
        indices.iter().map(|&i| self.points[i]).collect()
    }
}

impl Linkage for Colors {
    fn dissimilarity_key(&self, left: &[usize], right: &[usize]) -> u64 {
        order_key(dissimilarity(&self.members(left), &self.members(right)))
    }
    fn exceeds_merge_threshold(&self, left: &[usize], right: &[usize]) -> bool {
        dissimilarity(&self.members(left), &self.members(right)) > 0.0008
    }
}

/// The hue of each cluster's centroid.
fn clustered_hues(points: Vec<Profile>) -> Vec<OklabHue> {
    let colors = Colors { points };
    let clusters = cluster_colors(colors.points.len(), &colors).unwrap();
    clusters
        .iter()
        .map(|c| centroid(&colors.members(c)).hue())
        .collect()
}

#[test]
fn unclusters_low_frequencies() {
    let hues = clustered_hues(vec![
        profile(1.0, 0.0, 0.0, 101.0 / 144.0),
        profile(0.9385, 0.027, 255.0, 2.0 / 144.0),
        profile(0.9385, 0.027, 345.0, 2.0 / 144.0),
        profile(0.9385, 0.027, 75.0, 38.0 / 144.0),
        profile(0.9385, 0.027, 165.0, 1.0 / 144.0),
    ]);
    for h in &hues {
        println!("Found hue of {}", h.into_positive_degrees());
    }
    assert!(hues.iter().any(|h| hue_difference(*h, OklabHue::from_degrees(75.0)) < 0.001));
    assert!(hues.iter().any(|h| hue_difference(*h, OklabHue::from_degrees(255.0)) < 0.001));
    assert!(hues.iter().any(|h| hue_difference(*h, OklabHue::from_degrees(345.0)) < 0.001));
    assert!(hues.iter().any(|h| hue_difference(*h, OklabHue::from_degrees(165.0)) < 0.001));
}

#[test]
fn unclusters_hue_differences() {
    let hues = clustered_hues(vec![
        profile(0.8, 0.2, 130.0, 0.25),
        profile(0.8, 0.1, 210.0, 0.5),
        profile(0.8, 0.1, 255.0, 0.25),
    ]);
    for h in &hues {
        println!("Found hue of {}", h.into_positive_degrees());
    }
    assert!(hues.iter().any(|h| hue_difference(*h, OklabHue::from_degrees(130.0)) < 0.001));
    assert!(hues.iter().any(|h| hue_difference(*h, OklabHue::from_degrees(210.0)) < 0.001));
    assert!(hues.iter().any(|h| hue_difference(*h, OklabHue::from_degrees(255.0)) < 0.001));
}

#[test]
fn clusters_low_hue_differences() {
    let hues = clustered_hues(vec![
        profile(0.8, 0.2, 130.0, 0.25),
        profile(0.8, 0.1, 210.0, 0.65),
        profile(0.8, 0.07, 230.0, 0.1),
    ]);
    for h in &hues {
        println!("Found hue of {}", h.into_positive_degrees());
    }
    assert!(hues.iter().any(|h| hue_difference(*h, OklabHue::from_degrees(130.0)) < 0.001));
    assert!(hues.iter().all(|h| hue_difference(*h, OklabHue::from_degrees(210.0)) > 0.05));
}

#[test]
fn unclusters_high_chroma_differences() {
    let hues = clustered_hues(vec![
        profile(0.8, 0.2, 130.0, 0.25),
        profile(0.8, 0.02, 210.0, 0.615),
        profile(0.8, 0.10, 210.0, 0.035),
    ]);
    for h in &hues {
        println!("Found hue of {}", h.into_positive_degrees());
    }
    assert!(hues.iter().any(|h| hue_difference(*h, OklabHue::from_degrees(130.0)) < 0.001));
    assert!(
        hues.iter()
            .filter(|h| hue_difference(**h, OklabHue::from_degrees(210.0)) < 0.001)
            .count()
            == 2
    );
}

// Linkages with fixed answers, for the merge order itself.

/// Every pair is equally similar and always merged.
struct AlwaysMerge;

impl Linkage for AlwaysMerge {
    fn dissimilarity_key(&self, _left: &[usize], _right: &[usize]) -> u64 {
        7
    }
    fn exceeds_merge_threshold(&self, _left: &[usize], _right: &[usize]) -> bool {
        false
    }
}

/// No pair is ever merged.
struct NeverMerge;

impl Linkage for NeverMerge {
    fn dissimilarity_key(&self, left: &[usize], right: &[usize]) -> u64 {
        (left[0] * 10 + right[0]) as u64
    }
    fn exceeds_merge_threshold(&self, _left: &[usize], _right: &[usize]) -> bool {
        true
    }
}

/// Points on a line: clusters are as far apart as their first members.
struct OnALine {
    positions: Vec<u64>,
    threshold: u64,
}

impl Linkage for OnALine {
    fn dissimilarity_key(&self, left: &[usize], right: &[usize]) -> u64 {
        self.positions[left[0]].abs_diff(self.positions[right[0]])
    }
    fn exceeds_merge_threshold(&self, left: &[usize], right: &[usize]) -> bool {
        self.dissimilarity_key(left, right) > self.threshold
    }
}

/// Each input index appears in exactly one cluster, once.
fn assert_partition(clusters: &[Vec<usize>], n: usize) {
    let mut seen = vec![0usize; n];
    for c in clusters {
        assert!(!c.is_empty());
        for &i in c {
            assert!(i < n);
            seen[i] += 1;
        }
    }
    assert!(seen.iter().all(|&k| k == 1));
}

#[test]
fn clustering_nothing_gives_nothing() {
    assert_eq!(cluster_colors(0, &AlwaysMerge), Ok(vec![]));
}

#[test]
fn clustering_one_input_gives_it_back() {
    assert_eq!(cluster_colors(1, &AlwaysMerge), Ok(vec![vec![0]]));
}

#[test]
fn merging_the_only_two_inputs_is_an_internal_error() {
    assert_eq!(cluster_colors(2, &AlwaysMerge), Err(ClusterError::InternalError));
    assert_eq!(cluster_colors(2, &NeverMerge), Ok(vec![vec![0], vec![1]]));
}

#[test]
fn nothing_merged_above_threshold() {
    let clusters = cluster_colors(5, &NeverMerge).unwrap();
    assert_eq!(clusters, vec![vec![0], vec![1], vec![2], vec![3], vec![4]]);
}

#[test]
fn merging_stops_at_two_clusters() {
    let clusters = cluster_colors(5, &AlwaysMerge).unwrap();
    assert_eq!(clusters.len(), 2);
    assert_partition(&clusters, 5);
    // With every key equal, the lowest queued index is taken first.
    assert_eq!(clusters, vec![vec![3, 2], vec![1, 0, 4]]);
}

#[test]
fn nearest_pairs_merge_first() {
    let line = OnALine {
        positions: vec![0, 100, 1, 101, 50],
        threshold: 5,
    };
    let clusters = cluster_colors(5, &line).unwrap();
    assert_partition(&clusters, 5);
    assert_eq!(clusters, vec![vec![4], vec![2, 0], vec![3, 1]]);
}

#[test]
fn clustering_is_a_partition() {
    let line = OnALine {
        positions: vec![3, 9, 27, 4, 10, 28, 5, 11],
        threshold: 3,
    };
    let clusters = cluster_colors(8, &line).unwrap();
    assert_partition(&clusters, 8);
    assert!(clusters.len() >= 2);
}

#[test]
fn merge_lists_left_then_right() {
    assert_eq!(merge(&vec![3, 1], &vec![2]), vec![3, 1, 2]);
    assert_eq!(merge(&vec![], &vec![5]), vec![5]);
}

/// Keys given by a table over the sorted members of the two clusters; unlisted pairs are far apart.
struct Table {
    keys: Vec<(Vec<usize>, Vec<usize>, u64)>,
}

impl Table {
    fn key(&self, left: &[usize], right: &[usize]) -> u64 {
        let mut l = left.to_vec();
        let mut r = right.to_vec();
        l.sort();
        r.sort();
        for (a, b, k) in &self.keys {
            if (*a == l && *b == r) || (*a == r && *b == l) {
                return *k;
            }
        }
        200
    }
}

impl Linkage for Table {
    fn dissimilarity_key(&self, left: &[usize], right: &[usize]) -> u64 {
        self.key(left, right)
    }
    fn exceeds_merge_threshold(&self, _left: &[usize], _right: &[usize]) -> bool {
        false
    }
}

#[test]
fn a_merged_cluster_pairs_with_its_least_dissimilar_neighbour() {
    let table = Table {
        keys: vec![
            (vec![0], vec![1], 1),
            (vec![0, 1], vec![3], 2),
            (vec![0, 1], vec![2], 100),
            (vec![2], vec![3], 50),
        ],
    };
    assert_eq!(cluster_colors(4, &table), Ok(vec![vec![2], vec![1, 0, 3]]));
}
