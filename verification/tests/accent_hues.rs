use ordered_float::OrderedFloat;
use palette::convert::FromColorUnclamped;
use palette::{Oklab, OklabHue, Oklch};
use thaimeleon_lib::accent_hues::{generate, AccentHueBuilderError, AccentHuePicker};
use thaimeleon_lib::cluster::{cluster_colors, ClusterError, Linkage};

// The color arithmetic of the scheme generator, for driving the picking on real colors.

#[derive(Clone, Copy, Debug)]
struct Ab {
    a: f32,
    b: f32,
}

impl Ab {
    fn hue(&self) -> OklabHue {
        OklabHue::from_cartesian(self.a, self.b)
    }
    fn chroma(&self) -> f32 {
        (self.a.powi(2) + self.b.powi(2)).sqrt()
    }
    fn custom_root_chroma(&self) -> Ab {
        let hue_cos = self.hue().into_radians().cos();
        let hue_sin = self.hue().into_radians().sin();
        Ab {
            a: (self.a / hue_cos).powf(0.6) * hue_cos,
            b: (self.b / hue_sin).powf(0.6) * hue_sin,
        }
    }
    fn distance_squared(self, other: Ab) -> f32 {
        (self.a - other.a).powi(2) + (self.b - other.b).powi(2)
    }
}

fn hue_difference(x: OklabHue, y: OklabHue) -> f32 {
    let hue_difference = (x - y).into_positive_degrees().rem_euclid(360.0);
    if hue_difference > 180.0 {
        360.0 - hue_difference
    } else {
        hue_difference
    }
}

fn hue_difference_directional(x: OklabHue, y: OklabHue) -> f32 {
    if y.into_positive_degrees() == x.into_positive_degrees() {
        0.0
    } else if y.into_positive_degrees() > x.into_positive_degrees() {
        y.into_positive_degrees() - x.into_positive_degrees()
    } else {
        y.into_positive_degrees() + 360.0 - x.into_positive_degrees()
    }
}

fn is_between_hues(min: OklabHue, test_hue: OklabHue, max: OklabHue) -> bool {
    hue_difference_directional(min, test_hue) <= hue_difference_directional(min, max)
}

fn find_largest_gap(hues: &mut [OklabHue]) -> (usize, f32) {
    hues.sort_by_key(|c| OrderedFloat(c.into_positive_degrees()));
    let mut index_with_largest_gap = 0;
    let mut largest_gap_length = f32::NEG_INFINITY;
    for i in 0..hues.len() {
        let gap_length = if i == hues.len() - 1 && (hues[i] == hues[(i + 1) % hues.len()]) {
            360.0
        } else {
            hue_difference_directional(hues[i], hues[(i + 1) % hues.len()])
        };
        if gap_length >= largest_gap_length {
            largest_gap_length = gap_length;
            index_with_largest_gap = i;
        }
    }
    (index_with_largest_gap, largest_gap_length)
}

#[derive(Clone, Copy, Debug)]
struct Profile {
    ab: Ab,
    portion: f32,
}

fn profile(l: f32, c: f32, h: f32, portion: f32) -> Profile {
    let lab = Oklab::from_color_unclamped(Oklch::new(l, c, h));
    Profile {
        ab: Ab { a: lab.a, b: lab.b },
        portion,
    }
}

fn portion(points: &[Profile]) -> f32 {
    points.iter().fold(0.0, |acc, p| acc + p.portion)
}

fn weighted_sum(points: &[Profile], rooted: bool) -> Ab {
    let sum = points.iter().fold(Ab { a: 0.0, b: 0.0 }, |acc, p| {
        let v = if rooted { p.ab.custom_root_chroma() } else { p.ab };
        Ab {
            a: acc.a + v.a * p.portion,
            b: acc.b + v.b * p.portion,
        }
    });
    let w = portion(points);
    Ab { a: sum.a / w, b: sum.b / w }
}

fn dissimilarity(left: &[Profile], right: &[Profile]) -> f32 {
    let centriod_a = weighted_sum(left, true);
    let centriod_b = weighted_sum(right, true);
    let max_hue_difference = left
        .iter()
        .map(|p| {
            right
                .iter()
                .map(|q| OrderedFloat(hue_difference(q.ab.hue(), p.ab.hue())))
                .max()
                .unwrap()
        })
        .max()
        .unwrap();
    if max_hue_difference > OrderedFloat(90.0)
        || hue_difference(centriod_a.hue(), centriod_b.hue()) > 60.0
    {
        f32::INFINITY
    } else {
        centriod_a.distance_squared(centriod_b) * (portion(left) * portion(right))
            / (portion(left) + portion(right))
    }
}

fn order_key(x: f32) -> u64 {
    if x.is_nan() {
        return u64::MAX;
    }
    let x = if x == 0.0 { 0.0f32 } else { x };
    let bits = x.to_bits();
    let key = if bits & 0x8000_0000 != 0 { !bits } else { bits | 0x8000_0000 };
    key as u64
}

struct Colors {
    points: Vec<Profile>,
}

impl Colors {
    fn members(&self, indices: &[usize]) -> Vec<Profile> {
        indices.iter().map(|&i| self.points[i]).collect()
    }
}

impl Linkage for Colors {
    fn dissimilarity_key(&self, left: &[usize], right: &[usize]) -> u64 {
        order_key(dissimilarity(&self.members(left), &self.members(right)))
    }
    fn exceeds_merge_threshold(&self, left: &[usize], right: &[usize]) -> bool {
        dissimilarity(&self.members(left), &self.members(right)) > 0.0008
    }
}

struct Picker {
    chroma_weight: f32,
    penalty_weight: f32,
    miniumum_degrees: f32,
    prefered_degrees: f32,
    hue_center: OklabHue,
    colors: Vec<Profile>,
}

impl Picker {
    fn score(&self, c: Profile) -> f32 {
        c.ab.chroma().powf(self.chroma_weight) * c.portion
    }
    fn factor(&self, h: Profile, picked: &[OklabHue]) -> f32 {
        (1.0 - picked.iter().fold(0.0, |acc, &p| {
            let diff = hue_difference(h.ab.hue(), p);
            if diff < self.prefered_degrees {
                acc + (50.0 - diff) / self.prefered_degrees
            } else {
                acc
            }
        }))
        .max(0.0)
        .powf(self.penalty_weight)
    }
    fn scorewise(&self, picked: &[OklabHue]) -> Option<OklabHue> {
        Some(
            self.colors
                .iter()
                .max_by_key(|h| OrderedFloat(self.score(**h) * self.factor(**h, picked)))?
                .ab
                .hue(),
        )
    }
}

impl AccentHuePicker<OklabHue> for Picker {
    fn evenly_spaced_hue(&self, i: usize, n: usize) -> OklabHue {
        OklabHue::from_degrees(i as f32 * 360.0 / n as f32)
    }
    fn primary_hue(&self) -> Option<OklabHue> {
        let adjacent = self
            .colors
            .iter()
            .filter(|c| self.prefered_degrees > hue_difference(c.ab.hue(), self.hue_center));
        match adjacent.max_by_key(|&c| OrderedFloat(self.score(*c))) {
            Some(c) => Some(c.ab.hue()),
            None => Some(
                self.colors
                    .iter()
                    .min_by_key(|c| OrderedFloat(hue_difference(c.ab.hue(), self.hue_center)))?
                    .ab
                    .hue(),
            ),
        }
    }
    fn scorewise_hue(&self, picked: &[OklabHue]) -> Option<OklabHue> {
        let mut new_hue = self.scorewise(picked).unwrap();
        let mut has_moved = false;
        for &hue in picked {
            if hue_difference(hue, new_hue) < self.miniumum_degrees {
                if has_moved {
                    return None;
                } else {
                    if hue_difference_directional(hue, new_hue) < 180.0 {
                        new_hue = OklabHue::from_degrees(hue.into_degrees() + self.miniumum_degrees);
                    } else {
                        new_hue = OklabHue::from_degrees(hue.into_degrees() - self.miniumum_degrees);
                    }
                    has_moved = true;
                }
            }
        }
        Some(new_hue)
    }
    fn centerwise_hue(&self, picked: &[OklabHue]) -> Option<OklabHue> {
        let mut possible_hues: Vec<OklabHue> = Vec::with_capacity(3);
        let mut sorted_hues = picked.to_vec();
        sorted_hues.sort_by_key(|c| OrderedFloat(c.into_positive_degrees()));
        let mut iter = sorted_hues.iter().peekable();
        while let Some(&hue) = iter.next() {
            let next_hue = match iter.peek() {
                Some(x) => **x,
                None => sorted_hues[0],
            };
            if hue_difference_directional(hue, next_hue) > self.miniumum_degrees * 2.0
                || picked.len() == 1
            {
                possible_hues.push(OklabHue::from_degrees(hue.into_degrees() + self.miniumum_degrees));
                possible_hues.push(OklabHue::from_degrees(next_hue.into_degrees() - self.miniumum_degrees));
                if is_between_hues(hue, self.hue_center, next_hue)
                    && hue_difference_directional(hue, self.hue_center) >= self.miniumum_degrees
                    && hue_difference_directional(self.hue_center, next_hue) >= self.miniumum_degrees
                {
                    possible_hues.push(self.hue_center);
                }
            }
        }
        possible_hues
            .into_iter()
            .min_by_key(|hue| OrderedFloat(hue_difference(self.hue_center, *hue)))
    }
    fn largest_gap_hue(&self, picked: &[OklabHue]) -> OklabHue {
        let mut sorted_hues = picked.to_vec();
        let (i, gap) = find_largest_gap(&mut sorted_hues);
        OklabHue::from_degrees(sorted_hues[i].into_raw_degrees() + gap / 2.0)
    }
}

#[test]
fn accent_hues_of_three_profiles() {
    let img_profile = vec![
        profile(0.8, 0.2, 130.0, 0.3333),
        profile(0.8, 0.1, 210.0, 0.3333),
        profile(0.8, 0.02, 250.0, 0.3334),
    ];
    let colors = Colors { points: img_profile };
    let clusters = cluster_colors(colors.points.len(), &colors).unwrap();
    let clustered: Vec<Profile> = clusters
        .iter()
        .map(|c| {
            let members = colors.members(c);
            Profile {
                ab: weighted_sum(&members, false),
                portion: portion(&members),
            }
        })
        .filter(|p| p.ab.chroma() > 0.004)
        .collect();
    let picker = Picker {
        chroma_weight: 0.75,
        penalty_weight: 2.0,
        miniumum_degrees: 45.0,
        prefered_degrees: 50.0,
        hue_center: OklabHue::from_degrees(50.0),
        colors: clustered,
    };
    let accent_hues: [OklabHue; 6] = generate(&picker, 6).unwrap().try_into().unwrap();

    // First value: find the most obvious accent
    // Second value: find the second most obvious accent + don't cluster with hue 250
    // Third value: find the third most obvious accent + restore hue angle min
    // Fourth value: pick the hue center
    // Fifth and sixth: pick accent hue nearby the hue center
    let expected = [130.0f32, 210.0, 255.0, 50.0, 5.0, 320.0];
    for (hue, want) in accent_hues.iter().zip(expected) {
        let got = hue.into_positive_degrees();
        assert!((got - want).abs() < 0.001, "got {got}, expected {want}");
    }
}

// Pickers with fixed answers, for the order of the phases.

/// Hues are whole degrees; records nothing, answers by a script.
struct Scripted {
    primary: Option<u32>,
    scorewise_limit: usize,
    centerwise_limit: usize,
}

impl AccentHuePicker<u32> for Scripted {
    fn evenly_spaced_hue(&self, i: usize, n: usize) -> u32 {
        (i * 360 / n) as u32
    }
    fn primary_hue(&self) -> Option<u32> {
        self.primary
    }
    fn scorewise_hue(&self, picked: &[u32]) -> Option<u32> {
        if picked.len() < self.scorewise_limit {
            Some(1000 + picked.len() as u32)
        } else {
            None
        }
    }
    fn centerwise_hue(&self, picked: &[u32]) -> Option<u32> {
        if picked.len() < self.centerwise_limit {
            Some(2000 + picked.len() as u32)
        } else {
            None
        }
    }
    fn largest_gap_hue(&self, picked: &[u32]) -> u32 {
        3000 + picked.len() as u32
    }
}

#[test]
fn without_colors_hues_are_spread_evenly() {
    let picker = Scripted { primary: None, scorewise_limit: 0, centerwise_limit: 0 };
    assert_eq!(generate(&picker, 4), Ok(vec![0, 90, 180, 270]));
    assert_eq!(generate(&picker, 0), Ok(vec![]));
}

#[test]
fn phases_come_in_order() {
    let picker = Scripted { primary: Some(7), scorewise_limit: 3, centerwise_limit: 4 };
    assert_eq!(generate(&picker, 6), Ok(vec![7, 1001, 1002, 2003, 3004, 3005]));
}

#[test]
fn scorewise_can_fill_everything() {
    let picker = Scripted { primary: Some(1), scorewise_limit: 100, centerwise_limit: 100 };
    assert_eq!(generate(&picker, 3), Ok(vec![1, 1001, 1002]));
}

#[test]
fn with_colors_the_primary_hue_is_always_given() {
    let picker = Scripted { primary: Some(42), scorewise_limit: 100, centerwise_limit: 100 };
    assert_eq!(generate(&picker, 0), Ok(vec![42]));
}

#[test]
fn without_a_primary_hue_the_phases_are_skipped() {
    let picker = Scripted { primary: None, scorewise_limit: 100, centerwise_limit: 100 };
    assert_eq!(generate(&picker, 3), Ok(vec![0, 120, 240]));
}

#[test]
fn no_colors_give_evenly_spaced_hues() {
    let picker = Picker {
        chroma_weight: 0.75,
        penalty_weight: 2.0,
        miniumum_degrees: 45.0,
        prefered_degrees: 50.0,
        hue_center: OklabHue::from_degrees(50.0),
        colors: vec![],
    };
    let hues: Vec<f32> = generate(&picker, 4).unwrap().iter().map(|h| h.into_positive_degrees()).collect();
    assert_eq!(hues, vec![0.0, 90.0, 180.0, 270.0]);
}

#[test]
fn cluster_errors_convert() {
    assert_eq!(
        AccentHueBuilderError::from(ClusterError::InternalError),
        AccentHueBuilderError::Cluster(ClusterError::InternalError)
    );
}
