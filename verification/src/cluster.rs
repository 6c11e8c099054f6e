//! Color clustering of a keyed image with visioncortex: the runner settings that the logo
//! preset derives from the user's options, and the clustering call itself.

use vstd::prelude::*;
use crate::color::Color;
use crate::image::ColorImage;
use visioncortex::color_clusters::{Clusters, Runner, RunnerConfig};
use visioncortex::color_clusters::KeyingAction as VcKeyingAction;
use visioncortex::Color as VcColor;
use visioncortex::ColorImage as VcColorImage;

verus! {

/// The clusters found in an image; opaque here, read by the path extraction.
#[verifier::external_type_specification]
#[verifier::external_body]
pub struct ExClusters(Clusters);

/// What the clustering does with pixels of the key color.
#[derive(Clone, Copy, Debug, PartialEq, Eq, Structural)]
pub enum KeyingAction {
    Keep,
    Discard,
}

/// The settings of a clustering run, field for field those of visioncortex's
/// `RunnerConfig`.
#[derive(Clone, Copy, Debug, PartialEq, Eq, Structural)]
pub struct ClusterSettings {
    pub diagonal: bool,
    pub hierarchical: u32,
    pub batch_size: i32,
    pub good_min_area: usize,
    pub good_max_area: usize,
    pub is_same_color_a: i32,
    pub is_same_color_b: i32,
    pub deepen_diff: i32,
    pub hollow_neighbours: usize,
    pub key_color: Color,
    pub keying_action: KeyingAction,
}

/// The settings of the logo preset for a `width` x `height` image: four-way connectivity,
/// full hierarchy, batches of 25600 pixels, clusters smaller than `filter_speckle`
/// squared pixels dropped, colors compared on their `color_precision` most significant
/// bits, a deepening difference of 16, and pixels of `key_color` discarded.
pub open spec fn logo_cluster_settings(
    width: usize,
    height: usize,
    color_precision: i32,
    filter_speckle: usize,
    key_color: Color,
) -> ClusterSettings {
    ClusterSettings {
        diagonal: false,
        hierarchical: u32::MAX,
        batch_size: 25600,
        good_min_area: (filter_speckle * filter_speckle) as usize,
        good_max_area: (width * height) as usize,
        is_same_color_a: (8 - color_precision) as i32,
        is_same_color_b: 1,
        deepen_diff: 16,
        hollow_neighbours: 1,
        key_color,
        keying_action: KeyingAction::Discard,
    }
}

/// Computes the logo preset's clustering settings (see `logo_cluster_settings`).
pub fn cluster_settings(
    width: usize,
    height: usize,
    color_precision: i32,
    filter_speckle: usize,
    key_color: Color,
) -> (s: ClusterSettings)
    requires
        1 <= color_precision <= 8,
        filter_speckle * filter_speckle <= usize::MAX,
        width * height <= usize::MAX,
    ensures
        s == logo_cluster_settings(width, height, color_precision, filter_speckle, key_color),
        s.key_color == key_color,
        s.good_min_area == filter_speckle * filter_speckle,
        s.good_max_area == width * height,
        s.is_same_color_a == 8 - color_precision,
{
    ClusterSettings {
        diagonal: false,
        hierarchical: u32::MAX,
        batch_size: 25600,
        good_min_area: filter_speckle * filter_speckle,
        good_max_area: width * height,
        is_same_color_a: 8 - color_precision,
        is_same_color_b: 1,
        deepen_diff: 16,
        hollow_neighbours: 1,
        key_color,
        keying_action: KeyingAction::Discard,
    }
}

/// The logo preset hands the key color on unchanged, alpha included (transparent black,
/// the "nothing keyed" color, stays transparent so that no opaque color is discarded),
/// always discards it, and compares colors on their `color_precision` most significant
/// bits.
pub proof fn lemma_logo_settings_keep_the_key(
    width: usize,
    height: usize,
    color_precision: i32,
    filter_speckle: usize,
    key_color: Color,
)
    requires
        1 <= color_precision <= 8,
    ensures
        logo_cluster_settings(width, height, color_precision, filter_speckle, key_color).key_color.r == key_color.r,
        logo_cluster_settings(width, height, color_precision, filter_speckle, key_color).key_color.g == key_color.g,
        logo_cluster_settings(width, height, color_precision, filter_speckle, key_color).key_color.b == key_color.b,
        logo_cluster_settings(width, height, color_precision, filter_speckle, key_color).key_color.a == key_color.a,
        logo_cluster_settings(width, height, color_precision, filter_speckle, key_color).keying_action == KeyingAction::Discard,
        logo_cluster_settings(width, height, color_precision, filter_speckle, key_color).is_same_color_a + color_precision == 8,
{
}

/// The clusters that visioncortex's runner finds in an image with given settings.
pub uninterp spec fn clustering_of(pixels: Seq<u8>, width: usize, height: usize, settings: ClusterSettings) -> Clusters;

/// Calls `visioncortex::color_clusters::Runner::new(config, image).run()`, the fields of
/// `config` and of `image` taken one for one from `settings` and `image`. The clusters are
/// claimed to be a function of the pixels, the size and the settings alone; nothing is
/// said of what they hold. The runner asserts `is_same_color_a < 8`, shifts color bytes
/// by that amount, never finishes its first stage when the batch size is 0, and sums the
/// channels of a cluster's pixels in `u32`, which overflows past `u32::MAX / 255`
/// (16,843,009) pixels: those inputs are left out.
#[verifier::external_body]
fn run_clustering(image: ColorImage, settings: &ClusterSettings) -> (clusters: Clusters)
    requires
        image.wf(),
        image.width > 0,
        image.height > 0,
        image.width * image.height <= 16_843_009,
        0 <= settings.is_same_color_a < 8,
        settings.batch_size > 0,
    ensures
        clusters == clustering_of(image.pixels@, image.width, image.height, *settings),
{
    let s = settings;
    let key = VcColor::new_rgba(s.key_color.r, s.key_color.g, s.key_color.b, s.key_color.a);
    let keying_action = match s.keying_action {
        KeyingAction::Keep => VcKeyingAction::Keep,
        KeyingAction::Discard => VcKeyingAction::Discard,
    };
    let config = RunnerConfig { diagonal: s.diagonal, hierarchical: s.hierarchical, batch_size: s.batch_size,
        good_min_area: s.good_min_area, good_max_area: s.good_max_area, is_same_color_a: s.is_same_color_a,
        is_same_color_b: s.is_same_color_b, deepen_diff: s.deepen_diff, hollow_neighbours: s.hollow_neighbours,
        key_color: key, keying_action };
    let img = VcColorImage { pixels: image.pixels, width: image.width, height: image.height };
    Runner::new(config, img).run()
}

/// Clusters a keyed image with the logo preset's settings (see `logo_cluster_settings`).
pub fn cluster_image(image: ColorImage, key_color: Color, color_precision: i32, filter_speckle: usize) -> (clusters: Clusters)
    requires
        image.wf(),
        image.width > 0,
        image.height > 0,
        image.width * image.height <= 16_843_009,
        1 <= color_precision <= 8,
        filter_speckle * filter_speckle <= usize::MAX,
    ensures
        clusters == clustering_of(
            image.pixels@,
            image.width,
            image.height,
            logo_cluster_settings(image.width, image.height, color_precision, filter_speckle, key_color),
        ),
{
    let settings = cluster_settings(image.width, image.height, color_precision, filter_speckle, key_color);
    run_clustering(image, &settings)
}

} // verus!
