use glitch_canvas::blend::{blend_composites, canvas_size};
use glitch_canvas::boxes::{iou_exceeds_exec, CandidateBox, SuppressionConfig};
use glitch_canvas::compose::{apply_glitch_art_2, clamp_snippet, gray_to_color, label_anchor, SnippetLimits};
use glitch_canvas::decode::{decode_candidates, detect_objects, DetectError, Geometry, RawOutput};
use glitch_canvas::edges::{apply_sobel_edge_detection, edge_value, edges_from_gradients};
use glitch_canvas::raster::{background_pixel, ColorImage, GrayImage, Rgba};
use glitch_canvas::suppress::non_max_suppression;

fn rgba(r: u8, g: u8, b: u8, a: u8) -> Rgba {
    Rgba { r, g, b, a }
}

fn boxed(left: u32, top: u32, width: u32, height: u32, class_id: u32, score: u32) -> CandidateBox {
    CandidateBox { left, top, width, height, class_id, score }
}

fn half_iou() -> SuppressionConfig {
    SuppressionConfig { iou_num: 1, iou_den: 2, score_threshold: 0 }
}

#[test]
fn blend_single_bright_pixel_over_black() {
    let black = ColorImage::filled(4, 4, background_pixel());
    let mut lit = ColorImage::filled(4, 4, background_pixel());
    lit.put_pixel(1, 1, rgba(200, 100, 50, 255));
    let canvas = blend_composites(&vec![black, ColorImage::filled(4, 4, background_pixel()), lit], 4, 4);
    for y in 0..4 {
        for x in 0..4 {
            let want = if x == 1 && y == 1 { rgba(200, 100, 50, 255) } else { rgba(0, 0, 0, 255) };
            assert_eq!(canvas.get_pixel(x, y), want);
        }
    }
}

#[test]
fn blend_takes_channel_max_and_last_alpha() {
    let a = ColorImage::filled(2, 2, rgba(10, 200, 30, 255));
    let b = ColorImage::filled(2, 2, rgba(100, 20, 30, 7));
    let canvas = blend_composites(&vec![a, b], 2, 2);
    assert_eq!(canvas.get_pixel(0, 0), rgba(100, 200, 30, 7));
}

#[test]
fn blend_tiles_smaller_images() {
    let mut small = ColorImage::filled(2, 2, background_pixel());
    small.put_pixel(1, 0, rgba(9, 9, 9, 255));
    let canvas = blend_composites(&vec![small], 4, 3);
    assert_eq!(canvas.get_pixel(3, 2), rgba(9, 9, 9, 255));
    assert_eq!(canvas.get_pixel(1, 1), rgba(0, 0, 0, 255));
    assert_eq!(canvas.get_pixel(2, 1), rgba(0, 0, 0, 255));
}

#[test]
fn canvas_size_is_smallest_sides() {
    let imgs = vec![ColorImage::filled(5, 2, background_pixel()), ColorImage::filled(3, 4, background_pixel())];
    assert_eq!(canvas_size(&imgs), (3, 2));
    assert_eq!(canvas_size(&vec![]), (u32::MAX, u32::MAX));
}

#[test]
fn suppression_drops_box_over_threshold() {
    // IoU = 102 / 200 = 0.51
    let boxes = vec![boxed(0, 0, 151, 1, 0, 900), boxed(49, 0, 151, 1, 0, 800)];
    assert_eq!(non_max_suppression(&boxes, &half_iou()), vec![0]);
}

#[test]
fn suppression_keeps_box_under_threshold() {
    // IoU = 98 / 200 = 0.49
    let boxes = vec![boxed(0, 0, 149, 1, 0, 900), boxed(51, 0, 149, 1, 0, 800)];
    assert_eq!(non_max_suppression(&boxes, &half_iou()), vec![0, 1]);
}

#[test]
fn suppression_keeps_the_higher_score() {
    let boxes = vec![boxed(0, 0, 10, 10, 0, 100), boxed(0, 0, 10, 10, 0, 500)];
    assert_eq!(non_max_suppression(&boxes, &half_iou()), vec![1]);
}

#[test]
fn suppression_ties_go_to_lower_index() {
    let boxes = vec![boxed(5, 5, 10, 10, 0, 300), boxed(5, 5, 10, 10, 0, 300)];
    assert_eq!(non_max_suppression(&boxes, &half_iou()), vec![0]);
}

#[test]
fn suppression_ignores_other_classes() {
    let boxes = vec![boxed(0, 0, 10, 10, 0, 100), boxed(0, 0, 10, 10, 1, 500)];
    assert_eq!(non_max_suppression(&boxes, &half_iou()), vec![1, 0]);
}

#[test]
fn suppression_drops_low_scores() {
    let cfg = SuppressionConfig { iou_num: 1, iou_den: 2, score_threshold: 200 };
    let boxes = vec![boxed(0, 0, 10, 10, 0, 100), boxed(50, 50, 10, 10, 0, 200)];
    assert_eq!(non_max_suppression(&boxes, &cfg), vec![1]);
}

#[test]
fn suppression_again_keeps_everything() {
    let boxes = vec![
        boxed(0, 0, 10, 10, 0, 100),
        boxed(1, 1, 10, 10, 0, 300),
        boxed(40, 40, 10, 10, 0, 200),
        boxed(2, 2, 10, 10, 1, 50),
    ];
    let first = non_max_suppression(&boxes, &half_iou());
    let kept: Vec<CandidateBox> = first.iter().map(|&i| boxes[i]).collect();
    let again = non_max_suppression(&kept, &half_iou());
    assert_eq!(again, (0..kept.len()).collect::<Vec<usize>>());
}

#[test]
fn permissive_threshold_keeps_duplicates() {
    let cfg = SuppressionConfig { iou_num: 10, iou_den: 1, score_threshold: 0 };
    let boxes = vec![boxed(0, 0, 10, 10, 0, 100), boxed(0, 0, 10, 10, 0, 90)];
    assert_eq!(non_max_suppression(&boxes, &cfg), vec![0, 1]);
}

#[test]
fn iou_of_identical_boxes_exceeds() {
    let a = boxed(0, 0, 4, 4, 0, 1);
    assert!(iou_exceeds_exec(&a, &a, &half_iou()));
    let zero = boxed(3, 3, 0, 0, 0, 1);
    assert!(!iou_exceeds_exec(&zero, &zero, &half_iou()));
}

#[test]
fn snippet_clamps_to_remaining_extent() {
    let det = boxed(500, 500, 1000, 1000, 0, 1);
    let lim = SnippetLimits { max_width: 600, max_height: 600 };
    assert_eq!(clamp_snippet(&det, 600, 600, &lim), Some((100, 100)));
}

#[test]
fn snippet_clamps_to_limits() {
    let det = boxed(0, 0, 1000, 50, 0, 1);
    let lim = SnippetLimits { max_width: 600, max_height: 600 };
    assert_eq!(clamp_snippet(&det, 2000, 2000, &lim), Some((600, 50)));
}

#[test]
fn snippet_off_image_is_dropped() {
    let lim = SnippetLimits { max_width: 600, max_height: 600 };
    assert_eq!(clamp_snippet(&boxed(600, 0, 5, 5, 0, 1), 600, 600, &lim), None);
    assert_eq!(clamp_snippet(&boxed(0, 600, 5, 5, 0, 1), 600, 600, &lim), None);
}

#[test]
fn label_centred_on_snippet() {
    assert_eq!(label_anchor(500, 500, 100, 100, 40, 20), (530, 540));
    assert_eq!(label_anchor(0, 0, 2, 2, 40, 20), (-19, -9));
}

#[test]
fn gray_becomes_opaque_grey() {
    let g = GrayImage { width: 2, height: 1, pixels: vec![0, 77] };
    let c = gray_to_color(&g);
    assert_eq!(c.get_pixel(1, 0), rgba(77, 77, 77, 255));
    assert_eq!(c.get_pixel(0, 0), rgba(0, 0, 0, 255));
}

#[test]
fn composite_overlays_and_labels() {
    let img = ColorImage::filled(600, 600, rgba(1, 2, 3, 255));
    let edge = GrayImage { width: 600, height: 600, pixels: vec![50; 600 * 600] };
    let dets = vec![boxed(500, 500, 1000, 1000, 1, 9), boxed(700, 0, 5, 5, 0, 9), boxed(10, 20, 4, 6, 0, 9)];
    let labels = vec!["cat".to_string(), "dog".to_string()];
    let sizes = vec![(30, 10), (40, 20)];
    let lim = SnippetLimits { max_width: 600, max_height: 600 };
    let (out, placed) = apply_glitch_art_2(&img, &edge, &dets, &labels, &sizes, &lim);
    assert_eq!(out.get_pixel(500, 500), rgba(1, 2, 3, 255));
    assert_eq!(out.get_pixel(599, 599), rgba(1, 2, 3, 255));
    assert_eq!(out.get_pixel(499, 500), rgba(50, 50, 50, 255));
    assert_eq!(out.get_pixel(13, 25), rgba(1, 2, 3, 255));
    assert_eq!(out.get_pixel(14, 25), rgba(50, 50, 50, 255));
    assert_eq!(placed.len(), 2);
    assert_eq!((placed[0].text.as_str(), placed[0].x, placed[0].y), ("dog", 530, 540));
    assert_eq!((placed[1].text.as_str(), placed[1].x, placed[1].y), ("cat", -3, 18));
}

fn one_anchor_output(cx: i64, cy: i64, w: i64, h: i64, score: i64) -> RawOutput {
    RawOutput { n_attrs: 5, n_anchors: 1, values: vec![cx, cy, w, h, score] }
}

#[test]
fn decode_scales_to_original_pixels() {
    let out = one_anchor_output(10_000, 20_000, 4_000, 6_000, 900_000);
    let geo = Geometry { image_width: 200, image_height: 300, model_width: 100, model_height: 200 };
    assert_eq!(decode_candidates(&out, 1, &geo, 0), vec![boxed(16, 25, 7, 8, 0, 900_000)]);
}

#[test]
fn decode_clamps_negative_edges_and_degenerate_sizes() {
    let out = one_anchor_output(0, 0, 0, 0, 5);
    let geo = Geometry { image_width: 100, image_height: 100, model_width: 100, model_height: 100 };
    assert_eq!(decode_candidates(&out, 1, &geo, 0), vec![boxed(0, 0, 0, 0, 0, 5)]);
}

#[test]
fn decode_skips_low_scores() {
    let out = one_anchor_output(10_000, 10_000, 4_000, 4_000, 9_999);
    let geo = Geometry { image_width: 100, image_height: 100, model_width: 100, model_height: 100 };
    assert_eq!(decode_candidates(&out, 1, &geo, 10_000), vec![]);
}

#[test]
fn detect_objects_reports_shape_mismatch() {
    let out = one_anchor_output(10, 10, 4, 4, 9);
    let cfg = half_iou();
    assert_eq!(detect_objects(&out, 80, None, Some((640, 640)), 100, 100, &cfg).err(), Some(DetectError::ShapeMismatch));
    let short = RawOutput { n_attrs: 5, n_anchors: 2, values: vec![1, 2, 3] };
    assert_eq!(detect_objects(&short, 1, None, Some((640, 640)), 100, 100, &cfg).err(), Some(DetectError::ShapeMismatch));
}

#[test]
fn detect_objects_needs_a_resolution() {
    let out = one_anchor_output(10, 10, 4, 4, 9);
    let cfg = half_iou();
    assert_eq!(detect_objects(&out, 1, None, None, 100, 100, &cfg).err(), Some(DetectError::ModelContractViolation));
    assert_eq!(detect_objects(&out, 1, Some((0, 640)), None, 100, 100, &cfg).err(), Some(DetectError::ModelContractViolation));
}

#[test]
fn detect_objects_suppresses_overlaps() {
    // two anchors, one class: identical boxes, the second scoring higher
    let out = RawOutput {
        n_attrs: 5,
        n_anchors: 2,
        values: vec![50_000, 50_000, 50_000, 50_000, 20_000, 20_000, 20_000, 20_000, 10, 30],
    };
    let cfg = half_iou();
    let got = detect_objects(&out, 1, Some((100, 100)), None, 100, 100, &cfg).unwrap();
    assert_eq!(got, vec![boxed(40, 40, 19, 19, 0, 30)]);
}

#[test]
fn edge_values_follow_threshold() {
    assert_eq!(edge_value(0), 0);
    assert_eq!(edge_value(28), 0);
    assert_eq!(edge_value(29), 41);
    assert_eq!(edge_value(32), 45);
    assert_eq!(edge_value(100), 141);
    assert_eq!(edge_value(180), 254);
    assert_eq!(edge_value(181), 255);
    assert_eq!(edge_value(1443), 255);
}

#[test]
fn sobel_finds_a_vertical_step() {
    let w = 6u32;
    let h = 5u32;
    let mut pixels = Vec::new();
    for _y in 0..h {
        for x in 0..w {
            pixels.push(if x < 3 { 0 } else { 255 });
        }
    }
    let img = GrayImage { width: w, height: h, pixels };
    let edges = apply_sobel_edge_detection(&img);
    assert_eq!(edges.width, w);
    assert_eq!(edges.height, h);
    assert_eq!(edges.get_pixel(5, 2), 0);
    assert_eq!(edges.get_pixel(0, 2), 0);
    // the horizontal Sobel response across a 0 to 255 step is 4 * 255
    assert_eq!(edges.get_pixel(3, 2), 255);
    assert_eq!(edges.get_pixel(2, 2), 255);
}

#[test]
fn detect_objects_prefers_model_resolution() {
    // centre 50, size 20: edges 40 and 60 at model width 100, 80 and 120 at model width 50
    let out = one_anchor_output(50_000, 50_000, 20_000, 20_000, 30);
    let cfg = half_iou();
    let own = detect_objects(&out, 1, Some((50, 50)), Some((100, 100)), 100, 100, &cfg).unwrap();
    assert_eq!(own, vec![boxed(80, 80, 39, 39, 0, 30)]);
    let fallback = detect_objects(&out, 1, None, Some((100, 100)), 100, 100, &cfg).unwrap();
    assert_eq!(fallback, vec![boxed(40, 40, 19, 19, 0, 30)]);
}

#[test]
fn decode_width_is_scaled_size_less_one() {
    // image 3 wide, model 2 wide, centre 1, size 1: edges 0.75 and 2.25, size 1.5
    let out = one_anchor_output(1_000, 1_000, 1_000, 1_000, 5);
    let geo = Geometry { image_width: 3, image_height: 3, model_width: 2, model_height: 2 };
    assert_eq!(decode_candidates(&out, 1, &geo, 0), vec![boxed(0, 0, 0, 0, 0, 5)]);
}

#[test]
fn decode_width_ignores_clamped_left_edge() {
    // centre 0, size 4 at scale 1: left edge -2 clamps to 0, width stays 4 - 1
    let out = one_anchor_output(0, 0, 4_000, 4_000, 5);
    let geo = Geometry { image_width: 10, image_height: 10, model_width: 10, model_height: 10 };
    assert_eq!(decode_candidates(&out, 1, &geo, 0), vec![boxed(0, 0, 3, 3, 0, 5)]);
}

#[test]
fn decode_keeps_fractional_geometry() {
    // centre 10.5, size 3.25 at scale 2: edges 17.75 and 24.25, size 6.5
    let out = one_anchor_output(10_500, 10_500, 3_250, 3_250, 5);
    let geo = Geometry { image_width: 200, image_height: 200, model_width: 100, model_height: 100 };
    assert_eq!(decode_candidates(&out, 1, &geo, 0), vec![boxed(17, 17, 5, 5, 0, 5)]);
}

#[test]
fn edges_from_gradient_values() {
    assert_eq!(edges_from_gradients(&vec![0, 28, 29, 32, 100, 1020]), vec![0, 0, 41, 45, 141, 255]);
}

fn two_strips(cx_a: i64, cx_b: i64, w: i64) -> RawOutput {
    RawOutput {
        n_attrs: 5,
        n_anchors: 2,
        values: vec![cx_a, cx_b, 1_000, 1_000, w, w, 2_000, 2_000, 900, 800],
    }
}

#[test]
fn detect_objects_drops_overlap_of_051() {
    // strips [0, 151) and [49, 200): IoU = 102 / 200
    let out = two_strips(76_000, 125_000, 152_000);
    let got = detect_objects(&out, 1, Some((300, 300)), None, 300, 300, &half_iou()).unwrap();
    assert_eq!(got, vec![boxed(0, 0, 151, 1, 0, 900)]);
}

#[test]
fn detect_objects_keeps_overlap_of_049() {
    // strips [0, 149) and [51, 200): IoU = 98 / 200
    let out = two_strips(75_000, 126_000, 150_000);
    let got = detect_objects(&out, 1, Some((300, 300)), None, 300, 300, &half_iou()).unwrap();
    assert_eq!(got, vec![boxed(0, 0, 149, 1, 0, 900), boxed(51, 0, 149, 1, 0, 800)]);
}
