use lume::config::ResultConfig;
use lume::float32::Float32;
use lume::rank::{
    collapse, detect_cliff, keep_above_floor, rank_tiles, Cliff, RankedTiles, TileMeta,
};
use lume::types::{FileId, MediaKind, ScoredHit};

fn f(x: f32) -> Float32 {
    Float32 { bits: x.to_bits() }
}

fn value(x: Float32) -> f32 {
    f32::from_bits(x.bits)
}

fn times(a: Float32, b: Float32) -> Float32 {
    f(value(a) * value(b))
}

fn minus(a: Float32, b: Float32) -> Float32 {
    f(value(a) - value(b))
}

fn config() -> ResultConfig {
    ResultConfig {
        tile_cap: 500,
        floor_alpha: f(0.65),
        cliff_min_gap: f(0.05),
        unit_oversample: 6,
    }
}

fn image_meta(id: FileId) -> TileMeta {
    TileMeta { kind: MediaKind::Image, thumb_id: id }
}

fn image_hit(file: FileId, score: f32) -> ScoredHit {
    ScoredHit { file, frame_ts: None, score: f(score) }
}

fn frame_hit(file: FileId, ts: f32, score: f32) -> ScoredHit {
    ScoredHit { file, frame_ts: Some(f(ts)), score: f(score) }
}

fn rank(hits: Vec<ScoredHit>, config: &ResultConfig) -> RankedTiles {
    rank_tiles(hits, config, image_meta, times, minus)
}

#[test]
fn empty_input_yields_empty_tiles_and_no_cliff() {
    let out = rank(Vec::new(), &config());
    assert!(out.tiles.is_empty());
    assert!(out.cliff.is_none());
}

#[test]
fn single_image_unit_becomes_one_tile_with_no_timestamps() {
    let out = rank(vec![image_hit(7, 0.9)], &config());
    assert_eq!(out.tiles.len(), 1);
    let tile = &out.tiles[0];
    assert_eq!(tile.file, 7);
    assert_eq!(tile.kind, MediaKind::Image);
    assert_eq!(tile.thumb_id, 7);
    assert_eq!(value(tile.score), 0.9);
    assert!(tile.matched_timestamps.is_empty());
    assert!(out.cliff.is_none());
}

#[test]
fn duplicate_units_from_one_item_collapse_via_max_score() {
    let hits = vec![frame_hit(1, 0.0, 0.4), frame_hit(1, 2.0, 0.8), frame_hit(1, 4.0, 0.6)];
    let out = rank_tiles(
        hits,
        &config(),
        |id| TileMeta { kind: MediaKind::Video, thumb_id: id },
        times,
        minus,
    );
    assert_eq!(out.tiles.len(), 1, "three units of one item collapse to one tile");
    assert_eq!(value(out.tiles[0].score), 0.8, "the score is the best of its units");
    assert_eq!(out.tiles[0].kind, MediaKind::Video);
    let stamps: Vec<f32> = out.tiles[0].matched_timestamps.iter().map(|t| value(*t)).collect();
    assert_eq!(stamps, vec![2.0, 4.0, 0.0]);
}

#[test]
fn floor_is_applied_after_collapse_to_tile_scores() {
    let cfg = ResultConfig { floor_alpha: f(0.65), ..config() };
    let hits = vec![
        frame_hit(1, 0.0, 0.3),
        frame_hit(1, 2.0, 1.0),
        image_hit(2, 0.5),
    ];
    let out = rank(hits, &cfg);
    assert_eq!(out.tiles.len(), 1);
    assert_eq!(out.tiles[0].file, 1);
    assert_eq!(value(out.tiles[0].score), 1.0);
}

#[test]
fn cap_is_applied_after_the_floor() {
    let cfg = ResultConfig { tile_cap: 2, floor_alpha: f(0.1), ..config() };
    let hits = vec![
        image_hit(1, 0.99),
        image_hit(2, 0.98),
        image_hit(3, 0.97),
        image_hit(4, 0.96),
        image_hit(5, 0.95),
    ];
    let out = rank(hits, &cfg);
    assert_eq!(out.tiles.len(), 2, "the floor keeps them all and the cap trims");
    assert_eq!(out.tiles[0].file, 1);
    assert_eq!(out.tiles[1].file, 2);
}

#[test]
fn smooth_ramp_returns_no_cliff() {
    let cfg = ResultConfig { floor_alpha: f(0.1), cliff_min_gap: f(0.05), ..config() };
    let hits = vec![
        image_hit(1, 0.30),
        image_hit(2, 0.28),
        image_hit(3, 0.26),
        image_hit(4, 0.24),
    ];
    let out = rank(hits, &cfg);
    assert_eq!(out.tiles.len(), 4);
    assert!(out.cliff.is_none(), "no gap is wide enough for a divider");
}

#[test]
fn a_detected_gap_returns_cliff_divider_metadata() {
    let cfg = ResultConfig { floor_alpha: f(0.1), cliff_min_gap: f(0.05), ..config() };
    let hits = vec![
        image_hit(1, 0.90),
        image_hit(2, 0.88),
        image_hit(3, 0.58),
        image_hit(4, 0.56),
    ];
    let out = rank(hits, &cfg);
    assert_eq!(out.tiles.len(), 4, "a divider removes nothing");
    let cliff = out.cliff.expect("a gap of 0.30 has a divider");
    assert_eq!(cliff.above, 2);
    assert!((value(cliff.gap) - 0.30).abs() < 1e-6);
}

#[test]
fn cliff_is_detected_only_within_returned_tiles() {
    let cfg = ResultConfig {
        tile_cap: 2,
        floor_alpha: f(0.1),
        cliff_min_gap: f(0.05),
        ..config()
    };
    let hits = vec![image_hit(1, 0.90), image_hit(2, 0.89), image_hit(3, 0.10)];
    let out = rank(hits, &cfg);
    assert_eq!(out.tiles.len(), 2);
    assert!(out.cliff.is_none());
}

#[test]
fn order_of_hits_does_not_matter() {
    let hits = vec![
        image_hit(3, 0.5),
        frame_hit(1, 4.0, 0.7),
        image_hit(2, 0.5),
        frame_hit(1, 2.0, 0.7),
        frame_hit(1, 1.0, 0.2),
    ];
    let mut back = hits.clone();
    back.reverse();
    let a = collapse(hits, image_meta);
    let b = collapse(back, image_meta);
    assert_eq!(a, b);
    let files: Vec<FileId> = a.iter().map(|t| t.file).collect();
    assert_eq!(files, vec![1, 2, 3], "best first, then by file id");
    let stamps: Vec<f32> = a[0].matched_timestamps.iter().map(|t| value(*t)).collect();
    assert_eq!(stamps, vec![2.0, 4.0, 1.0], "best unit first, then by time");
}

#[test]
fn a_score_at_the_floor_stays() {
    let tiles = collapse(vec![image_hit(1, 1.0), image_hit(2, 0.5), image_hit(3, 0.25)], image_meta);
    let kept = keep_above_floor(tiles, f(0.5));
    let files: Vec<FileId> = kept.iter().map(|t| t.file).collect();
    assert_eq!(files, vec![1, 2]);
}

#[test]
fn no_number_never_clears_the_floor_and_never_replaces_a_score() {
    let nan = f32::NAN;
    let tiles = collapse(vec![image_hit(1, 0.5), image_hit(1, nan), image_hit(2, nan)], image_meta);
    assert_eq!(tiles.len(), 2);
    assert_eq!(tiles[0].file, 2, "a positive NaN stands above all numbers in the total order");
    assert_eq!(value(tiles[1].score), 0.5);
    let kept = keep_above_floor(tiles, f(0.0));
    assert_eq!(kept.len(), 1);
    assert_eq!(kept[0].file, 1);
}

#[test]
fn the_first_of_equal_gaps_is_the_divider() {
    let gaps = vec![f(0.01), f(0.25), f(0.25), f(0.1)];
    assert_eq!(detect_cliff(&gaps, f(0.05)), Some(Cliff { above: 2, gap: f(0.25) }));
    assert_eq!(detect_cliff(&gaps, f(0.25)), Some(Cliff { above: 2, gap: f(0.25) }));
    assert_eq!(detect_cliff(&gaps, f(0.3)), None);
    assert_eq!(detect_cliff(&vec![f(f32::NAN)], f(0.0)), None);
}

#[test]
fn the_order_of_the_hits_does_not_matter() {
    let hits = vec![
        frame_hit(1, 2.0, 0.9),
        image_hit(2, 0.8),
        frame_hit(1, 1.0, 0.9),
        frame_hit(3, 5.0, 0.7),
        frame_hit(1, 0.5, 0.6),
        image_hit(4, 0.8),
    ];
    let expected = rank(hits.clone(), &config());
    assert_eq!(expected.tiles.iter().map(|t| t.file).collect::<Vec<_>>(), vec![1, 2, 4, 3]);
    for turn in 1..hits.len() {
        let mut turned = hits.clone();
        turned.rotate_left(turn);
        assert_eq!(rank(turned.clone(), &config()), expected);
        turned.reverse();
        assert_eq!(rank(turned, &config()), expected);
    }
}
