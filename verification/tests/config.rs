use lume::config::{default_true, Config};
use lume::error::{ConfigError, LumeError};
use lume::float32::Float32;
use lume::path::MediaPath;
use lume::types::{Dtype, OpenAction};

fn f(x: f32) -> Float32 {
    Float32 { bits: x.to_bits() }
}

fn show(x: Float32) -> String {
    format!("{}", f32::from_bits(x.bits))
}

fn fault(config: &Config) -> (String, String) {
    match config.validate(show) {
        Err(ConfigError::Invalid { field, reason }) => (field.to_string(), reason),
        other => panic!("expected an invalid field, got {:?}", other),
    }
}

#[test]
fn default_config_is_valid() {
    assert!(Config::default().validate(show).is_ok());
}

#[test]
fn video_floor_must_be_below_ceiling() {
    let mut cfg = Config::default();
    cfg.video.floor_s = f(12.0);
    cfg.video.ceiling_s = f(10.0);
    let err = cfg.validate(show).unwrap_err();
    assert!(
        matches!(err, ConfigError::Invalid { field, .. } if field == "video.floor_s"),
        "expected an error about video.floor_s"
    );
    assert_eq!(
        fault(&cfg).1,
        "floor (12) must be strictly less than ceiling (10)"
    );
    cfg.video.floor_s = f(10.0);
    assert_eq!(fault(&cfg).0, "video.floor_s");
}

#[test]
fn a_bound_or_a_fraction_that_is_no_number_is_rejected() {
    let mut cfg = Config::default();
    cfg.video.floor_s = f(f32::NAN);
    assert_eq!(fault(&cfg).0, "video.floor_s");
    let mut cfg = Config::default();
    cfg.video.ceiling_s = f(f32::NAN);
    assert_eq!(fault(&cfg).0, "video.floor_s");
    let mut cfg = Config::default();
    cfg.results.floor_alpha = f(f32::NAN);
    assert_eq!(fault(&cfg).0, "results.floor_alpha");
}

#[test]
fn a_threshold_or_a_gap_is_rejected_only_where_it_is_too_small() {
    let mut cfg = Config::default();
    cfg.video.scene_threshold = f(0.0);
    assert_eq!(fault(&cfg).0, "video.scene_threshold");
    cfg.video.scene_threshold = f(f32::NAN);
    assert!(cfg.validate(show).is_ok());
    let mut cfg = Config::default();
    cfg.results.cliff_min_gap = f(-0.01);
    assert_eq!(fault(&cfg).0, "results.cliff_min_gap");
    cfg.results.cliff_min_gap = f(f32::NAN);
    assert!(cfg.validate(show).is_ok());
}

#[test]
fn relevance_floor_alpha_must_be_a_fraction() {
    for bad in [0.0_f32, -0.1, 1.5] {
        let mut cfg = Config::default();
        cfg.results.floor_alpha = f(bad);
        assert!(cfg.validate(show).is_err(), "floor_alpha = {bad} should be rejected");
        assert_eq!(
            fault(&cfg),
            (
                "results.floor_alpha".to_string(),
                "must be in (0.0, 1.0] — it is a fraction of the top score".to_string()
            )
        );
    }
    let mut cfg = Config::default();
    cfg.results.floor_alpha = f(1.0);
    assert!(cfg.validate(show).is_ok());
}

#[test]
fn batch_size_zero_is_rejected() {
    let mut cfg = Config::default();
    cfg.batch_size = 0;
    assert!(cfg.validate(show).is_err());
    assert_eq!(fault(&cfg), ("batch_size".to_string(), "must be at least 1".to_string()));
}

#[test]
fn default_config_stores_vectors_as_f32_per_adr_0003() {
    assert_eq!(Config::default().vector_dtype, Dtype::F32);
}

#[test]
fn default_values() {
    let cfg = Config::default();
    assert_eq!(cfg.model_name, "google/siglip2-base-patch16-224");
    assert_eq!(cfg.batch_size, 32);
    assert_eq!(cfg.video.scene_threshold, f(0.4));
    assert_eq!(cfg.video.floor_s, f(2.0));
    assert_eq!(cfg.video.ceiling_s, f(10.0));
    assert_eq!(cfg.video.max_frames, 60);
    assert_eq!(cfg.video.extract_pool_size, 4);
    assert_eq!(cfg.thumbnails.grid_px, 400);
    assert_eq!(cfg.thumbnails.preview_px, 1200);
    assert_eq!(cfg.thumbnails.cache_cap_bytes, 3 * 1024 * 1024 * 1024);
    assert_eq!(cfg.results.tile_cap, 500);
    assert_eq!(cfg.results.floor_alpha, f(0.65));
    assert_eq!(cfg.results.cliff_min_gap, f(0.05));
    assert_eq!(cfg.results.unit_oversample, 6);
    assert_eq!(cfg.reconcile_interval_s, 6 * 60 * 60);
    assert_eq!(cfg.debounce_ms, 275);
    assert!(!cfg.index_on_battery);
    assert_eq!(cfg.default_open_action, OpenAction::InApp);
    assert!(cfg.watched_folders.is_empty());
    assert!(cfg.excludes.is_empty());
    assert!(default_true());
}

#[test]
fn every_other_fault_is_named() {
    let mut cfg = Config::default();
    cfg.video.max_frames = 0;
    assert_eq!(fault(&cfg), ("video.max_frames".to_string(), "must be at least 1".to_string()));

    let mut cfg = Config::default();
    cfg.video.extract_pool_size = 0;
    assert_eq!(
        fault(&cfg),
        ("video.extract_pool_size".to_string(), "must be at least 1".to_string())
    );

    let mut cfg = Config::default();
    cfg.video.scene_threshold = f(0.0);
    assert_eq!(fault(&cfg), ("video.scene_threshold".to_string(), "must be > 0".to_string()));

    let mut cfg = Config::default();
    cfg.model_name = " \t\u{3000}".to_string();
    assert_eq!(fault(&cfg), ("model_name".to_string(), "must not be empty".to_string()));

    let mut cfg = Config::default();
    cfg.results.tile_cap = 0;
    assert_eq!(fault(&cfg), ("results.tile_cap".to_string(), "must be at least 1".to_string()));

    let mut cfg = Config::default();
    cfg.results.unit_oversample = 0;
    assert_eq!(
        fault(&cfg),
        (
            "results.unit_oversample".to_string(),
            "must be at least 1 (k = tile_cap * unit_oversample)".to_string()
        )
    );

    let mut cfg = Config::default();
    cfg.results.cliff_min_gap = f(-0.5);
    assert_eq!(fault(&cfg), ("results.cliff_min_gap".to_string(), "must be >= 0".to_string()));
    cfg.results.cliff_min_gap = f(-0.0);
    assert!(cfg.validate(show).is_ok(), "minus zero is not below zero");

    let mut cfg = Config::default();
    cfg.thumbnails.preview_px = 0;
    assert_eq!(
        fault(&cfg),
        ("thumbnails".to_string(), "grid_px and preview_px must be > 0".to_string())
    );
}

#[test]
fn the_first_fault_is_reported() {
    let mut cfg = Config::default();
    cfg.batch_size = 0;
    cfg.video.max_frames = 0;
    assert_eq!(fault(&cfg).0, "video.max_frames");
}

#[test]
fn errors_as_text() {
    let invalid = ConfigError::Invalid { field: "batch_size", reason: "must be at least 1".into() };
    assert_eq!(invalid.to_text(), "batch_size: must be at least 1");
    assert_eq!(
        ConfigError::BadPath(MediaPath::from_text("/no/where")).to_text(),
        "bad path: /no/where"
    );
    assert_eq!(LumeError::Io("gone".into()).to_text(), "io error: gone");
    assert_eq!(LumeError::Store("busy".into()).to_text(), "vector store error: busy");
    assert_eq!(LumeError::Sidecar("dead".into()).to_text(), "sidecar transport error: dead");
    assert_eq!(LumeError::NotFound("file 7".into()).to_text(), "not found: file 7");
    assert_eq!(
        LumeError::from(invalid).to_text(),
        "invalid config: batch_size: must be at least 1"
    );
}
