//! The configuration: every number that can be tuned is a field here.

use crate::error::ConfigError;
use crate::float32::Float32;
use crate::path::MediaPath;
use crate::text::{chars_of, trim, trimmed};
use crate::types::{Dtype, OpenAction};
use vstd::prelude::*;

verus! {

/// A folder that is scanned recursively.
#[derive(Clone, Debug, PartialEq, Eq)]
pub struct FolderConfig {
    pub path: MediaPath,
    /// Whether the folder is scanned at all.
    pub enabled: bool,
}

/// A glob or a path prefix that the walk leaves out.
#[derive(Clone, Debug, PartialEq, Eq)]
pub struct ExcludeRule {
    pub pattern: String,
}

/// Bounds on the frames that are taken out of a video.
#[derive(Clone, Debug, PartialEq, Eq)]
pub struct VideoConfig {
    /// How much a scene must change to be sampled.
    pub scene_threshold: Float32,
    /// No two frames are sampled closer than this, in seconds.
    pub floor_s: Float32,
    /// At least one frame is sampled within this time, in seconds. More than
    /// `floor_s`.
    pub ceiling_s: Float32,
    /// The most frames of one video.
    pub max_frames: u32,
    /// How many frames are extracted at a time.
    pub extract_pool_size: u32,
}

/// The sizes of thumbnails and previews.
#[derive(Clone, Debug, PartialEq, Eq)]
pub struct ThumbConfig {
    /// The edge of a stored thumbnail, in pixels.
    pub grid_px: u32,
    /// The edge of a preview, in pixels.
    pub preview_px: u32,
    /// The most bytes that previews and frames are kept in.
    pub cache_cap_bytes: u64,
}

/// How hits become tiles.
#[derive(Clone, Debug, PartialEq, Eq)]
pub struct ResultConfig {
    /// The most tiles of one search.
    pub tile_cap: usize,
    /// Tiles below this fraction of the best score are dropped. In (0, 1].
    pub floor_alpha: Float32,
    /// The least gap between scores that is worth a divider.
    pub cliff_min_gap: Float32,
    /// How many units are fetched for each tile of the cap.
    pub unit_oversample: usize,
}

/// The whole configuration.
#[derive(Clone, Debug, PartialEq, Eq)]
pub struct Config {
    pub watched_folders: Vec<FolderConfig>,
    /// The embedding model. Another one makes every stored vector useless.
    pub model_name: String,
    pub vector_dtype: Dtype,
    /// How many items are embedded in one batch.
    pub batch_size: usize,
    pub video: VideoConfig,
    pub thumbnails: ThumbConfig,
    pub results: ResultConfig,
    /// How often the folders are scanned again, in seconds.
    pub reconcile_interval_s: u64,
    /// How long a search waits for the next keystroke, in milliseconds.
    pub debounce_ms: u64,
    /// Whether the index is built on battery power.
    pub index_on_battery: bool,
    pub default_open_action: OpenAction,
    pub excludes: Vec<ExcludeRule>,
}

/// A folder is scanned unless the configuration says otherwise.
pub fn default_true() -> (enabled: bool)
    ensures
        enabled,
{
    true
}

impl Default for Config {
    fn default() -> (config: Config)
        ensures
            config.has_defaults(),
            config.valid(),
            config.watched_folders@.len() == 0,
            config.model_name@ == "google/siglip2-base-patch16-224"@,
            config.vector_dtype == Dtype::F32,
            config.batch_size == 32,
            config.video.scene_threshold.bits == 0x3ECC_CCCD,
            config.video.floor_s.bits == 0x4000_0000,
            config.video.ceiling_s.bits == 0x4120_0000,
            config.video.max_frames == 60,
            config.video.extract_pool_size == 4,
            config.thumbnails.grid_px == 400,
            config.thumbnails.preview_px == 1200,
            config.thumbnails.cache_cap_bytes == 3 * 1024 * 1024 * 1024,
            config.results.tile_cap == 500,
            config.results.floor_alpha.bits == 0x3F26_6666,
            config.results.cliff_min_gap.bits == 0x3D4C_CCCD,
            config.results.unit_oversample == 6,
            config.reconcile_interval_s == 6 * 60 * 60,
            config.debounce_ms == 275,
            !config.index_on_battery,
            config.default_open_action == OpenAction::InApp,
            config.excludes@.len() == 0,
    {
        let config = Config {
            watched_folders: Vec::new(),
            model_name: "google/siglip2-base-patch16-224".to_string(),
            vector_dtype: Dtype::F32,
            batch_size: 32,
            video: VideoConfig {
                scene_threshold: Float32 { bits: 0x3ECC_CCCD },
                floor_s: Float32 { bits: 0x4000_0000 },
                ceiling_s: Float32 { bits: 0x4120_0000 },
                max_frames: 60,
                extract_pool_size: 4,
            },
            thumbnails: ThumbConfig {
                grid_px: 400,
                preview_px: 1200,
                cache_cap_bytes: 3_221_225_472,
            },
            results: ResultConfig {
                tile_cap: 500,
                floor_alpha: Float32 { bits: 0x3F26_6666 },
                cliff_min_gap: Float32 { bits: 0x3D4C_CCCD },
                unit_oversample: 6,
            },
            reconcile_interval_s: 21_600,
            debounce_ms: 275,
            index_on_battery: false,
            default_open_action: OpenAction::InApp,
            excludes: Vec::new(),
        };
        proof {
            reveal_strlit("google/siglip2-base-patch16-224");
            crate::text::lemma_trimmed_empty(config.model_name@);
            assert(config.model_name@[0] == 'g');
        }
        config
    }
}

/// Zero.
pub open spec fn zero() -> Float32 {
    Float32 { bits: 0 }
}

/// One.
pub open spec fn one() -> Float32 {
    Float32 { bits: 0x3F80_0000 }
}

impl Config {
    /// Whether every field has the value that it has unless one is chosen.
    pub open spec fn has_defaults(self) -> bool {
        &&& self.watched_folders@.len() == 0
        &&& self.model_name@ == "google/siglip2-base-patch16-224"@
        &&& self.vector_dtype == Dtype::F32
        &&& self.batch_size == 32
        &&& self.video == (VideoConfig {
            scene_threshold: Float32 { bits: 0x3ECC_CCCD },
            floor_s: Float32 { bits: 0x4000_0000 },
            ceiling_s: Float32 { bits: 0x4120_0000 },
            max_frames: 60,
            extract_pool_size: 4,
        })
        &&& self.thumbnails == (ThumbConfig {
            grid_px: 400,
            preview_px: 1200,
            cache_cap_bytes: 3_221_225_472,
        })
        &&& self.results == (ResultConfig {
            tile_cap: 500,
            floor_alpha: Float32 { bits: 0x3F26_6666 },
            cliff_min_gap: Float32 { bits: 0x3D4C_CCCD },
            unit_oversample: 6,
        })
        &&& self.reconcile_interval_s == 21_600
        &&& self.debounce_ms == 275
        &&& !self.index_on_battery
        &&& self.default_open_action == OpenAction::InApp
        &&& self.excludes@.len() == 0
    }

    /// The first field with a value that it must not have, where the floor of
    /// the video frames is below their ceiling: its name, and what is demanded
    /// of it.
    pub open spec fn fault(self) -> Option<(Seq<char>, Seq<char>)> {
        if self.video.max_frames == 0 {
            Some(("video.max_frames"@, "must be at least 1"@))
        } else if self.video.extract_pool_size == 0 {
            Some(("video.extract_pool_size"@, "must be at least 1"@))
        } else if self.video.scene_threshold.at_most(zero()) {
            Some(("video.scene_threshold"@, "must be > 0"@))
        } else if self.batch_size == 0 {
            Some(("batch_size"@, "must be at least 1"@))
        } else if trimmed(self.model_name@).len() == 0 {
            Some(("model_name"@, "must not be empty"@))
        } else if !(zero().less(self.results.floor_alpha) && self.results.floor_alpha.at_most(
            one(),
        )) {
            Some(
                (
                    "results.floor_alpha"@,
                    "must be in (0.0, 1.0] — it is a fraction of the top score"@,
                ),
            )
        } else if self.results.tile_cap == 0 {
            Some(("results.tile_cap"@, "must be at least 1"@))
        } else if self.results.unit_oversample == 0 {
            Some(
                ("results.unit_oversample"@, "must be at least 1 (k = tile_cap * unit_oversample)"@),
            )
        } else if self.results.cliff_min_gap.less(zero()) {
            Some(("results.cliff_min_gap"@, "must be >= 0"@))
        } else if self.thumbnails.grid_px == 0 || self.thumbnails.preview_px == 0 {
            Some(("thumbnails"@, "grid_px and preview_px must be > 0"@))
        } else {
            None
        }
    }

    /// Whether every field has a value that it may have.
    pub open spec fn valid(self) -> bool {
        &&& self.video.floor_s.less(self.video.ceiling_s)
        &&& self.video.max_frames >= 1
        &&& self.video.extract_pool_size >= 1
        &&& !self.video.scene_threshold.at_most(zero())
        &&& self.batch_size >= 1
        &&& trimmed(self.model_name@).len() > 0
        &&& zero().less(self.results.floor_alpha)
        &&& self.results.floor_alpha.at_most(one())
        &&& self.results.tile_cap >= 1
        &&& self.results.unit_oversample >= 1
        &&& !self.results.cliff_min_gap.less(zero())
        &&& self.thumbnails.grid_px >= 1
        &&& self.thumbnails.preview_px >= 1
    }

    /// The verdict of [`Config::validate`], where `floor` and `ceiling` are the
    /// texts of the two video bounds.
    pub open spec fn verdict(
        self,
        floor: Seq<char>,
        ceiling: Seq<char>,
        verdict: Result<(), ConfigError>,
    ) -> bool {
        match verdict {
            Ok(_) => self.valid(),
            Err(ConfigError::Invalid { field, reason }) => if !self.video.floor_s.less(
                self.video.ceiling_s,
            ) {
                field@ == "video.floor_s"@ && reason@ == "floor ("@ + floor
                    + ") must be strictly less than ceiling ("@ + ceiling + ")"@
            } else {
                self.fault() == Some((field@, reason@))
            },
            Err(ConfigError::BadPath(_)) => false,
        }
    }

    /// Rejects a configuration that would break the running system. The bounds
    /// of the video frames and the fraction of the best score must be numbers in
    /// range. The threshold of a scene change and the least gap are rejected
    /// where they are too small, and pass where they are no numbers.
    ///
    /// The two video bounds are named in the reason; `show` prints them.
    pub fn validate<S>(&self, show: S) -> (verdict: Result<(), ConfigError>) where
        S: Fn(Float32) -> String,

        requires
            call_requires(show, (self.video.floor_s,)),
            call_requires(show, (self.video.ceiling_s,)),
        ensures
            verdict is Ok <==> self.valid(),
            exists|floor: String, ceiling: String|
                #![trigger call_ensures(show, (self.video.floor_s,), floor), call_ensures(show, (self.video.ceiling_s,), ceiling)]
                call_ensures(show, (self.video.floor_s,), floor) && call_ensures(
                    show,
                    (self.video.ceiling_s,),
                    ceiling,
                ) && self.verdict(floor@, ceiling@, verdict),
    {
        let floor = show(self.video.floor_s);
        let ceiling = show(self.video.ceiling_s);
        self.validate_shown(floor.as_str(), ceiling.as_str())
    }

    /// [`Config::validate`], with the texts of the two video bounds given.
    pub fn validate_shown(&self, floor: &str, ceiling: &str) -> (verdict: Result<
        (),
        ConfigError,
    >)
        ensures
            self.verdict(floor@, ceiling@, verdict),
    {
        let v = &self.video;
        if !v.floor_s.lt(v.ceiling_s) {
            let mut reason: String = "floor (".to_string();
            reason.append(floor);
            reason.append(") must be strictly less than ceiling (");
            reason.append(ceiling);
            reason.append(")");
            return Err(ConfigError::Invalid { field: "video.floor_s", reason });
        }
        if v.max_frames == 0 {
            return Err(invalid("video.max_frames", "must be at least 1"));
        }
        if v.extract_pool_size == 0 {
            return Err(invalid("video.extract_pool_size", "must be at least 1"));
        }
        if v.scene_threshold.le(Float32 { bits: 0 }) {
            return Err(invalid("video.scene_threshold", "must be > 0"));
        }
        if self.batch_size == 0 {
            return Err(invalid("batch_size", "must be at least 1"));
        }
        if chars_of(trim(self.model_name.as_str()).as_str()).len() == 0 {
            return Err(invalid("model_name", "must not be empty"));
        }
        let r = &self.results;
        if !((Float32 { bits: 0 }).lt(r.floor_alpha) && r.floor_alpha.le(
            Float32 { bits: 0x3F80_0000 },
        )) {
            return Err(
                invalid(
                    "results.floor_alpha",
                    "must be in (0.0, 1.0] — it is a fraction of the top score",
                ),
            );
        }
        if r.tile_cap == 0 {
            return Err(invalid("results.tile_cap", "must be at least 1"));
        }
        if r.unit_oversample == 0 {
            return Err(
                invalid(
                    "results.unit_oversample",
                    "must be at least 1 (k = tile_cap * unit_oversample)",
                ),
            );
        }
        if r.cliff_min_gap.lt(Float32 { bits: 0 }) {
            return Err(invalid("results.cliff_min_gap", "must be >= 0"));
        }
        if self.thumbnails.grid_px == 0 || self.thumbnails.preview_px == 0 {
            return Err(invalid("thumbnails", "grid_px and preview_px must be > 0"));
        }
        Ok(())
    }
}

fn invalid(field: &'static str, reason: &str) -> (error: ConfigError)
    ensures
        error matches ConfigError::Invalid { field: f, reason: r } && f@ == field@ && r@
            == reason@,
{
    ConfigError::Invalid { field, reason: reason.to_string() }
}

/// A configuration passes exactly where every field is in its range, and one that does
/// not pass is told a field that is out of its range.
pub proof fn lemma_verdict(
    config: Config,
    floor: Seq<char>,
    ceiling: Seq<char>,
    verdict: Result<(), ConfigError>,
)
    requires
        config.verdict(floor, ceiling, verdict),
    ensures
        verdict is Ok <==> {
            &&& !config.video.floor_s.nan()
            &&& !config.video.ceiling_s.nan()
            &&& config.video.floor_s.ordinal() < config.video.ceiling_s.ordinal()
            &&& config.video.max_frames > 0
            &&& config.video.extract_pool_size > 0
            &&& config.video.scene_threshold.nan() || config.video.scene_threshold.ordinal() > 0
            &&& config.batch_size > 0
            &&& trimmed(config.model_name@).len() > 0
            &&& !config.results.floor_alpha.nan()
            &&& 0 < config.results.floor_alpha.ordinal() <= 0x3F80_0000
            &&& config.results.tile_cap > 0
            &&& config.results.unit_oversample > 0
            &&& config.results.cliff_min_gap.nan() || config.results.cliff_min_gap.ordinal() >= 0
            &&& config.thumbnails.grid_px > 0
            &&& config.thumbnails.preview_px > 0
        },
        verdict matches Err(e) ==> (e matches ConfigError::Invalid { field, reason } && {
            ||| field@ == "video.floor_s"@ && !config.video.floor_s.less(config.video.ceiling_s)
            ||| field@ == "video.max_frames"@ && config.video.max_frames == 0
            ||| field@ == "video.extract_pool_size"@ && config.video.extract_pool_size == 0
            ||| field@ == "video.scene_threshold"@ && config.video.scene_threshold.ordinal() <= 0
            ||| field@ == "batch_size"@ && config.batch_size == 0
            ||| field@ == "model_name"@ && trimmed(config.model_name@).len() == 0
            ||| field@ == "results.floor_alpha"@ && (config.results.floor_alpha.nan()
                || config.results.floor_alpha.ordinal() <= 0 || config.results.floor_alpha.ordinal()
                > 0x3F80_0000)
            ||| field@ == "results.tile_cap"@ && config.results.tile_cap == 0
            ||| field@ == "results.unit_oversample"@ && config.results.unit_oversample == 0
            ||| field@ == "results.cliff_min_gap"@ && config.results.cliff_min_gap.ordinal() < 0
            ||| field@ == "thumbnails"@ && (config.thumbnails.grid_px == 0
                || config.thumbnails.preview_px == 0)
        }),
{
}

}
