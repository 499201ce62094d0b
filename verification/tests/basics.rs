use lume::content_hash::{hash_edges, hash_whole, plan_hash, HashPlan};
use lume::float32::{widen_half, Float32};
use lume::path::{MediaPath, PathSet};
use lume::progress::Progress;
use lume::schema::{apply, MIGRATION_COUNT};
use lume::text::{decimal_i64, decimal_u64, parse_i64, to_ascii_lower, to_hex, trim};
use lume::types::{Blake3Hash, Embedding};

fn path(text: &str) -> MediaPath {
    MediaPath::from_text(text)
}

#[test]
fn comparisons_are_those_of_ieee() {
    let samples = [
        0.0_f32,
        -0.0,
        1.0,
        -1.0,
        0.5,
        f32::MIN_POSITIVE,
        -f32::MIN_POSITIVE,
        f32::MAX,
        f32::MIN,
        f32::INFINITY,
        f32::NEG_INFINITY,
        f32::NAN,
        -f32::NAN,
        f32::from_bits(1),
        f32::from_bits(0x8000_0001),
        f32::from_bits(0x7f80_0001),
    ];
    for a in samples {
        for b in samples {
            let (x, y) = (Float32 { bits: a.to_bits() }, Float32 { bits: b.to_bits() });
            assert_eq!(x.lt(y), a < b, "{a} < {b}");
            assert_eq!(x.le(y), a <= b, "{a} <= {b}");
            assert_eq!(x.total_before(y), a.total_cmp(&b).is_lt(), "{a} before {b}");
        }
        assert_eq!(Float32 { bits: a.to_bits() }.is_nan(), a.is_nan());
    }
}

#[test]
fn halves_widen_as_the_half_crate_does() {
    for bits in 0..=u16::MAX {
        let wide = half::f16::from_bits(bits).to_f32().to_bits();
        assert_eq!(widen_half(bits).bits, wide, "{bits:#06x}");
    }
}

#[test]
fn paths_are_read_by_components() {
    assert_eq!(path("/a/b").parent(), Some(path("/a")));
    assert_eq!(path("/a").parent(), Some(path("/")));
    assert_eq!(path("/").parent(), None);
    assert_eq!(path("").parent(), None);
    assert_eq!(path("a").parent(), Some(path("")));
    assert_eq!(path("/a//b/").parent(), Some(path("/a")));
    assert_eq!(path("/a/./b").parent(), Some(path("/a")));
    assert_eq!(path("").folder(), path(""));
    for text in ["/a/b.c/d.e", "/a//b/", "./x", "../y", "/", "", "a/..", "/a/.b", "x.tar.gz", ".", "/a/./b",
        "a/./b", "/./a", "//a", "a/b/.", "a/b/..", "...", "/a/..b"] {
        let std_path = std::path::Path::new(text);
        let p = path(text);
        let parent = std_path.parent().map(|q| path(&q.to_string_lossy()));
        assert_eq!(p.parent(), parent, "parent of {text:?}");
        let name = std_path.file_name().map(|n| n.to_string_lossy().into_owned().into_bytes());
        assert_eq!(p.file_name(), name, "name of {text:?}");
        let stem = std_path.file_stem().map(|n| n.to_string_lossy().into_owned().into_bytes());
        assert_eq!(p.file_stem(), stem, "stem of {text:?}");
        let ext = std_path.extension().map(|n| n.to_string_lossy().into_owned());
        assert_eq!(p.extension(), ext, "extension of {text:?}");
        for root in ["/a", "/a/b", "/", "", "a", "/a/b.c/", ".", ".."] {
            assert_eq!(
                p.starts_with(&path(root)),
                std_path.starts_with(root),
                "{text:?} under {root:?}"
            );
            let joined = std_path.join(root);
            assert_eq!(p.join(root).to_text(), joined.to_string_lossy());
        }
    }
    assert!(path("/ab").starts_with(&path("/")));
    assert!(!path("/ab").starts_with(&path("/a")));
}

#[test]
fn path_order_is_that_of_std() {
    let texts = [
        "/", "", ".", "..", "a", "./a", "/a", "/a/b", "/a//b", "/a/b/c", "/a-b", "/a/../b", "/A",
        "b", "/a/.b",
    ];
    for a in texts {
        for b in texts {
            let order = std::path::Path::new(a).cmp(std::path::Path::new(b));
            let side = path(a).key().side(&path(b).key());
            let expected = if order.is_lt() {
                lume::path::Side::Before
            } else if order.is_gt() {
                lume::path::Side::After
            } else {
                lume::path::Side::Level
            };
            assert_eq!(side, expected, "{a:?} and {b:?}");
        }
    }
}

#[test]
fn sets_know_a_place_by_any_of_its_names() {
    let set = PathSet::from_paths(&vec![path("/b"), path("/a//c/"), path("x"), path("/a/b")]);
    for text in ["/b", "/b/", "/a/c", "/a/./c", "x", "/a/b"] {
        assert!(set.contains(&path(text)), "{text:?}");
    }
    for text in ["b", "/a", "/a/c/d", "./x", "", "/x"] {
        assert!(!set.contains(&path(text)), "{text:?}");
    }
    assert!(!PathSet::from_paths(&Vec::new()).contains(&path("")));
}

#[test]
fn paths_as_text() {
    assert_eq!(path("/tmp/ä").to_text(), "/tmp/ä");
    assert_eq!(MediaPath { bytes: vec![47, 0xc3, 0x28] }.to_text(), "/\u{fffd}(");
}

#[test]
fn numerals() {
    for n in [0_i64, 7, -7, 10, 99, 100, 12345, i64::MAX, i64::MIN] {
        assert_eq!(decimal_i64(n), n.to_string());
        assert_eq!(parse_i64(&decimal_i64(n)), Some(n));
    }
    assert_eq!(decimal_u64(u64::MAX), u64::MAX.to_string());
    for text in ["", "+", "-", "1a", "0x1", " 1", "--1", "99999999999999999999", "-9223372036854775809"] {
        assert_eq!(parse_i64(text), text.parse::<i64>().ok(), "{text:?}");
        assert_eq!(parse_i64(text), None);
    }
    assert_eq!(to_hex(&[0, 15, 16, 171, 255]), "000f10abff");
    assert_eq!(Blake3Hash([0xab; 32]).to_hex(), "ab".repeat(32));
}

#[test]
fn white_space_and_case() {
    assert_eq!(trim(" \u{2003}a b\u{85}\n"), "a b");
    assert_eq!(trim("\u{200b}"), "\u{200b}".trim());
    for code in 0..0x3100_u32 {
        if let Some(c) = char::from_u32(code) {
            let text = format!("{c}x{c}");
            assert_eq!(trim(&text), text.trim(), "{code:#x}");
        }
    }
    assert_eq!(to_ascii_lower("JPG ÄZ@["), "jpg Äz@[");
}

#[test]
fn files_are_hashed_whole_or_by_their_ends() {
    assert_eq!(plan_hash(0), HashPlan::Whole);
    assert_eq!(plan_hash(512 * 1024 * 1024), HashPlan::Whole);
    assert_eq!(
        plan_hash(512 * 1024 * 1024 + 1),
        HashPlan::Edges { chunk: 1024 * 1024, tail_start: 511 * 1024 * 1024 + 1 }
    );
    let mut hasher = blake3::Hasher::new();
    hasher.update(b"same pixels");
    assert_eq!(hash_whole(b"same pixels").0, *hasher.finalize().as_bytes());
    assert_eq!(
        hash_whole(b"").to_hex(),
        "af1349b9f5f9a1a6a0404dea36dcc9499bcb25c9adc112b7cc9a93cae41f3262"
    );
    let size: u64 = 0x0102_0304_0506_0708;
    let mut hasher = blake3::Hasher::new();
    hasher.update(b"first");
    hasher.update(b"last");
    hasher.update(&size.to_le_bytes());
    assert_eq!(hash_edges(b"first", b"last", size).0, *hasher.finalize().as_bytes());
}

#[test]
fn stored_hashes_are_cut_or_filled_up() {
    let digest: Vec<u8> = (1..=32).collect();
    assert_eq!(Blake3Hash::from_stored(&digest).0.to_vec(), digest);
    assert_eq!(Blake3Hash::from_stored(&[9; 40]).0, [9; 32]);
    let short = Blake3Hash::from_stored(&[5, 6]);
    assert_eq!(short.0[..3], [5, 6, 0]);
    assert!(!short.same(&Blake3Hash([0; 32])));
}

#[test]
fn progress_counts() {
    let mut progress = Progress::default();
    assert_eq!(progress.snapshot(), (0, 0));
    progress.set_total(5);
    progress.add_done(2);
    progress.add_done(1);
    assert_eq!(progress.snapshot(), (3, 5));
    progress.add_done(u64::MAX);
    assert_eq!(progress.snapshot(), (2, 5));
}

#[test]
fn migrations_run_once() {
    let steps = apply(0);
    assert_eq!(steps.len(), MIGRATION_COUNT);
    assert_eq!(steps[0].version, 1);
    assert!(steps[0].sql.contains("CREATE TABLE files"));
    assert!(steps[0].sql.contains("USING vec0(embedding float[768])"));
    assert!(apply(1).is_empty());
    assert!(apply(7).is_empty());
    assert_eq!(apply(-3).len(), MIGRATION_COUNT);
}

#[test]
fn embeddings_have_the_dimension_of_the_model() {
    assert_eq!(Embedding::DIM, 768);
    assert_eq!(Embedding(vec![0; 3]).dim(), 3);
}
