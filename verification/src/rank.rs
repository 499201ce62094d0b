//! From scored units to ranked tiles.
//!
//! Units collapse to one tile for each item. A tile has the best score of its
//! units and keeps all their timestamps. Tiles below a fraction of the best
//! score are dropped, then the list is cut at a cap. Within what is left the
//! largest gap between neighbours may be marked by a divider, which drops
//! nothing.
//!
//! Scores are compared here. The one product and the differences that the
//! pipeline needs are the caller's to compute.

use crate::config::ResultConfig;
use crate::float32::Float32;
use crate::sort::{in_order, reversed, sort, sorts, Ranked};
use crate::types::{FileId, MediaKind, ScoredHit};
use std::collections::HashMap;
use vstd::prelude::*;

verus! {

/// What the pipeline needs to know of an item.
#[derive(Clone, Copy, Debug, PartialEq, Eq, Structural)]
pub struct TileMeta {
    pub kind: MediaKind,
    /// Names the stored thumbnail.
    pub thumb_id: FileId,
}

/// One result.
#[derive(Clone, Debug, PartialEq, Eq)]
pub struct Tile {
    pub file: FileId,
    pub kind: MediaKind,
    pub thumb_id: FileId,
    /// The best score of the item's units.
    pub score: Float32,
    /// The timestamps of the item's units, the best unit first.
    pub matched_timestamps: Vec<Float32>,
}

/// A divider between strong and weak results.
#[derive(Clone, Copy, Debug, PartialEq, Eq, Structural)]
pub struct Cliff {
    /// How many tiles stand above the divider.
    pub above: usize,
    /// The gap between the scores on its two sides.
    pub gap: Float32,
}

/// The results of a search.
#[derive(Clone, Debug, PartialEq, Eq)]
pub struct RankedTiles {
    pub tiles: Vec<Tile>,
    pub cliff: Option<Cliff>,
}

// ---------------------------------------------------------------------------
// Collapse
// ---------------------------------------------------------------------------

/// The timestamp of a unit, with the unit's score.
#[derive(Clone, Copy, Debug, PartialEq, Eq, Structural)]
pub struct Stamp {
    pub ts: Float32,
    pub score: Float32,
}

impl Ranked for Stamp {
    /// A better score comes first; of equal scores, the earlier timestamp.
    open spec fn ahead(self, other: Self) -> bool {
        ||| other.score.total_rank() < self.score.total_rank()
        ||| other.score.total_rank() == self.score.total_rank() && self.ts.total_rank()
            < other.ts.total_rank()
    }

    proof fn ahead_is_an_order(a: Self, b: Self, c: Self) {
    }

    fn is_ahead(&self, other: &Self) -> bool {
        other.score.total_before(self.score) || (!self.score.total_before(other.score)
            && self.ts.total_before(other.ts))
    }
}

impl Ranked for Tile {
    /// A better score comes first; of equal scores, the smaller file id.
    open spec fn ahead(self, other: Self) -> bool {
        ||| other.score.total_rank() < self.score.total_rank()
        ||| other.score.total_rank() == self.score.total_rank() && self.file < other.file
    }

    proof fn ahead_is_an_order(a: Self, b: Self, c: Self) {
    }

    fn is_ahead(&self, other: &Self) -> bool {
        other.score.total_before(self.score) || (!self.score.total_before(other.score)
            && self.file < other.file)
    }
}

/// The hits on one item.
pub open spec fn hits_on(hits: Seq<ScoredHit>, file: FileId) -> Seq<ScoredHit> {
    hits.filter(|h: ScoredHit| h.file == file)
}

/// The best score of some hits: the first, unless a later one is greater.
pub open spec fn best_score(hits: Seq<ScoredHit>) -> Float32
    decreases hits.len(),
{
    if hits.len() <= 1 {
        hits[0].score
    } else {
        let best = best_score(hits.drop_last());
        if best.less(hits.last().score) {
            hits.last().score
        } else {
            best
        }
    }
}

/// The timestamps of some hits, each with the score of its hit.
pub open spec fn stamps(hits: Seq<ScoredHit>) -> Seq<Stamp>
    decreases hits.len(),
{
    if hits.len() == 0 {
        Seq::empty()
    } else {
        match hits.last().frame_ts {
            Some(ts) => stamps(hits.drop_last()).push(Stamp { ts, score: hits.last().score }),
            None => stamps(hits.drop_last()),
        }
    }
}

/// The timestamps of a sequence of stamps.
pub open spec fn times_of(stamps: Seq<Stamp>) -> Seq<Float32> {
    Seq::new(stamps.len(), |i: int| stamps[i].ts)
}

/// Whether a tile is what the hits on its item collapse to.
pub open spec fn collapses(tile: Tile, own: Seq<ScoredHit>) -> bool {
    &&& own.len() > 0
    &&& tile.score == best_score(own)
    &&& exists|sorted: Seq<Stamp>| #[trigger]
        sorts(sorted, stamps(own)) && tile.matched_timestamps@ == times_of(sorted)
}

/// Whether some tiles are what hits collapse to: one tile for each item that
/// was hit, the best first.
pub open spec fn collapsed(tiles: Seq<Tile>, hits: Seq<ScoredHit>) -> bool {
    &&& in_order(tiles)
    &&& forall|i: int, j: int|
        0 <= i < j < tiles.len() ==> (#[trigger] tiles[i]).file != (#[trigger] tiles[j]).file
    &&& forall|i: int|
        0 <= i < tiles.len() ==> collapses(
            #[trigger] tiles[i],
            hits_on(hits, tiles[i].file),
        )
    &&& forall|i: int|
        0 <= i < hits.len() ==> exists|k: int|
            0 <= k < tiles.len() && (#[trigger] tiles[k]).file == (#[trigger] hits[i]).file
}

/// Whether `meta` may have given a tile its kind and its thumbnail.
pub open spec fn described<F: Fn(FileId) -> TileMeta>(tile: Tile, meta: F) -> bool {
    call_ensures(meta, (tile.file,), TileMeta { kind: tile.kind, thumb_id: tile.thumb_id })
}

struct Gathered {
    file: FileId,
    score: Float32,
    stamps: Vec<Stamp>,
}

spec fn gathers(g: Gathered, own: Seq<ScoredHit>) -> bool {
    own.len() > 0 && g.score == best_score(own) && g.stamps@ == stamps(own)
}

spec fn gathered_file(groups: Seq<Gathered>, file: FileId) -> bool {
    exists|k: int| 0 <= k < groups.len() && (#[trigger] groups[k]).file == file
}

spec fn gathered_all(
    index: Map<i64, usize>,
    groups: Seq<Gathered>,
    hits: Seq<ScoredHit>,
) -> bool {
    &&& forall|f: i64| #[trigger] index.contains_key(f) <==> hits_on(hits, f).len() > 0
    &&& forall|f: i64| #[trigger]
        index.contains_key(f) ==> index[f] < groups.len() && groups[index[f] as int].file == f
    &&& forall|k: int|
        0 <= k < groups.len() ==> index.contains_key((#[trigger] groups[k]).file)
            && index[groups[k].file] == k
    &&& forall|k: int|
        0 <= k < groups.len() ==> gathers(#[trigger] groups[k], hits_on(hits, groups[k].file))
}

proof fn lemma_hits_push(hits: Seq<ScoredHit>, hit: ScoredHit, file: FileId)
    ensures
        hits_on(hits.push(hit), file) == if hit.file == file {
            hits_on(hits, file).push(hit)
        } else {
            hits_on(hits, file)
        },
{
    reveal(Seq::filter);
    assert(hits.push(hit).drop_last() =~= hits);
}

proof fn lemma_own_push(own: Seq<ScoredHit>, hit: ScoredHit)
    ensures
        own.len() == 0 ==> best_score(own.push(hit)) == hit.score,
        own.len() > 0 ==> best_score(own.push(hit)) == if best_score(own).less(hit.score) {
            hit.score
        } else {
            best_score(own)
        },
        stamps(own.push(hit)) == match hit.frame_ts {
            Some(ts) => stamps(own).push(Stamp { ts, score: hit.score }),
            None => stamps(own),
        },
{
    assert(own.push(hit).drop_last() =~= own);
}

/// Gathers the score and the timestamps of each item.
fn gather(hits: &Vec<ScoredHit>) -> (groups: Vec<Gathered>)
    ensures
        forall|i: int, j: int|
            0 <= i < j < groups@.len() ==> (#[trigger] groups@[i]).file != (
            #[trigger] groups@[j]).file,
        forall|k: int|
            0 <= k < groups@.len() ==> gathers(
                #[trigger] groups@[k],
                hits_on(hits@, groups@[k].file),
            ),
        forall|i: int|
            0 <= i < hits@.len() ==> gathered_file(groups@, (#[trigger] hits@[i]).file),
{
    broadcast use vstd::std_specs::hash::group_hash_axioms;

    let mut index: HashMap<i64, usize> = HashMap::new();
    let mut groups: Vec<Gathered> = Vec::new();
    let mut i: usize = 0;
    proof {
        reveal(Seq::filter);
        assert(forall|f: i64| hits_on(hits@.take(0), f).len() == 0);
    }
    while i < hits.len()
        invariant
            i <= hits@.len(),
            gathered_all(index@, groups@, hits@.take(i as int)),
        decreases hits@.len() - i,
    {
        broadcast use vstd::std_specs::hash::group_hash_axioms;

        let hit = hits[i];
        let ghost before = hits@.take(i as int);
        let ghost old_groups = groups@;
        let ghost old_index = index@;
        proof {
            assert(hits@.take(i + 1) =~= before.push(hit));
            assert forall|f: i64| hits_on(before.push(hit), f) == if hit.file == f {
                #[trigger] hits_on(before, f).push(hit)
            } else {
                hits_on(before, f)
            } by {
                lemma_hits_push(before, hit, f);
            }
            lemma_own_push(hits_on(before, hit.file), hit);
            lemma_hits_push(before, hit, hit.file);
        }
        let found: Option<usize> = match index.get(&hit.file) {
            Some(k) => Some(*k),
            None => None,
        };
        match found {
            Some(k) => {
                let group = &mut groups[k];
                if group.score.lt(hit.score) {
                    group.score = hit.score;
                }
                if let Some(ts) = hit.frame_ts {
                    group.stamps.push(Stamp { ts, score: hit.score });
                }
            },
            None => {
                let mut own: Vec<Stamp> = Vec::new();
                if let Some(ts) = hit.frame_ts {
                    own.push(Stamp { ts, score: hit.score });
                }
                proof {
                    assert(hits_on(before, hit.file) =~= Seq::empty());
                }
                index.insert(hit.file, groups.len());
                groups.push(Gathered { file: hit.file, score: hit.score, stamps: own });
            },
        }
        proof {
            let now = before.push(hit);
            assert forall|k: int| 0 <= k < groups@.len() implies gathers(
                #[trigger] groups@[k],
                hits_on(now, groups@[k].file),
            ) by {
                lemma_hits_push(before, hit, groups@[k].file);
                if k < old_groups.len() && groups@[k].file != hit.file {
                    assert(groups@[k] == old_groups[k]);
                }
            }
            assert forall|f: i64| #[trigger] index@.contains_key(f) <==> hits_on(now, f).len()
                > 0 by {
                lemma_hits_push(before, hit, f);
                assert(old_index.contains_key(f) <==> hits_on(before, f).len() > 0);
            }
        }
        i += 1;
    }
    proof {
        assert(hits@.take(hits@.len() as int) =~= hits@);
        assert forall|i: int| 0 <= i < hits@.len() implies gathered_file(
            groups@,
            (#[trigger] hits@[i]).file,
        ) by {
            let f = hits@[i].file;
            let p = |h: ScoredHit| h.file == f;
            assert(hits@.filter(p).len() > 0) by {
                hits@.lemma_filter_contains(p, i);
            }
            assert(hits_on(hits@, f) =~= hits@.filter(p));
            assert(index@.contains_key(f));
            assert(groups@[index@[f] as int].file == f);
        }
    }
    groups
}

/// Whether a tile may have been made of a group.
spec fn tiled<F: Fn(FileId) -> TileMeta>(tile: Tile, group: Gathered, meta: F) -> bool {
    &&& tile.file == group.file
    &&& tile.score == group.score
    &&& exists|sorted: Seq<Stamp>| #[trigger]
        sorts(sorted, group.stamps@) && tile.matched_timestamps@ == times_of(sorted)
    &&& described(tile, meta)
}

fn tile_of<F>(group: Gathered, meta: &F) -> (tile: Tile) where F: Fn(FileId) -> TileMeta
    requires
        call_requires(*meta, (group.file,)),
    ensures
        tiled(tile, group, *meta),
{
    let stamps = sort(group.stamps);
    let mut times: Vec<Float32> = Vec::new();
    let mut i: usize = 0;
    while i < stamps.len()
        invariant
            i <= stamps@.len(),
            times@ == times_of(stamps@).take(i as int),
        decreases stamps@.len() - i,
    {
        times.push(stamps[i].ts);
        i += 1;
        assert(times@ =~= times_of(stamps@).take(i as int));
    }
    assert(times@ =~= times_of(stamps@));
    let m = meta(group.file);
    Tile {
        file: group.file,
        kind: m.kind,
        thumb_id: m.thumb_id,
        score: group.score,
        matched_timestamps: times,
    }
}

proof fn lemma_distinct_after_sort(out: Seq<Tile>, tiles: Seq<Tile>)
    requires
        out.to_multiset() == tiles.to_multiset(),
        forall|i: int, j: int|
            0 <= i < j < tiles.len() ==> (#[trigger] tiles[i]).file != (#[trigger] tiles[j]).file,
    ensures
        forall|i: int, j: int|
            0 <= i < j < out.len() ==> (#[trigger] out[i]).file != (#[trigger] out[j]).file,
        forall|i: int| 0 <= i < out.len() ==> tiles.contains(#[trigger] out[i]),
        forall|i: int| 0 <= i < tiles.len() ==> out.contains(#[trigger] tiles[i]),
{
    broadcast use vstd::seq_lib::group_to_multiset_ensures;

    assert forall|i: int| 0 <= i < out.len() implies tiles.contains(#[trigger] out[i]) by {
        assert(out.to_multiset().contains(out[i]));
    }
    assert forall|i: int| 0 <= i < tiles.len() implies out.contains(#[trigger] tiles[i]) by {
        assert(tiles.to_multiset().contains(tiles[i]));
    }
    assert(tiles.no_duplicates());
    tiles.lemma_multiset_has_no_duplicates();
    out.lemma_multiset_has_no_duplicates_conv();
    assert forall|i: int, j: int| 0 <= i < j < out.len() implies (#[trigger] out[i]).file != (
    #[trigger] out[j]).file by {
        let a = tiles.index_of(out[i]);
        let b = tiles.index_of(out[j]);
        assert(tiles[a] == out[i] && tiles[b] == out[j]);
        assert(out[i] != out[j]);
    }
}

/// Collapses hits to tiles, the best first.
pub fn collapse<F>(hits: Vec<ScoredHit>, meta: F) -> (tiles: Vec<Tile>) where
    F: Fn(FileId) -> TileMeta,

    requires
        forall|file: FileId| call_requires(meta, (file,)),
    ensures
        collapsed(tiles@, hits@),
        forall|i: int| 0 <= i < tiles@.len() ==> described(#[trigger] tiles@[i], meta),
{
    let mut groups = gather(&hits);
    let ghost all = groups@;
    let mut tiles: Vec<Tile> = Vec::new();
    while groups.len() > 0
        invariant
            forall|file: FileId| call_requires(meta, (file,)),
            groups@.len() + tiles@.len() == all.len(),
            groups@ == all.take(groups@.len() as int),
            forall|k: int|
                0 <= k < tiles@.len() ==> tiled(
                    #[trigger] tiles@[k],
                    all[all.len() - 1 - k],
                    meta,
                ),
        decreases groups@.len(),
    {
        let ghost n = groups@.len() as int;
        let group = groups.pop().unwrap();
        assert(group == all[n - 1]);
        assert(groups@ =~= all.take(n - 1));
        tiles.push(tile_of(group, &meta));
    }
    let ghost made = tiles@;
    let tiles = sort(tiles);
    proof {
        assert forall|i: int, j: int| 0 <= i < j < made.len() implies (#[trigger] made[i]).file != (
        #[trigger] made[j]).file by {
            let (a, b) = (all.len() - 1 - i, all.len() - 1 - j);
            assert(all[b].file != all[a].file);
        }
        lemma_distinct_after_sort(tiles@, made);
        assert forall|i: int| 0 <= i < tiles@.len() implies collapses(
            #[trigger] tiles@[i],
            hits_on(hits@, tiles@[i].file),
        ) && described(tiles@[i], meta) by {
            let k = made.index_of(tiles@[i]);
            assert(made[k] == tiles@[i]);
            let group = all[all.len() - 1 - k];
            assert(tiled(made[k], group, meta));
            assert(gathers(group, hits_on(hits@, group.file)));
        }
        assert forall|i: int| 0 <= i < hits@.len() implies exists|k: int|
            0 <= k < tiles@.len() && (#[trigger] tiles@[k]).file == (
            #[trigger] hits@[i]).file by {
            assert(gathered_file(all, hits@[i].file));
            let g = choose|g: int|
                0 <= g < all.len() && (#[trigger] all[g]).file == hits@[i].file;
            let m = all.len() - 1 - g;
            assert(tiled(made[m], all[g], meta));
            let k = tiles@.index_of(made[m]);
            assert(tiles@[k] == made[m]);
        }
    }
    tiles
}

// ---------------------------------------------------------------------------
// Floor and cap
// ---------------------------------------------------------------------------

/// The tiles whose score is not below a floor.
pub open spec fn above_floor(tiles: Seq<Tile>, floor: Float32) -> Seq<Tile> {
    tiles.filter(|t: Tile| floor.at_most(t.score))
}

/// At most the first `cap` tiles.
pub open spec fn capped(tiles: Seq<Tile>, cap: nat) -> Seq<Tile> {
    if tiles.len() <= cap {
        tiles
    } else {
        tiles.take(cap as int)
    }
}

/// Drops the tiles below a floor.
pub fn keep_above_floor(tiles: Vec<Tile>, floor: Float32) -> (kept: Vec<Tile>)
    ensures
        kept@ == above_floor(tiles@, floor),
{
    let ghost all = tiles@;
    let mut left = reversed(tiles);
    let mut kept: Vec<Tile> = Vec::new();
    proof {
        reveal(Seq::filter);
        assert(kept@ =~= above_floor(all.take(0), floor));
    }
    while left.len() > 0
        invariant
            left@.len() <= all.len(),
            left@ == all.reverse().take(left@.len() as int),
            kept@ == above_floor(all.take(all.len() - left@.len()), floor),
        decreases left@.len(),
    {
        let ghost n = all.len() - left@.len();
        let tile = left.pop().unwrap();
        proof {
            reveal(Seq::filter);
            assert(tile == all[n]);
            assert(all.take(n + 1).drop_last() =~= all.take(n));
            assert(left@ =~= all.reverse().take(left@.len() as int));
        }
        if floor.le(tile.score) {
            kept.push(tile);
        }
    }
    assert(all.take(all.len() as int) =~= all);
    kept
}

// ---------------------------------------------------------------------------
// Cliff
// ---------------------------------------------------------------------------

/// Whether `cliff` is the divider for tiles with the given gaps between them:
/// at the first of the largest gaps, where that is `min_gap` or more.
pub open spec fn divides(gaps: Seq<Float32>, min_gap: Float32, cliff: Option<Cliff>) -> bool {
    match cliff {
        Some(c) => {
            &&& 1 <= c.above <= gaps.len()
            &&& c.gap == gaps[c.above - 1]
            &&& min_gap.at_most(c.gap)
            &&& forall|j: int|
                0 <= j < c.above - 1 && min_gap.at_most(gaps[j]) ==> (#[trigger] gaps[j]).less(
                    c.gap,
                )
            &&& forall|j: int|
                c.above - 1 < j < gaps.len() && min_gap.at_most(gaps[j]) ==> (
                #[trigger] gaps[j]).at_most(c.gap)
        },
        None => forall|j: int| 0 <= j < gaps.len() ==> !min_gap.at_most(#[trigger] gaps[j]),
    }
}

/// Finds the divider for tiles with the given gaps between them.
pub fn detect_cliff(gaps: &Vec<Float32>, min_gap: Float32) -> (cliff: Option<Cliff>)
    ensures
        divides(gaps@, min_gap, cliff),
{
    let mut best: Option<Cliff> = None;
    let mut i: usize = 0;
    while i < gaps.len()
        invariant
            i <= gaps@.len(),
            divides(gaps@.take(i as int), min_gap, best),
        decreases gaps@.len() - i,
    {
        let ghost before = gaps@.take(i as int);
        let ghost now = gaps@.take(i + 1);
        assert(forall|j: int| 0 <= j < i ==> before[j] == now[j]);
        let gap = gaps[i];
        let larger = match best {
            Some(b) => b.gap.lt(gap),
            None => true,
        };
        if min_gap.le(gap) && larger {
            best = Some(Cliff { above: i + 1, gap });
        }
        i += 1;
    }
    assert(gaps@.take(gaps@.len() as int) =~= gaps@);
    best
}

// ---------------------------------------------------------------------------
// The pipeline
// ---------------------------------------------------------------------------

/// Whether `minus` may have computed the gaps between neighbouring tiles.
pub open spec fn gaps_between<M: Fn(Float32, Float32) -> Float32>(
    tiles: Seq<Tile>,
    gaps: Seq<Float32>,
    minus: M,
) -> bool {
    &&& gaps.len() == if tiles.len() == 0 {
        0
    } else {
        tiles.len() - 1
    }
    &&& forall|i: int|
        0 <= i < gaps.len() ==> call_ensures(
            minus,
            (tiles[i].score, tiles[i + 1].score),
            #[trigger] gaps[i],
        )
}

/// Whether some tiles are left of `all` after the floor and the cap. The floor
/// is the product of `floor_alpha` and the best score.
pub open spec fn cut<T: Fn(Float32, Float32) -> Float32>(
    all: Seq<Tile>,
    config: ResultConfig,
    times: T,
    tiles: Seq<Tile>,
) -> bool {
    if all.len() == 0 {
        tiles.len() == 0
    } else {
        exists|floor: Float32| #[trigger]
            call_ensures(times, (config.floor_alpha, all[0].score), floor) && tiles == capped(
                above_floor(all, floor),
                config.tile_cap as nat,
            )
    }
}

/// Whether `ranked` is what hits come to: they collapse to tiles, the tiles are
/// cut, and the divider stands where it belongs.
pub open spec fn ranks<F, T, M>(
    hits: Seq<ScoredHit>,
    config: ResultConfig,
    meta: F,
    times: T,
    minus: M,
    ranked: RankedTiles,
) -> bool where
    F: Fn(FileId) -> TileMeta,
    T: Fn(Float32, Float32) -> Float32,
    M: Fn(Float32, Float32) -> Float32,
 {
    &&& exists|all: Seq<Tile>| #[trigger]
        collapsed(all, hits) && cut(all, config, times, ranked.tiles@)
    &&& forall|i: int|
        0 <= i < ranked.tiles@.len() ==> described(#[trigger] ranked.tiles@[i], meta)
    &&& exists|gaps: Seq<Float32>| #[trigger]
        gaps_between(ranked.tiles@, gaps, minus) && divides(
            gaps,
            config.cliff_min_gap,
            ranked.cliff,
        )
}

/// Turns hits into the tiles of a search, with an optional divider.
///
/// `meta` describes an item. `times` multiplies and `minus` subtracts scores.
pub fn rank_tiles<F, T, M>(
    hits: Vec<ScoredHit>,
    config: &ResultConfig,
    meta: F,
    times: T,
    minus: M,
) -> (ranked: RankedTiles) where
    F: Fn(FileId) -> TileMeta,
    T: Fn(Float32, Float32) -> Float32,
    M: Fn(Float32, Float32) -> Float32,

    requires
        forall|file: FileId| call_requires(meta, (file,)),
        forall|a: Float32, b: Float32| call_requires(times, (a, b)),
        forall|a: Float32, b: Float32| call_requires(minus, (a, b)),
    ensures
        ranks(hits@, *config, meta, times, minus, ranked),
{
    let tiles = collapse(hits, meta);
    let ghost all = tiles@;
    let mut tiles = tiles;
    if tiles.len() > 0 {
        let floor = times(config.floor_alpha, tiles[0].score);
        tiles = keep_above_floor(tiles, floor);
        proof {
            assert forall|i: int| 0 <= i < tiles@.len() implies described(
                #[trigger] tiles@[i],
                meta,
            ) by {
                let p = |t: Tile| floor.at_most(t.score);
                all.lemma_filter_contains_rev(p, tiles@[i]);
            }
        }
    }
    if tiles.len() > config.tile_cap {
        tiles.truncate(config.tile_cap);
    }
    assert(cut(all, *config, times, tiles@));
    let mut gaps: Vec<Float32> = Vec::new();
    let mut i: usize = 1;
    while i < tiles.len()
        invariant
            1 <= i,
            tiles@.len() == 0 ==> gaps@.len() == 0,
            tiles@.len() > 0 ==> i <= tiles@.len() && gaps@.len() == i - 1,
            forall|a: Float32, b: Float32| call_requires(minus, (a, b)),
            forall|k: int|
                0 <= k < gaps@.len() ==> call_ensures(
                    minus,
                    (tiles@[k].score, tiles@[k + 1].score),
                    #[trigger] gaps@[k],
                ),
        decreases tiles@.len() - i,
    {
        gaps.push(minus(tiles[i - 1].score, tiles[i].score));
        i += 1;
    }
    let cliff = detect_cliff(&gaps, config.cliff_min_gap);
    let ranked = RankedTiles { tiles, cliff };
    assert(gaps_between(ranked.tiles@, gaps@, minus));
    assert(divides(gaps@, config.cliff_min_gap, ranked.cliff));
    ranked
}

// ---------------------------------------------------------------------------
// Laws
// ---------------------------------------------------------------------------

/// The score of a tile is the score of one of its units, and where all scores
/// are numbers none of its units has a greater one.
pub proof fn lemma_best_score(own: Seq<ScoredHit>)
    requires
        own.len() > 0,
    ensures
        exists|i: int| 0 <= i < own.len() && (#[trigger] own[i]).score == best_score(own),
        (forall|i: int| 0 <= i < own.len() ==> !(#[trigger] own[i]).score.nan()) ==> forall|
            i: int,
        |
            0 <= i < own.len() ==> (#[trigger] own[i]).score.at_most(best_score(own)),
    decreases own.len(),
{
    if own.len() == 1 {
        assert(own[0].score == best_score(own));
    } else {
        let init = own.drop_last();
        lemma_best_score(init);
        let k = choose|i: int| 0 <= i < init.len() && (#[trigger] init[i]).score == best_score(
            init,
        );
        assert(own[k] == init[k]);
        assert(own[own.len() - 1] == own.last());
        if forall|i: int| 0 <= i < own.len() ==> !(#[trigger] own[i]).score.nan() {
            assert forall|i: int| 0 <= i < init.len() implies !(#[trigger] init[i]).score.nan() by {
                assert(init[i] == own[i]);
            }
            assert forall|i: int| 0 <= i < own.len() implies (#[trigger] own[i]).score.at_most(
                best_score(own),
            ) by {
                if i < init.len() {
                    assert(init[i] == own[i]);
                }
            }
        }
    }
}

proof fn lemma_stamps_hold(own: Seq<ScoredHit>, i: int)
    requires
        0 <= i < own.len(),
        own[i].frame_ts is Some,
    ensures
        stamps(own).contains(Stamp { ts: own[i].frame_ts->0, score: own[i].score }),
    decreases own.len(),
{
    let stamp = Stamp { ts: own[i].frame_ts->0, score: own[i].score };
    let init = own.drop_last();
    if i < init.len() {
        lemma_stamps_hold(init, i);
        let k = stamps(init).index_of(stamp);
        assert(stamps(own)[k] == stamp);
    } else {
        assert(stamps(own).last() == stamp);
    }
}

/// A tile keeps the timestamp of every unit that has one.
pub proof fn lemma_timestamps_kept(tile: Tile, own: Seq<ScoredHit>, i: int)
    requires
        collapses(tile, own),
        0 <= i < own.len(),
        own[i].frame_ts is Some,
    ensures
        tile.matched_timestamps@.contains(own[i].frame_ts->0),
{
    broadcast use vstd::seq_lib::group_to_multiset_ensures;

    let stamp = Stamp { ts: own[i].frame_ts->0, score: own[i].score };
    let sorted = choose|sorted: Seq<Stamp>| #[trigger]
        sorts(sorted, stamps(own)) && tile.matched_timestamps@ == times_of(sorted);
    lemma_stamps_hold(own, i);
    assert(stamps(own).to_multiset().contains(stamp));
    assert(sorted.contains(stamp));
    let k = sorted.index_of(stamp);
    assert(tile.matched_timestamps@[k] == stamp.ts);
}

proof fn lemma_no_stamps(own: Seq<ScoredHit>)
    requires
        forall|i: int| 0 <= i < own.len() ==> (#[trigger] own[i]).frame_ts is None,
    ensures
        stamps(own).len() == 0,
    decreases own.len(),
{
    if own.len() > 0 {
        assert forall|i: int| 0 <= i < own.drop_last().len() implies (
        #[trigger] own.drop_last()[i]).frame_ts is None by {
            assert(own.drop_last()[i] == own[i]);
        }
        lemma_no_stamps(own.drop_last());
    }
}

/// A tile whose units have no timestamps, which is an image, has none either.
pub proof fn lemma_image_has_no_timestamps(tile: Tile, own: Seq<ScoredHit>)
    requires
        collapses(tile, own),
        forall|i: int| 0 <= i < own.len() ==> (#[trigger] own[i]).frame_ts is None,
    ensures
        tile.matched_timestamps@.len() == 0,
{
    lemma_no_stamps(own);
    let sorted = choose|sorted: Seq<Stamp>| #[trigger]
        sorts(sorted, stamps(own)) && tile.matched_timestamps@ == times_of(sorted);
    sorted.to_multiset_ensures();
    stamps(own).to_multiset_ensures();
}

proof fn lemma_same_tiles_from(a: Seq<Tile>, b: Seq<Tile>, hits: Seq<ScoredHit>, i: int)
    requires
        collapsed(a, hits),
        collapsed(b, hits),
        0 <= i,
        i <= a.len(),
        i <= b.len(),
        forall|k: int| 0 <= k < i ==> (#[trigger] a[k]).file == b[k].file,
    ensures
        i < a.len() <==> i < b.len(),
        i < a.len() ==> a[i].file == b[i].file,
{
    if i < a.len() {
        lemma_tile_elsewhere(a, b, hits, i);
    }
    if i < b.len() {
        lemma_tile_elsewhere(b, a, hits, i);
    }
    if i < a.len() && i < b.len() {
        let j = choose|j: int| i <= j < b.len() && (#[trigger] b[j]).file == a[i].file;
        let k = choose|k: int| i <= k < a.len() && (#[trigger] a[k]).file == b[i].file;
        assert(collapses(a[i], hits_on(hits, a[i].file)));
        assert(collapses(b[j], hits_on(hits, b[j].file)));
        assert(collapses(a[k], hits_on(hits, a[k].file)));
        assert(collapses(b[i], hits_on(hits, b[i].file)));
        if a[i].file != b[i].file {
            assert(!b[j].ahead(b[i]));
            assert(!a[k].ahead(a[i]));
        }
    }
}

proof fn lemma_tile_elsewhere(a: Seq<Tile>, b: Seq<Tile>, hits: Seq<ScoredHit>, i: int)
    requires
        collapsed(a, hits),
        collapsed(b, hits),
        0 <= i < a.len(),
        i <= b.len(),
        forall|k: int| 0 <= k < i ==> (#[trigger] a[k]).file == b[k].file,
    ensures
        exists|j: int| i <= j < b.len() && (#[trigger] b[j]).file == a[i].file,
{
    let own = hits_on(hits, a[i].file);
    assert(collapses(a[i], own));
    let p = |h: ScoredHit| h.file == a[i].file;
    assert(own =~= hits.filter(p));
    hits.lemma_filter_pred(p, 0);
    assert(own.contains(own[0]));
    hits.lemma_filter_contains_rev(p, own[0]);
    let h = hits.index_of(own[0]);
    assert(hits[h].file == a[i].file);
    let j = choose|j: int| 0 <= j < b.len() && (#[trigger] b[j]).file == hits[h].file;
    if j < i {
        assert(a[j].file == b[j].file);
    }
}

/// Hits collapse to the same tiles in the same order, however the items were
/// gathered: same files, scores and timestamps.
pub proof fn lemma_collapse_is_determined(a: Seq<Tile>, b: Seq<Tile>, hits: Seq<ScoredHit>)
    requires
        collapsed(a, hits),
        collapsed(b, hits),
    ensures
        a.len() == b.len(),
        forall|i: int|
            0 <= i < a.len() ==> {
                &&& (#[trigger] a[i]).file == b[i].file
                &&& a[i].score == b[i].score
                &&& a[i].matched_timestamps@ == b[i].matched_timestamps@
            },
{
    lemma_same_files(a, b, hits, a.len());
    assert forall|i: int| 0 <= i < a.len() implies (#[trigger] a[i]).file == b[i].file
        && a[i].score == b[i].score && a[i].matched_timestamps@ == b[i].matched_timestamps@ by {
        let own = hits_on(hits, a[i].file);
        assert(collapses(a[i], own));
        assert(collapses(b[i], own));
        let s = choose|s: Seq<Stamp>| #[trigger]
            sorts(s, stamps(own)) && a[i].matched_timestamps@ == times_of(s);
        let t = choose|t: Seq<Stamp>| #[trigger]
            sorts(t, stamps(own)) && b[i].matched_timestamps@ == times_of(t);
        crate::sort::lemma_sorts_once(s, t, stamps(own));
    }
}

proof fn lemma_same_files(a: Seq<Tile>, b: Seq<Tile>, hits: Seq<ScoredHit>, n: nat)
    requires
        collapsed(a, hits),
        collapsed(b, hits),
        n <= a.len(),
    ensures
        n <= b.len(),
        forall|i: int| 0 <= i < n ==> (#[trigger] a[i]).file == b[i].file,
        n == a.len() ==> a.len() == b.len(),
    decreases n,
{
    if n > 0 {
        lemma_same_files(a, b, hits, (n - 1) as nat);
        lemma_same_tiles_from(a, b, hits, n - 1);
    }
    lemma_same_tiles_from(a, b, hits, n as int);
}

/// What is left after the floor and the cap: no more tiles than the cap, all of
/// them at the floor or above and in order; and a tile that clears the floor is
/// missing only where the cap is reached.
pub proof fn lemma_cut(all: Seq<Tile>, floor: Float32, cap: nat)
    requires
        in_order(all),
    ensures
        capped(above_floor(all, floor), cap).len() <= cap,
        in_order(capped(above_floor(all, floor), cap)),
        forall|i: int|
            0 <= i < capped(above_floor(all, floor), cap).len() ==> floor.at_most(
                (#[trigger] capped(above_floor(all, floor), cap)[i]).score,
            ) && all.contains(capped(above_floor(all, floor), cap)[i]),
        forall|i: int|
            0 <= i < all.len() && floor.at_most((#[trigger] all[i]).score) ==> capped(
                above_floor(all, floor),
                cap,
            ).contains(all[i]) || capped(above_floor(all, floor), cap).len() == cap,
{
    let p = |t: Tile| floor.at_most(t.score);
    let kept = above_floor(all, floor);
    let left = capped(kept, cap);
    assert(kept =~= all.filter(p));
    assert forall|i: int| 0 <= i < left.len() implies floor.at_most((#[trigger] left[i]).score)
        && all.contains(left[i]) by {
        assert(left[i] == kept[i]);
        all.lemma_filter_pred(p, i);
        assert(kept.contains(kept[i]));
        all.lemma_filter_contains_rev(p, kept[i]);
    }
    assert forall|i: int| 0 <= i < all.len() && floor.at_most((#[trigger] all[i]).score) implies (
    left.contains(all[i]) || left.len() == cap) by {
        all.lemma_filter_contains(p, i);
    }
    lemma_filter_in_order(all, floor);
    assert(forall|i: int| 0 <= i < left.len() ==> left[i] == kept[i]);
}

proof fn lemma_filter_in_order(all: Seq<Tile>, floor: Float32)
    requires
        in_order(all),
    ensures
        in_order(above_floor(all, floor)),
    decreases all.len(),
{
    reveal(Seq::filter);
    if all.len() > 0 {
        let init = all.drop_last();
        assert(forall|i: int| 0 <= i < init.len() ==> init[i] == all[i]);
        lemma_filter_in_order(init, floor);
        let p = |t: Tile| floor.at_most(t.score);
        let kept = above_floor(init, floor);
        assert forall|i: int| 0 <= i < kept.len() implies !all.last().ahead(#[trigger] kept[i]) by {
            assert(kept =~= init.filter(p));
            assert(kept.contains(kept[i]));
            init.lemma_filter_contains_rev(p, kept[i]);
            let k = init.index_of(kept[i]);
            assert(all[k] == kept[i]);
        }
    }
}

/// The divider stands between two of the tiles that are returned.
pub proof fn lemma_cliff_within<M: Fn(Float32, Float32) -> Float32>(
    tiles: Seq<Tile>,
    gaps: Seq<Float32>,
    minus: M,
    min_gap: Float32,
    cliff: Cliff,
)
    requires
        gaps_between(tiles, gaps, minus),
        divides(gaps, min_gap, Some(cliff)),
    ensures
        0 < cliff.above < tiles.len(),
        call_ensures(
            minus,
            (tiles[cliff.above - 1].score, tiles[cliff.above as int].score),
            cliff.gap,
        ),
{
}

}
