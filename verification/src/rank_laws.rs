//! What a ranking says of the hits, and that the order in which they come in does
//! not matter.

use crate::config::ResultConfig;
use crate::float32::{lemma_total_rank_refines, Float32};
use crate::rank::{
    above_floor, best_score, capped, collapsed, collapses, cut, described, divides, gaps_between,
    hits_on, lemma_best_score, lemma_collapse_is_determined, lemma_cut, ranks, stamps, times_of, Cliff,
    RankedTiles, Stamp, Tile, TileMeta,
};
use crate::sort::{level, levels_of, sorts, Ranked};
use crate::types::{FileId, ScoredHit};
use vstd::prelude::*;

verus! {

/// Whether a score is a number and not minus zero. Two such scores are the same
/// as soon as neither is less than the other.
pub open spec fn plain(score: Float32) -> bool {
    !score.nan() && score != (Float32 { bits: 0x8000_0000 })
}

/// Whether two sequences of tiles show the same.
pub open spec fn same_tiles(a: Seq<Tile>, b: Seq<Tile>) -> bool {
    &&& a.len() == b.len()
    &&& forall|i: int|
        0 <= i < a.len() ==> {
            &&& (#[trigger] a[i]).file == b[i].file
            &&& a[i].score == b[i].score
            &&& a[i].matched_timestamps@ == b[i].matched_timestamps@
        }
}

/// Whether a function of two scores has one result at most.
pub open spec fn one_result<T: Fn(Float32, Float32) -> Float32>(f: T) -> bool {
    forall|a: Float32, b: Float32, x: Float32, y: Float32|
        #![trigger call_ensures(f, (a, b), x), call_ensures(f, (a, b), y)]
        call_ensures(f, (a, b), x) && call_ensures(f, (a, b), y) ==> x == y
}

/// Whether an item is described in one way at most.
pub open spec fn one_meta<F: Fn(FileId) -> TileMeta>(meta: F) -> bool {
    forall|file: FileId, x: TileMeta, y: TileMeta|
        #![trigger call_ensures(meta, (file,), x), call_ensures(meta, (file,), y)]
        call_ensures(meta, (file,), x) && call_ensures(meta, (file,), y) ==> x == y
}

// ---------------------------------------------------------------------------
// Hits and stamps in another order
// ---------------------------------------------------------------------------

proof fn lemma_filtered_bag<A>(s: Seq<A>, p: spec_fn(A) -> bool)
    ensures
        s.filter(p).to_multiset() == s.to_multiset().filter(p),
    decreases s.len(),
{
    broadcast use vstd::seq_lib::group_to_multiset_ensures;

    reveal(Seq::filter);
    if s.len() == 0 {
        s.to_multiset_ensures();
        s.filter(p).to_multiset_ensures();
        assert(s.to_multiset().filter(p) =~= s.filter(p).to_multiset());
    } else {
        let init = s.drop_last();
        lemma_filtered_bag(init, p);
        assert(s =~= init.push(s.last()));
        assert(s.to_multiset() =~= init.to_multiset().insert(s.last()));
        assert(s.filter(p).to_multiset() =~= s.to_multiset().filter(p));
    }
}

/// The stamps of one hit.
spec fn stamp_of(hit: ScoredHit) -> Seq<Stamp> {
    match hit.frame_ts {
        Some(ts) => seq![Stamp { ts, score: hit.score }],
        None => Seq::empty(),
    }
}

proof fn lemma_stamps_without(s: Seq<ScoredHit>, k: int)
    requires
        0 <= k < s.len(),
    ensures
        stamps(s).to_multiset() == stamps(s.remove(k)).to_multiset().add(
            stamp_of(s[k]).to_multiset(),
        ),
    decreases s.len(),
{
    broadcast use vstd::seq_lib::group_to_multiset_ensures;

    let init = s.drop_last();
    let last = s.last();
    lemma_stamp_bag(init, last);
    assert(init.push(last) =~= s);
    if k == s.len() - 1 {
        assert(s.remove(k) =~= init);
    } else {
        lemma_stamps_without(init, k);
        assert(s.remove(k) =~= init.remove(k).push(last));
        lemma_stamp_bag(init.remove(k), last);
        assert(stamps(s).to_multiset() =~= stamps(s.remove(k)).to_multiset().add(
            stamp_of(s[k]).to_multiset(),
        ));
    }
}

proof fn lemma_stamp_bag(s: Seq<ScoredHit>, hit: ScoredHit)
    ensures
        stamps(s.push(hit)).to_multiset() == stamps(s).to_multiset().add(
            stamp_of(hit).to_multiset(),
        ),
{
    broadcast use vstd::seq_lib::group_to_multiset_ensures;

    assert(s.push(hit).drop_last() =~= s);
    Seq::<Stamp>::empty().to_multiset_ensures();
    assert(Seq::<Stamp>::empty().to_multiset() =~= vstd::multiset::Multiset::empty());
    if let Some(ts) = hit.frame_ts {
        let stamp = Stamp { ts, score: hit.score };
        assert(seq![stamp] =~= Seq::<Stamp>::empty().push(stamp));
        assert(seq![stamp].to_multiset() =~= Seq::<Stamp>::empty().to_multiset().insert(stamp));
    }
    assert(stamps(s.push(hit)).to_multiset() =~= stamps(s).to_multiset().add(
        stamp_of(hit).to_multiset(),
    ));
}

proof fn lemma_same_stamps(a: Seq<ScoredHit>, b: Seq<ScoredHit>)
    requires
        a.to_multiset() == b.to_multiset(),
    ensures
        stamps(a).to_multiset() == stamps(b).to_multiset(),
    decreases a.len(),
{
    broadcast use vstd::seq_lib::group_to_multiset_ensures;

    a.to_multiset_ensures();
    b.to_multiset_ensures();
    if a.len() == 0 {
        assert(a =~= b);
    } else {
        let last = a.len() - 1;
        assert(b.to_multiset().contains(a[last]));
        let k = b.index_of(a[last]);
        lemma_stamps_without(a, last);
        lemma_stamps_without(b, k);
        assert(a.remove(last).to_multiset() =~= b.remove(k).to_multiset());
        lemma_same_stamps(a.remove(last), b.remove(k));
    }
}

proof fn lemma_same_best(a: Seq<ScoredHit>, b: Seq<ScoredHit>)
    requires
        a.len() > 0,
        a.to_multiset() == b.to_multiset(),
        forall|i: int| 0 <= i < a.len() ==> plain((#[trigger] a[i]).score),
    ensures
        b.len() > 0,
        best_score(a) == best_score(b),
{
    broadcast use vstd::seq_lib::group_to_multiset_ensures;

    a.to_multiset_ensures();
    b.to_multiset_ensures();
    assert forall|i: int| 0 <= i < b.len() implies a.contains(#[trigger] b[i]) by {
        assert(b.to_multiset().contains(b[i]));
    }
    assert forall|i: int| 0 <= i < a.len() implies b.contains(#[trigger] a[i]) by {
        assert(a.to_multiset().contains(a[i]));
    }
    assert forall|i: int| 0 <= i < b.len() implies plain((#[trigger] b[i]).score) by {
        let k = a.index_of(b[i]);
        assert(a[k] == b[i]);
    }
    lemma_best_score(a);
    lemma_best_score(b);
    let i = choose|i: int| 0 <= i < a.len() && (#[trigger] a[i]).score == best_score(a);
    let j = choose|j: int| 0 <= j < b.len() && (#[trigger] b[j]).score == best_score(b);
    let ib = b.index_of(a[i]);
    let ja = a.index_of(b[j]);
    assert(b[ib].score.at_most(best_score(b)));
    assert(a[ja].score.at_most(best_score(a)));
}

proof fn lemma_levels_by_count(s: Seq<Stamp>, x: Stamp)
    ensures
        levels_of(s, x) == Seq::new(s.to_multiset().count(x), |i: int| x),
    decreases s.len(),
{
    broadcast use vstd::seq_lib::group_to_multiset_ensures;

    reveal(Seq::filter);
    s.to_multiset_ensures();
    if s.len() == 0 {
        assert(levels_of(s, x) =~= Seq::new(s.to_multiset().count(x), |i: int| x));
    } else {
        let init = s.drop_last();
        let last = s.last();
        lemma_levels_by_count(init, x);
        assert(s =~= init.push(last));
        assert(s.to_multiset() =~= init.to_multiset().insert(last));
        crate::float32::lemma_total_rank_injective(x.score, last.score);
        crate::float32::lemma_total_rank_injective(x.ts, last.ts);
        assert(level(x, last) == (x == last));
        assert(levels_of(s, x) =~= Seq::new(s.to_multiset().count(x), |i: int| x));
    }
}

/// What collapses from hits in one order collapses from them in another.
proof fn lemma_collapsed_from(tiles: Seq<Tile>, hits: Seq<ScoredHit>, other: Seq<ScoredHit>)
    requires
        collapsed(tiles, hits),
        hits.to_multiset() == other.to_multiset(),
        forall|i: int| 0 <= i < hits.len() ==> plain((#[trigger] hits[i]).score),
    ensures
        collapsed(tiles, other),
{
    broadcast use vstd::seq_lib::group_to_multiset_ensures;

    hits.to_multiset_ensures();
    other.to_multiset_ensures();
    assert forall|i: int| 0 <= i < other.len() implies exists|k: int|
        0 <= k < tiles.len() && (#[trigger] tiles[k]).file == (#[trigger] other[i]).file by {
        assert(other.to_multiset().contains(other[i]));
        assert(hits.contains(other[i]));
        let h = hits.index_of(other[i]);
        assert(hits[h].file == other[i].file);
    }
    assert forall|i: int| 0 <= i < tiles.len() implies collapses(
        #[trigger] tiles[i],
        hits_on(other, tiles[i].file),
    ) by {
        let file = tiles[i].file;
        let p = |h: ScoredHit| h.file == file;
        let own = hits_on(hits, file);
        let theirs = hits_on(other, file);
        assert(own =~= hits.filter(p));
        assert(theirs =~= other.filter(p));
        lemma_filtered_bag(hits, p);
        lemma_filtered_bag(other, p);
        assert(own.to_multiset() == theirs.to_multiset());
        assert forall|k: int| 0 <= k < own.len() implies plain((#[trigger] own[k]).score) by {
            assert(own.contains(own[k]));
            hits.lemma_filter_contains_rev(p, own[k]);
            let h = hits.index_of(own[k]);
            assert(plain(hits[h].score));
        }
        lemma_same_best(own, theirs);
        lemma_same_stamps(own, theirs);
        let sorted = choose|sorted: Seq<Stamp>| #[trigger]
            sorts(sorted, stamps(own)) && tiles[i].matched_timestamps@ == times_of(sorted);
        assert forall|x: Stamp| #[trigger]
            levels_of(sorted, x) == levels_of(stamps(theirs), x) by {
            lemma_levels_by_count(stamps(own), x);
            lemma_levels_by_count(stamps(theirs), x);
            assert(levels_of(sorted, x) == levels_of(stamps(own), x));
        }
        assert(sorts(sorted, stamps(theirs)));
    }
}

// ---------------------------------------------------------------------------
// The cut and the divider
// ---------------------------------------------------------------------------

proof fn lemma_same_above(a: Seq<Tile>, b: Seq<Tile>, floor: Float32)
    requires
        same_tiles(a, b),
    ensures
        same_tiles(above_floor(a, floor), above_floor(b, floor)),
    decreases a.len(),
{
    reveal(Seq::filter);
    if a.len() > 0 {
        let (x, y) = (a.drop_last(), b.drop_last());
        assert forall|i: int| 0 <= i < x.len() implies (#[trigger] x[i]).file == y[i].file
            && x[i].score == y[i].score && x[i].matched_timestamps@ == y[i].matched_timestamps@ by {
            assert(a[i] == x[i]);
        }
        lemma_same_above(x, y, floor);
        assert(a[a.len() - 1].score == b[b.len() - 1].score);
    }
}

proof fn lemma_same_cut<T: Fn(Float32, Float32) -> Float32>(
    a: Seq<Tile>,
    b: Seq<Tile>,
    config: ResultConfig,
    times: T,
    left: Seq<Tile>,
    right: Seq<Tile>,
)
    requires
        same_tiles(a, b),
        one_result(times),
        cut(a, config, times, left),
        cut(b, config, times, right),
    ensures
        same_tiles(left, right),
{
    if a.len() > 0 {
        let f = choose|f: Float32| #[trigger]
            call_ensures(times, (config.floor_alpha, a[0].score), f) && left == capped(
                above_floor(a, f),
                config.tile_cap as nat,
            );
        let g = choose|g: Float32| #[trigger]
            call_ensures(times, (config.floor_alpha, b[0].score), g) && right == capped(
                above_floor(b, g),
                config.tile_cap as nat,
            );
        assert(a[0].score == b[0].score);
        assert(f == g);
        lemma_same_above(a, b, f);
        let (x, y) = (above_floor(a, f), above_floor(b, f));
        assert forall|i: int| 0 <= i < left.len() implies (#[trigger] left[i]).file
            == right[i].file && left[i].score == right[i].score && left[i].matched_timestamps@
            == right[i].matched_timestamps@ by {
            assert(left[i] == x[i]);
            assert(right[i] == y[i]);
        }
    }
}

/// There is one place for the divider at most.
pub proof fn lemma_divides_once(
    gaps: Seq<Float32>,
    min_gap: Float32,
    a: Option<Cliff>,
    b: Option<Cliff>,
)
    requires
        divides(gaps, min_gap, a),
        divides(gaps, min_gap, b),
    ensures
        a == b,
{
    match (a, b) {
        (Some(x), Some(y)) => {
            assert(min_gap.at_most(gaps[x.above - 1]));
            assert(min_gap.at_most(gaps[y.above - 1]));
        },
        (Some(x), None) => {
            assert(!min_gap.at_most(gaps[x.above - 1]));
        },
        (None, Some(y)) => {
            assert(!min_gap.at_most(gaps[y.above - 1]));
        },
        (None, None) => {},
    }
}

/// The same hits in another order come to the same tiles and the same divider,
/// where every score is a number and not minus zero, and where what describes
/// items, multiplies and subtracts has one result each.
pub proof fn lemma_order_does_not_matter<F, T, M>(
    hits: Seq<ScoredHit>,
    other: Seq<ScoredHit>,
    config: ResultConfig,
    meta: F,
    times: T,
    minus: M,
    a: RankedTiles,
    b: RankedTiles,
) where
    F: Fn(FileId) -> TileMeta,
    T: Fn(Float32, Float32) -> Float32,
    M: Fn(Float32, Float32) -> Float32,

    requires
        hits.to_multiset() == other.to_multiset(),
        forall|i: int| 0 <= i < hits.len() ==> plain((#[trigger] hits[i]).score),
        one_meta(meta),
        one_result(times),
        one_result(minus),
        ranks(hits, config, meta, times, minus, a),
        ranks(other, config, meta, times, minus, b),
    ensures
        same_tiles(a.tiles@, b.tiles@),
        forall|i: int|
            0 <= i < a.tiles@.len() ==> (#[trigger] a.tiles@[i]).kind == b.tiles@[i].kind
                && a.tiles@[i].thumb_id == b.tiles@[i].thumb_id,
        a.cliff == b.cliff,
{
    let x = choose|all: Seq<Tile>| #[trigger]
        collapsed(all, hits) && cut(all, config, times, a.tiles@);
    let y = choose|all: Seq<Tile>| #[trigger]
        collapsed(all, other) && cut(all, config, times, b.tiles@);
    lemma_collapsed_from(x, hits, other);
    lemma_collapse_is_determined(x, y, other);
    assert(same_tiles(x, y));
    lemma_same_cut(x, y, config, times, a.tiles@, b.tiles@);
    assert forall|i: int| 0 <= i < a.tiles@.len() implies (#[trigger] a.tiles@[i]).kind
        == b.tiles@[i].kind && a.tiles@[i].thumb_id == b.tiles@[i].thumb_id by {
        assert(described(a.tiles@[i], meta));
        assert(described(b.tiles@[i], meta));
    }
    let g = choose|gaps: Seq<Float32>| #[trigger]
        gaps_between(a.tiles@, gaps, minus) && divides(gaps, config.cliff_min_gap, a.cliff);
    let h = choose|gaps: Seq<Float32>| #[trigger]
        gaps_between(b.tiles@, gaps, minus) && divides(gaps, config.cliff_min_gap, b.cliff);
    assert forall|i: int| 0 <= i < g.len() implies g[i] == h[i] by {
        assert(a.tiles@[i].score == b.tiles@[i].score);
        assert(a.tiles@[i + 1].score == b.tiles@[i + 1].score);
        assert(call_ensures(minus, (a.tiles@[i].score, a.tiles@[i + 1].score), g[i]));
        assert(call_ensures(minus, (b.tiles@[i].score, b.tiles@[i + 1].score), h[i]));
    }
    assert(g =~= h);
    lemma_divides_once(g, config.cliff_min_gap, a.cliff, b.cliff);
}

// ---------------------------------------------------------------------------
// What the tiles say of the hits
// ---------------------------------------------------------------------------

/// Whether every score of some hits is a number.
pub open spec fn all_numbers(hits: Seq<ScoredHit>) -> bool {
    forall|i: int| 0 <= i < hits.len() ==> !(#[trigger] hits[i]).score.nan()
}

/// Whether a score is that of one of some hits, and none of them has a greater one.
pub open spec fn greatest(hits: Seq<ScoredHit>, top: Float32) -> bool {
    &&& exists|i: int| 0 <= i < hits.len() && (#[trigger] hits[i]).score == top
    &&& forall|i: int| 0 <= i < hits.len() ==> (#[trigger] hits[i]).score.at_most(top)
}

/// Whether an item has a tile among some.
pub open spec fn has_tile(tiles: Seq<Tile>, file: FileId) -> bool {
    exists|i: int| 0 <= i < tiles.len() && (#[trigger] tiles[i]).file == file
}

/// Whether a hit reaches a floor.
pub open spec fn reaches(hit: ScoredHit, floor: Float32) -> bool {
    floor.at_most(hit.score)
}

/// Whether some tiles are those that a floor and a cap leave of hits: no tile is
/// below the floor, and an item of which a hit reaches it is missing only where as
/// many tiles as the cap allows have scores that are no less.
pub open spec fn floored(hits: Seq<ScoredHit>, floor: Float32, cap: int, tiles: Seq<Tile>) -> bool {
    &&& tiles.len() <= cap
    &&& forall|i: int| 0 <= i < tiles.len() ==> floor.at_most((#[trigger] tiles[i]).score)
    &&& forall|j: int|
        0 <= j < hits.len() && #[trigger] reaches(hits[j], floor) ==> has_tile(
            tiles,
            hits[j].file,
        ) || (tiles.len() == cap && forall|i: int|
            0 <= i < tiles.len() ==> hits[j].score.at_most((#[trigger] tiles[i]).score))
}

proof fn lemma_tile_of_item(all: Seq<Tile>, hits: Seq<ScoredHit>, j: int) -> (k: int)
    requires
        collapsed(all, hits),
        all_numbers(hits),
        0 <= j < hits.len(),
    ensures
        0 <= k < all.len(),
        all[k].file == hits[j].file,
        hits[j].score.at_most(all[k].score),
{
    let k = choose|k: int| 0 <= k < all.len() && (#[trigger] all[k]).file == hits[j].file;
    lemma_tile_is_best(all, hits, k);
    k
}

/// The score of a tile is that of a hit on its item, and none of them is greater.
proof fn lemma_tile_is_best(all: Seq<Tile>, hits: Seq<ScoredHit>, k: int)
    requires
        collapsed(all, hits),
        0 <= k < all.len(),
    ensures
        exists|j: int|
            0 <= j < hits.len() && (#[trigger] hits[j]).file == all[k].file && hits[j].score
                == all[k].score,
        all_numbers(hits) ==> forall|j: int|
            0 <= j < hits.len() && (#[trigger] hits[j]).file == all[k].file
                ==> hits[j].score.at_most(all[k].score),
{
    let file = all[k].file;
    let p = |h: ScoredHit| h.file == file;
    let own = hits_on(hits, file);
    assert(own =~= hits.filter(p));
    assert(collapses(all[k], own));
    lemma_best_score(own);
    assert forall|m: int| 0 <= m < own.len() implies own[m].file == file && hits.contains(
        #[trigger] own[m],
    ) by {
        hits.lemma_filter_pred(p, m);
        assert(own.contains(own[m]));
        hits.lemma_filter_contains_rev(p, own[m]);
    }
    let m = choose|m: int| 0 <= m < own.len() && (#[trigger] own[m]).score == best_score(own);
    let j = hits.index_of(own[m]);
    assert(hits[j].file == file && hits[j].score == all[k].score);
    if all_numbers(hits) {
        assert forall|m: int| 0 <= m < own.len() implies !(#[trigger] own[m]).score.nan() by {
            let h = hits.index_of(own[m]);
            assert(!hits[h].score.nan());
        }
        assert forall|j: int| 0 <= j < hits.len() && (#[trigger] hits[j]).file
            == file implies hits[j].score.at_most(all[k].score) by {
            hits.lemma_filter_contains(p, j);
            let m = own.index_of(hits[j]);
            assert(own[m].score.at_most(best_score(own)));
        }
    }
}

/// The floor is the product of `floor_alpha` and the greatest score of all hits.
/// Every tile that is left reaches it, and every item that reaches it is left, as
/// far as the cap allows.
pub proof fn lemma_floor<T: Fn(Float32, Float32) -> Float32>(
    hits: Seq<ScoredHit>,
    config: ResultConfig,
    times: T,
    all: Seq<Tile>,
    tiles: Seq<Tile>,
)
    requires
        collapsed(all, hits),
        cut(all, config, times, tiles),
        all_numbers(hits),
        hits.len() > 0,
    ensures
        exists|top: Float32, floor: Float32| #[trigger]
            greatest(hits, top) && #[trigger] floored(
                hits,
                floor,
                config.tile_cap as int,
                tiles,
            ) && call_ensures(times, (config.floor_alpha, top), floor),
{
    let first = lemma_tile_of_item(all, hits, 0);
    let floor = choose|floor: Float32| #[trigger]
        call_ensures(times, (config.floor_alpha, all[0].score), floor) && tiles == capped(
            above_floor(all, floor),
            config.tile_cap as nat,
        );
    let top = all[0].score;
    lemma_tile_is_best(all, hits, 0);
    assert forall|j: int| 0 <= j < hits.len() implies (#[trigger] hits[j]).score.at_most(top) by {
        let k = lemma_tile_of_item(all, hits, j);
        if k > 0 {
            assert(!all[k].ahead(all[0]));
            lemma_total_rank_refines(all[k].score, all[0].score);
        }
    }
    assert(greatest(hits, top));
    let cap = config.tile_cap as nat;
    let kept = above_floor(all, floor);
    let p = |t: Tile| floor.at_most(t.score);
    assert(kept =~= all.filter(p));
    lemma_cut(all, floor, cap);
    lemma_cut(all, floor, kept.len());
    assert forall|j: int| 0 <= j < hits.len() && #[trigger] reaches(hits[j], floor) implies has_tile(
        tiles,
        hits[j].file,
    ) || (tiles.len() == cap && forall|i: int|
        0 <= i < tiles.len() ==> hits[j].score.at_most((#[trigger] tiles[i]).score)) by {
        let k = lemma_tile_of_item(all, hits, j);
        all.lemma_filter_contains(p, k);
        let q = kept.index_of(all[k]);
        assert(kept[q] == all[k]);
        if q < tiles.len() {
            assert(tiles[q].file == hits[j].file);
        } else {
            assert forall|i: int| 0 <= i < tiles.len() implies hits[j].score.at_most(
                (#[trigger] tiles[i]).score,
            ) by {
                assert(tiles[i] == kept[i]);
                assert(!kept[q].ahead(kept[i]));
                lemma_total_rank_refines(kept[q].score, kept[i].score);
            }
        }
    }
    assert(floored(hits, floor, config.tile_cap as int, tiles));
}

/// How many hits there are on an item at a time and with a score.
pub open spec fn hits_at(hits: Seq<ScoredHit>, file: FileId, ts: Float32, score: Float32) -> nat {
    hits.filter(|h: ScoredHit| h.file == file && h.frame_ts == Some(ts) && h.score == score).len()
}

proof fn lemma_stamp_count(hits: Seq<ScoredHit>, file: FileId, stamp: Stamp)
    ensures
        stamps(hits_on(hits, file)).to_multiset().count(stamp) == hits_at(
            hits,
            file,
            stamp.ts,
            stamp.score,
        ),
    decreases hits.len(),
{
    broadcast use vstd::seq_lib::group_to_multiset_ensures;

    reveal(Seq::filter);
    if hits.len() == 0 {
        assert(hits_on(hits, file) =~= Seq::empty());
        stamps(hits_on(hits, file)).to_multiset_ensures();
    } else {
        let init = hits.drop_last();
        let last = hits.last();
        lemma_stamp_count(init, file, stamp);
        let own = hits_on(init, file);
        if last.file == file {
            assert(hits_on(hits, file) =~= own.push(last));
            assert(own.push(last).drop_last() =~= own);
            if let Some(ts) = last.frame_ts {
                let made = Stamp { ts, score: last.score };
                assert(stamps(own.push(last)) == stamps(own).push(made));
                assert(stamps(own).push(made).to_multiset() =~= stamps(own).to_multiset().insert(
                    made,
                ));
            } else {
                assert(stamps(own.push(last)) == stamps(own));
            }
        } else {
            assert(hits_on(hits, file) =~= own);
        }
    }
}

/// Whether the timestamps of a tile are those of the hits on its item, each as often
/// as there are hits, the better score first and of equal scores the earlier time.
pub open spec fn times_shown(tile: Tile, hits: Seq<ScoredHit>, order: Seq<Stamp>) -> bool {
    &&& order.len() == tile.matched_timestamps@.len()
    &&& forall|p: int| 0 <= p < order.len() ==> (#[trigger] order[p]).ts == tile.matched_timestamps@[p]
    &&& forall|ts: Float32, score: Float32|
        #![trigger hits_at(hits, tile.file, ts, score)]
        order.to_multiset().count(Stamp { ts, score }) == hits_at(hits, tile.file, ts, score)
    &&& forall|p: int, q: int|
        0 <= p < q < order.len() ==> {
            &&& (#[trigger] order[q]).score.total_rank() <= (#[trigger] order[p]).score.total_rank()
            &&& order[q].score == order[p].score ==> order[p].ts.total_rank()
                <= order[q].ts.total_rank()
        }
}

/// Whether a tile says of its item what the hits do.
pub open spec fn tells(tile: Tile, hits: Seq<ScoredHit>) -> bool {
    &&& exists|j: int|
        0 <= j < hits.len() && (#[trigger] hits[j]).file == tile.file && hits[j].score == tile.score
    &&& all_numbers(hits) ==> forall|j: int|
        0 <= j < hits.len() && (#[trigger] hits[j]).file == tile.file ==> hits[j].score.at_most(
            tile.score,
        )
    &&& exists|order: Seq<Stamp>| #[trigger] times_shown(tile, hits, order)
}

/// Each tile is about one item that was hit, and no two are about the same. Its
/// score is the greatest of the hits on the item. Its timestamps are those of the
/// hits, the best first. The tiles stand in the order of their scores, and tiles
/// with the same score in the order of their items.
pub proof fn lemma_tiles_tell<T: Fn(Float32, Float32) -> Float32>(
    hits: Seq<ScoredHit>,
    config: ResultConfig,
    times: T,
    all: Seq<Tile>,
    tiles: Seq<Tile>,
)
    requires
        collapsed(all, hits),
        cut(all, config, times, tiles),
    ensures
        forall|i: int| 0 <= i < tiles.len() ==> tells(#[trigger] tiles[i], hits),
        forall|i: int, j: int|
            0 <= i < j < tiles.len() ==> {
                &&& (#[trigger] tiles[i]).file != (#[trigger] tiles[j]).file
                &&& tiles[j].score.total_rank() <= tiles[i].score.total_rank()
                &&& tiles[i].score == tiles[j].score ==> tiles[i].file < tiles[j].file
            },
{
    if all.len() > 0 {
        let floor = choose|floor: Float32| #[trigger]
            call_ensures(times, (config.floor_alpha, all[0].score), floor) && tiles == capped(
                above_floor(all, floor),
                config.tile_cap as nat,
            );
        let kept = above_floor(all, floor);
        lemma_cut(all, floor, config.tile_cap as nat);
        lemma_above_differ(all, floor);
        assert forall|i: int| 0 <= i < tiles.len() implies tells(#[trigger] tiles[i], hits) by {
            assert(all.contains(tiles[i]));
            let k = all.index_of(tiles[i]);
            assert(all[k] == tiles[i]);
            lemma_tile_is_best(all, hits, k);
            let own = hits_on(hits, tiles[i].file);
            assert(collapses(all[k], own));
            let order = choose|order: Seq<Stamp>| #[trigger]
                sorts(order, stamps(own)) && tiles[i].matched_timestamps@ == times_of(order);
            assert forall|ts: Float32, score: Float32|
                #![trigger hits_at(hits, tiles[i].file, ts, score)]
                order.to_multiset().count(Stamp { ts, score }) == hits_at(
                    hits,
                    tiles[i].file,
                    ts,
                    score,
                ) by {
                lemma_stamp_count(hits, tiles[i].file, Stamp { ts, score });
            }
            assert forall|p: int, q: int| 0 <= p < q < order.len() implies (
            #[trigger] order[q]).score.total_rank() <= (#[trigger] order[p]).score.total_rank() && (
            order[q].score == order[p].score ==> order[p].ts.total_rank()
                <= order[q].ts.total_rank()) by {
                assert(!order[q].ahead(order[p]));
            }
            assert(times_shown(tiles[i], hits, order));
        }
        assert forall|i: int, j: int| 0 <= i < j < tiles.len() implies (#[trigger] tiles[i]).file != (
        #[trigger] tiles[j]).file && tiles[j].score.total_rank() <= tiles[i].score.total_rank() && (
        tiles[i].score == tiles[j].score ==> tiles[i].file < tiles[j].file) by {
            assert(tiles[i] == kept[i] && tiles[j] == kept[j]);
            assert(!tiles[j].ahead(tiles[i]));
        }
    }
}

proof fn lemma_above_differ(all: Seq<Tile>, floor: Float32)
    requires
        forall|i: int, j: int|
            0 <= i < j < all.len() ==> (#[trigger] all[i]).file != (#[trigger] all[j]).file,
    ensures
        forall|i: int, j: int|
            0 <= i < j < above_floor(all, floor).len() ==> (#[trigger] above_floor(
                all,
                floor,
            )[i]).file != (#[trigger] above_floor(all, floor)[j]).file,
    decreases all.len(),
{
    reveal(Seq::filter);
    if all.len() > 0 {
        let init = all.drop_last();
        assert(forall|i: int| 0 <= i < init.len() ==> init[i] == all[i]);
        lemma_above_differ(init, floor);
        let p = |t: Tile| floor.at_most(t.score);
        let before = above_floor(init, floor);
        let now = above_floor(all, floor);
        assert(before =~= init.filter(p));
        assert forall|i: int, j: int| 0 <= i < j < now.len() implies (#[trigger] now[i]).file != (
        #[trigger] now[j]).file by {
            assert(now[i] == before[i]);
            if j < before.len() {
                assert(now[j] == before[j]);
            } else {
                assert(before.contains(before[i]));
                init.lemma_filter_contains_rev(p, before[i]);
                let k = init.index_of(before[i]);
                assert(all[k].file != all[all.len() - 1].file);
            }
        }
    }
}

/// What a search is ranked for, said of the hits themselves. The tiles tell of the
/// items that were hit; the floor is the product of `floor_alpha` and the greatest
/// score of all hits; an item that reaches it is left out only where the cap is
/// full of tiles that are no worse; and without hits there are no tiles.
pub proof fn lemma_ranking<F, T, M>(
    hits: Seq<ScoredHit>,
    config: ResultConfig,
    meta: F,
    times: T,
    minus: M,
    ranked: RankedTiles,
) where
    F: Fn(FileId) -> TileMeta,
    T: Fn(Float32, Float32) -> Float32,
    M: Fn(Float32, Float32) -> Float32,

    requires
        ranks(hits, config, meta, times, minus, ranked),
    ensures
        all_numbers(hits) && hits.len() > 0 ==> exists|top: Float32, floor: Float32| #[trigger]
            greatest(hits, top) && #[trigger] floored(
                hits,
                floor,
                config.tile_cap as int,
                ranked.tiles@,
            ) && call_ensures(times, (config.floor_alpha, top), floor),
        hits.len() == 0 ==> ranked.tiles@.len() == 0,
        forall|i: int| 0 <= i < ranked.tiles@.len() ==> tells(#[trigger] ranked.tiles@[i], hits),
        forall|i: int|
            0 <= i < ranked.tiles@.len() ==> call_ensures(
                meta,
                ((#[trigger] ranked.tiles@[i]).file,),
                TileMeta { kind: ranked.tiles@[i].kind, thumb_id: ranked.tiles@[i].thumb_id },
            ),
        forall|i: int, j: int|
            0 <= i < j < ranked.tiles@.len() ==> {
                &&& (#[trigger] ranked.tiles@[i]).file != (#[trigger] ranked.tiles@[j]).file
                &&& ranked.tiles@[j].score.total_rank() <= ranked.tiles@[i].score.total_rank()
                &&& ranked.tiles@[i].score == ranked.tiles@[j].score ==> ranked.tiles@[i].file
                    < ranked.tiles@[j].file
            },
{
    let all = choose|all: Seq<Tile>| #[trigger]
        collapsed(all, hits) && cut(all, config, times, ranked.tiles@);
    lemma_tiles_tell(hits, config, times, all, ranked.tiles@);
    if hits.len() > 0 && all_numbers(hits) {
        lemma_floor(hits, config, times, all, ranked.tiles@);
    }
    if hits.len() == 0 && ranked.tiles@.len() > 0 {
        assert(tells(ranked.tiles@[0], hits));
    }
    assert forall|i: int| 0 <= i < ranked.tiles@.len() implies call_ensures(
        meta,
        ((#[trigger] ranked.tiles@[i]).file,),
        TileMeta { kind: ranked.tiles@[i].kind, thumb_id: ranked.tiles@[i].thumb_id },
    ) by {
        assert(described(ranked.tiles@[i], meta));
    }
}

/// Where the divider stands, said of the scores of the tiles: it stands between two
/// of them whose difference is the greatest and at least `cliff_min_gap`, at the
/// first such place; and there is none exactly where no difference reaches that.
pub proof fn lemma_divider<F, T, M>(
    hits: Seq<ScoredHit>,
    config: ResultConfig,
    meta: F,
    times: T,
    minus: M,
    ranked: RankedTiles,
) where
    F: Fn(FileId) -> TileMeta,
    T: Fn(Float32, Float32) -> Float32,
    M: Fn(Float32, Float32) -> Float32,

    requires
        ranks(hits, config, meta, times, minus, ranked),
        one_result(minus),
    ensures
        ranked.cliff matches Some(c) ==> {
            &&& 0 < c.above < ranked.tiles@.len()
            &&& config.cliff_min_gap.at_most(c.gap)
            &&& call_ensures(
                minus,
                (ranked.tiles@[c.above - 1].score, ranked.tiles@[c.above as int].score),
                c.gap,
            )
        },
        forall|k: int, gap: Float32|
            0 < k < ranked.tiles@.len() && #[trigger] call_ensures(
                minus,
                (ranked.tiles@[k - 1].score, ranked.tiles@[k].score),
                gap,
            ) && config.cliff_min_gap.at_most(gap) ==> (ranked.cliff matches Some(c) && gap.at_most(
                c.gap,
            ) && (k < c.above ==> gap.less(c.gap))),
{
    let gaps = choose|gaps: Seq<Float32>| #[trigger]
        gaps_between(ranked.tiles@, gaps, minus) && divides(
            gaps,
            config.cliff_min_gap,
            ranked.cliff,
        );
    if let Some(c) = ranked.cliff {
        assert(gaps[c.above - 1] == c.gap);
    }
    assert forall|k: int, gap: Float32|
        0 < k < ranked.tiles@.len() && #[trigger] call_ensures(
            minus,
            (ranked.tiles@[k - 1].score, ranked.tiles@[k].score),
            gap,
        ) && config.cliff_min_gap.at_most(gap) implies (ranked.cliff matches Some(c)
        && gap.at_most(c.gap) && (k < c.above ==> gap.less(c.gap))) by {
        assert(call_ensures(
            minus,
            (ranked.tiles@[k - 1].score, ranked.tiles@[k - 1 + 1].score),
            gaps[k - 1],
        ));
        assert(gaps[k - 1] == gap);
    }
}

}
