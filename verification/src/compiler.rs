//! Tile-graph compiler passes that decide on visit counts: dead code
//! elimination (drop tiles never visited) and JIT selection (compile only
//! tiles visited at least a threshold number of times).
//!
//! The score type is a parameter: these passes never read scores, they only
//! route tiles.
use crate::ratio::Ratio;
use vstd::prelude::*;

verus! {

/// A tile in the game-theory graph.
#[derive(Debug, Clone)]
pub struct Tile<S> {
    pub id: usize,
    pub score: S,
    pub visit_count: usize,
    pub score_history: Vec<S>,
}

/// The tile has been visited at least once.
pub open spec fn is_visited<S>() -> spec_fn(Tile<S>) -> bool {
    |t: Tile<S>| t.visit_count != 0
}

/// The tile has never been visited.
pub open spec fn is_unvisited<S>() -> spec_fn(Tile<S>) -> bool {
    |t: Tile<S>| t.visit_count == 0
}

/// The tile is visited at least `threshold` times.
pub open spec fn is_hot<S>(threshold: usize) -> spec_fn(Tile<S>) -> bool {
    |t: Tile<S>| t.visit_count >= threshold
}

/// The tile is visited fewer than `threshold` times.
pub open spec fn is_cold<S>(threshold: usize) -> spec_fn(Tile<S>) -> bool {
    |t: Tile<S>| t.visit_count < threshold
}

/// `count / max(total, 1)`.
pub open spec fn share(count: nat, total: nat) -> Ratio {
    Ratio { numerator: count as u128, denominator: (if total == 0 { 1 } else { total }) as u128 }
}

/// Result of dead code elimination.
#[derive(Debug, Clone)]
pub struct DeadCodeResult<S> {
    /// Tiles that survived (visit_count > 0), in input order
    pub alive_tiles: Vec<Tile<S>>,
    /// Tiles that were eliminated (visit_count == 0), in input order
    pub eliminated_tiles: Vec<Tile<S>>,
    /// Fraction of tiles eliminated
    pub elimination_ratio: Ratio,
}

/// Result of JIT compilation.
#[derive(Debug, Clone)]
pub struct JitResult<S> {
    /// Tiles that reached the visit threshold (compiled), in input order
    pub compiled_tiles: Vec<Tile<S>>,
    /// Tiles below the visit threshold (deferred), in input order
    pub deferred_tiles: Vec<Tile<S>>,
    /// Fraction of tiles compiled
    pub compilation_ratio: Ratio,
}

/// Splits `tiles`, keeping input order, into the tiles that reach `threshold`
/// visits and the others (`by_threshold`), or into visited and unvisited tiles.
fn partition_tiles<S>(tiles: Vec<Tile<S>>, threshold: usize, by_threshold: bool) -> (r: (
    Vec<Tile<S>>,
    Vec<Tile<S>>,
))
    ensures
        by_threshold ==> r.0@ == tiles@.filter(is_hot(threshold)) && r.1@ == tiles@.filter(
            is_cold(threshold),
        ),
        !by_threshold ==> r.0@ == tiles@.filter(is_visited()) && r.1@ == tiles@.filter(
            is_unvisited(),
        ),
{
    let ghost original = tiles@;
    let ghost keep = if by_threshold {
        is_hot::<S>(threshold)
    } else {
        is_visited::<S>()
    };
    let ghost drop = if by_threshold {
        is_cold::<S>(threshold)
    } else {
        is_unvisited::<S>()
    };
    let mut kept: Vec<Tile<S>> = Vec::new();
    let mut dropped: Vec<Tile<S>> = Vec::new();
    proof {
        reveal_with_fuel(Seq::filter, 1);
        assert(original.take(0) =~= Seq::<Tile<S>>::empty());
    }
    for tile in it: tiles.into_iter()
        invariant
            it.seq() == original,
            keep == (if by_threshold {
                is_hot::<S>(threshold)
            } else {
                is_visited::<S>()
            }),
            drop == (if by_threshold {
                is_cold::<S>(threshold)
            } else {
                is_unvisited::<S>()
            }),
            kept@ == original.take(it.index() as int).filter(keep),
            dropped@ == original.take(it.index() as int).filter(drop),
    {
        let ghost i = it.index() as int;
        proof {
            reveal_with_fuel(Seq::filter, 1);
            assert(original.take(i + 1).drop_last() =~= original.take(i));
            assert(original.take(i + 1).last() == tile);
        }
        let picked = if by_threshold {
            tile.visit_count >= threshold
        } else {
            tile.visit_count != 0
        };
        if picked {
            kept.push(tile);
        } else {
            dropped.push(tile);
        }
    }
    proof {
        assert(original.take(original.len() as int) =~= original);
    }
    (kept, dropped)
}

/// Dead code elimination: separate the tiles that were never visited.
///
/// Returns the surviving and the eliminated tiles, each in input order, and
/// the fraction eliminated (`eliminated / max(total, 1)`).
pub fn dead_code_elimination<S>(tiles: Vec<Tile<S>>) -> (r: DeadCodeResult<S>)
    ensures
        r.alive_tiles@ == tiles@.filter(is_visited()),
        r.eliminated_tiles@ == tiles@.filter(is_unvisited()),
        r.elimination_ratio == share(r.eliminated_tiles@.len(), tiles@.len()),
        forall|i: int|
            0 <= i < r.alive_tiles@.len() ==> #[trigger] r.alive_tiles@[i].visit_count > 0,
        forall|i: int|
            0 <= i < r.eliminated_tiles@.len() ==> #[trigger] r.eliminated_tiles@[i].visit_count
                == 0,
        r.alive_tiles@.to_multiset().add(r.eliminated_tiles@.to_multiset()) =~= tiles@.to_multiset(),
        r.elimination_ratio.numerator == r.eliminated_tiles@.len(),
        r.elimination_ratio.denominator == if tiles@.len() == 0 { 1 } else { tiles@.len() },
{
    let total = tiles.len();
    let ghost input = tiles@;
    let (alive, eliminated) = partition_tiles(tiles, 0, false);
    proof {
        input.lemma_filter_len(is_unvisited());
        lemma_dead_code_elimination_partitions(input);
        assert forall|i: int| 0 <= i < alive@.len() implies #[trigger] alive@[i].visit_count > 0 by {
            input.lemma_filter_pred(is_visited(), i);
        }
        assert forall|i: int| 0 <= i < eliminated@.len() implies #[trigger] eliminated@[i].visit_count
            == 0 by {
            input.lemma_filter_pred(is_unvisited(), i);
        }
    }
    let denominator: usize = if total == 0 { 1 } else { total };
    let elimination_ratio = Ratio {
        numerator: eliminated.len() as u128,
        denominator: denominator as u128,
    };
    DeadCodeResult { alive_tiles: alive, eliminated_tiles: eliminated, elimination_ratio }
}

/// JIT compilation: compile only the tiles visited at least
/// `jit_visit_threshold` times; defer the rest for lazy evaluation.
///
/// Returns both groups in input order and the fraction compiled
/// (`compiled / max(total, 1)`).
pub fn jit_compile<S>(tiles: Vec<Tile<S>>, jit_visit_threshold: usize) -> (r: JitResult<S>)
    ensures
        r.compiled_tiles@ == tiles@.filter(is_hot(jit_visit_threshold)),
        r.deferred_tiles@ == tiles@.filter(is_cold(jit_visit_threshold)),
        r.compilation_ratio == share(r.compiled_tiles@.len(), tiles@.len()),
        forall|i: int|
            0 <= i < r.compiled_tiles@.len() ==> #[trigger] r.compiled_tiles@[i].visit_count
                >= jit_visit_threshold,
        forall|i: int|
            0 <= i < r.deferred_tiles@.len() ==> #[trigger] r.deferred_tiles@[i].visit_count
                < jit_visit_threshold,
        r.compiled_tiles@.to_multiset().add(r.deferred_tiles@.to_multiset()) =~= tiles@.to_multiset(),
        r.compilation_ratio.numerator == r.compiled_tiles@.len(),
        r.compilation_ratio.denominator == if tiles@.len() == 0 { 1 } else { tiles@.len() },
{
    let total = tiles.len();
    let ghost input = tiles@;
    let (compiled, deferred) = partition_tiles(tiles, jit_visit_threshold, true);
    proof {
        input.lemma_filter_len(is_hot(jit_visit_threshold));
        lemma_jit_compile_partitions(input, jit_visit_threshold);
        assert forall|i: int| 0 <= i < compiled@.len() implies #[trigger] compiled@[i].visit_count
            >= jit_visit_threshold by {
            input.lemma_filter_pred(is_hot(jit_visit_threshold), i);
        }
        assert forall|i: int| 0 <= i < deferred@.len() implies #[trigger] deferred@[i].visit_count
            < jit_visit_threshold by {
            input.lemma_filter_pred(is_cold(jit_visit_threshold), i);
        }
    }
    let denominator: usize = if total == 0 { 1 } else { total };
    let compilation_ratio = Ratio {
        numerator: compiled.len() as u128,
        denominator: denominator as u128,
    };
    JitResult { compiled_tiles: compiled, deferred_tiles: deferred, compilation_ratio }
}


proof fn lemma_filter_split<S>(tiles: Seq<Tile<S>>, keep: spec_fn(Tile<S>) -> bool, drop: spec_fn(Tile<S>) -> bool)
    requires
        forall|t: Tile<S>| #[trigger] keep(t) <==> !drop(t),
    ensures
        tiles.filter(keep).to_multiset().add(tiles.filter(drop).to_multiset()) =~= tiles.to_multiset(),
        tiles.filter(keep).len() + tiles.filter(drop).len() == tiles.len(),
    decreases tiles.len(),
{
    broadcast use vstd::seq_lib::group_to_multiset_ensures;

    reveal_with_fuel(Seq::filter, 1);
    if tiles.len() == 0 {
        assert(tiles.filter(keep) =~= Seq::<Tile<S>>::empty());
        assert(tiles.filter(drop) =~= Seq::<Tile<S>>::empty());
    } else {
        let rest = tiles.drop_last();
        lemma_filter_split(rest, keep, drop);
        assert(tiles =~= rest.push(tiles.last()));
        if keep(tiles.last()) {
            assert(tiles.filter(keep) == rest.filter(keep).push(tiles.last()));
            assert(tiles.filter(drop) == rest.filter(drop));
        } else {
            assert(tiles.filter(keep) == rest.filter(keep));
            assert(tiles.filter(drop) == rest.filter(drop).push(tiles.last()));
        }
    }
}

/// What the passes decide on, for every threshold and every tile: a tile is
/// kept by dead code elimination exactly when it was visited at least once and
/// removed exactly when it was never visited; JIT compiles it exactly when its
/// visit count reaches the threshold and defers it exactly when it falls short.
pub proof fn lemma_tile_decisions<S>()
    ensures
        forall|t: Tile<S>| #[trigger] (is_visited::<S>())(t) <==> t.visit_count > 0,
        forall|t: Tile<S>| #[trigger] (is_unvisited::<S>())(t) <==> t.visit_count == 0,
        forall|threshold: usize, t: Tile<S>|
            #[trigger] (is_hot::<S>(threshold))(t) <==> t.visit_count >= threshold,
        forall|threshold: usize, t: Tile<S>|
            #[trigger] (is_cold::<S>(threshold))(t) <==> t.visit_count < threshold,
{
}

/// Dead code elimination loses and duplicates no tile: the alive and the
/// eliminated tiles together are exactly the input tiles.
pub proof fn lemma_dead_code_elimination_partitions<S>(tiles: Seq<Tile<S>>)
    ensures
        tiles.filter(is_visited()).to_multiset().add(tiles.filter(is_unvisited()).to_multiset())
            =~= tiles.to_multiset(),
        tiles.filter(is_visited()).len() + tiles.filter(is_unvisited()).len() == tiles.len(),
{
    lemma_filter_split(tiles, is_visited(), is_unvisited());
}

/// JIT compilation loses and duplicates no tile: the compiled and the
/// deferred tiles together are exactly the input tiles.
pub proof fn lemma_jit_compile_partitions<S>(tiles: Seq<Tile<S>>, threshold: usize)
    ensures
        tiles.filter(is_hot(threshold)).to_multiset().add(
            tiles.filter(is_cold(threshold)).to_multiset(),
        ) =~= tiles.to_multiset(),
        tiles.filter(is_hot(threshold)).len() + tiles.filter(is_cold(threshold)).len()
            == tiles.len(),
{
    lemma_filter_split(tiles, is_hot(threshold), is_cold(threshold));
}

/// With a visit threshold of 1, JIT compilation compiles exactly the tiles
/// that dead code elimination keeps, and defers exactly the ones it removes;
/// with a threshold of 0 it compiles every tile.
pub proof fn lemma_jit_threshold_one_is_dead_code_elimination<S>(tiles: Seq<Tile<S>>)
    ensures
        tiles.filter(is_hot(1)) == tiles.filter(is_visited()),
        tiles.filter(is_cold(1)) == tiles.filter(is_unvisited()),
        tiles.filter(is_hot(0)) == tiles,
    decreases tiles.len(),
{
    reveal_with_fuel(Seq::filter, 1);
    if tiles.len() > 0 {
        lemma_jit_threshold_one_is_dead_code_elimination(tiles.drop_last());
        assert(tiles.drop_last().push(tiles.last()) =~= tiles);
    }
}

} // verus!
