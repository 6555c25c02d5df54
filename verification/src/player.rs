use vstd::prelude::*;

use rand::seq::SliceRandom;

use crate::rules::in_bounds;

verus! {

broadcast use vstd::seq_lib::group_to_multiset_ensures, vstd::multiset::group_multiset_axioms;

/// A capture map as a sequence of rows of per-square counts.
pub open spec fn counts_view(g: Seq<Vec<usize>>) -> Seq<Seq<usize>> {
    Seq::new(g.len(), |i: int| g[i]@)
}

/// The four corner squares of an n-by-n board.
pub open spec fn is_corner(n: int, i: int, j: int) -> bool {
    (i == 0 || i == n - 1) && (j == 0 || j == n - 1)
}

/// (i, j) is a square of the board where the player to move would flip at
/// least one disk: a legal move per the capture map `cnt`.
pub open spec fn legal_square(cnt: Seq<Seq<usize>>, n: int, i: int, j: int) -> bool {
    in_bounds(n, i, j) && cnt[i][j] > 0
}

/// The capture map offers at least one legal square.
pub open spec fn some_legal(cnt: Seq<Seq<usize>>, n: int) -> bool {
    exists|i: int, j: int| #[trigger] legal_square(cnt, n, i, j)
}

/// The capture map offers at least one legal corner square.
pub open spec fn some_legal_corner(cnt: Seq<Seq<usize>>, n: int) -> bool {
    exists|i: int, j: int| #[trigger] legal_square(cnt, n, i, j) && is_corner(n, i, j)
}

/// Relies on rand's `SliceRandom::choose`, driven by `rand::thread_rng`:
/// on a non-empty slice it returns `Some` of one of the slice's elements,
/// on an empty slice `None`. Which element comes back is up to the random
/// generator; nothing more is assumed of it.
#[verifier::external_body]
fn pick_random(pool: &Vec<(usize, usize)>) -> (choice: Option<(usize, usize)>)
    ensures
        choice is Some <==> pool@.len() > 0,
        choice matches Some(ij) ==> pool@.contains(ij),
{
    pool.choose(&mut rand::thread_rng()).copied()
}

/// Builds the two candidate pools of the automated player from the
/// capture map: the weighted pool, in which every legal square (i, j)
/// appears exactly cnt[i][j] times, and the corner pool, which holds
/// exactly the legal corner squares.
pub fn weighted_pools(cnt: &Vec<Vec<usize>>, n: usize) -> (pools: (
    Vec<(usize, usize)>,
    Vec<(usize, usize)>,
))
    requires
        cnt@.len() == n,
        forall|i: int| 0 <= i < n ==> (#[trigger] cnt@[i])@.len() == n,
    ensures
        forall|t: int|
            0 <= t < pools.0@.len() ==> legal_square(
                counts_view(cnt@),
                n as int,
                (#[trigger] pools.0@[t]).0 as int,
                pools.0@[t].1 as int,
            ),
        forall|a: int, b: int|
            in_bounds(n as int, a, b) ==> #[trigger] pools.0@.to_multiset().count(
                (a as usize, b as usize),
            ) == counts_view(cnt@)[a][b],
        pools.0@.len() > 0 <==> some_legal(counts_view(cnt@), n as int),
        forall|t: int|
            0 <= t < pools.1@.len() ==> legal_square(
                counts_view(cnt@),
                n as int,
                (#[trigger] pools.1@[t]).0 as int,
                pools.1@[t].1 as int,
            ) && is_corner(n as int, pools.1@[t].0 as int, pools.1@[t].1 as int),
        forall|a: int, b: int|
            legal_square(counts_view(cnt@), n as int, a, b) && is_corner(n as int, a, b)
                ==> pools.1@.contains((a as usize, b as usize)),
        pools.1@.len() > 0 <==> some_legal_corner(counts_view(cnt@), n as int),
{
    let ghost cv = counts_view(cnt@);
    let mut pool: Vec<(usize, usize)> = Vec::new();
    let mut corners: Vec<(usize, usize)> = Vec::new();
    let mut i: usize = 0;
    while i < n
        invariant
            i <= n,
            cnt@.len() == n,
            forall|t: int| 0 <= t < n ==> (#[trigger] cnt@[t])@.len() == n,
            cv == counts_view(cnt@),
            forall|t: int|
                0 <= t < pool@.len() ==> legal_square(
                    cv,
                    n as int,
                    (#[trigger] pool@[t]).0 as int,
                    pool@[t].1 as int,
                ),
            forall|a: int, b: int|
                in_bounds(n as int, a, b) ==> #[trigger] pool@.to_multiset().count(
                    (a as usize, b as usize),
                ) == (if a < i {
                    cv[a][b] as nat
                } else {
                    0nat
                }),
            forall|t: int|
                0 <= t < corners@.len() ==> legal_square(
                    cv,
                    n as int,
                    (#[trigger] corners@[t]).0 as int,
                    corners@[t].1 as int,
                ) && is_corner(n as int, corners@[t].0 as int, corners@[t].1 as int),
            forall|a: int, b: int|
                legal_square(cv, n as int, a, b) && is_corner(n as int, a, b) && a < i
                    ==> corners@.contains((a as usize, b as usize)),
        decreases n - i,
    {
        let mut j: usize = 0;
        while j < n
            invariant
                j <= n,
                i < n,
                cnt@.len() == n,
                forall|t: int| 0 <= t < n ==> (#[trigger] cnt@[t])@.len() == n,
                cv == counts_view(cnt@),
                forall|t: int|
                    0 <= t < pool@.len() ==> legal_square(
                        cv,
                        n as int,
                        (#[trigger] pool@[t]).0 as int,
                        pool@[t].1 as int,
                    ),
                forall|a: int, b: int|
                    in_bounds(n as int, a, b) ==> #[trigger] pool@.to_multiset().count(
                        (a as usize, b as usize),
                    ) == (if a < i || (a == i && b < j) {
                        cv[a][b] as nat
                    } else {
                        0nat
                    }),
                forall|t: int|
                    0 <= t < corners@.len() ==> legal_square(
                        cv,
                        n as int,
                        (#[trigger] corners@[t]).0 as int,
                        corners@[t].1 as int,
                    ) && is_corner(n as int, corners@[t].0 as int, corners@[t].1 as int),
                forall|a: int, b: int|
                    legal_square(cv, n as int, a, b) && is_corner(n as int, a, b) && (a < i || (a
                        == i && b < j)) ==> corners@.contains((a as usize, b as usize)),
            decreases n - j,
        {
            proof {
                assert(cv[i as int] == cnt@[i as int]@);
            }
            let kij = cnt[i][j];
            let mut w: usize = 0;
            while w < kij
                invariant
                    w <= kij,
                    i < n,
                    j < n,
                    kij == cv[i as int][j as int],
                    cv == counts_view(cnt@),
                    cnt@.len() == n,
                    forall|t: int|
                        0 <= t < pool@.len() ==> legal_square(
                            cv,
                            n as int,
                            (#[trigger] pool@[t]).0 as int,
                            pool@[t].1 as int,
                        ),
                    forall|a: int, b: int|
                        in_bounds(n as int, a, b) ==> #[trigger] pool@.to_multiset().count(
                            (a as usize, b as usize),
                        ) == (if a < i || (a == i && b < j) {
                            cv[a][b] as nat
                        } else if a == i && b == j {
                            w as nat
                        } else {
                            0nat
                        }),
                decreases kij - w,
            {
                pool.push((i, j));
                w = w + 1;
            }
            if kij > 0 && (i == 0 || i == n - 1) && (j == 0 || j == n - 1) {
                let ghost corners_old = corners@;
                corners.push((i, j));
                proof {
                    assert forall|a: int, b: int|
                        legal_square(cv, n as int, a, b) && is_corner(n as int, a, b) && (a < i
                            || (a == i && b <= j)) implies corners@.contains(
                        (a as usize, b as usize),
                    ) by {
                        if a == i && b == j {
                            assert(corners@[corners@.len() - 1] == (i, j));
                        } else {
                            assert(corners_old.contains((a as usize, b as usize)));
                            let t = choose|t: int|
                                0 <= t < corners_old.len() && corners_old[t] == (
                                a as usize,
                                b as usize,
                                );
                            assert(corners@[t] == (a as usize, b as usize));
                        }
                    }
                }
            }
            j = j + 1;
        }
        i = i + 1;
    }
    proof {
        if pool@.len() > 0 {
            assert(legal_square(cv, n as int, pool@[0].0 as int, pool@[0].1 as int));
        }
        if some_legal(cv, n as int) {
            let (a, b) = choose|a: int, b: int| #[trigger] legal_square(cv, n as int, a, b);
            assert(pool@.to_multiset().count((a as usize, b as usize)) == cv[a][b]);
            assert(pool@.contains((a as usize, b as usize)));
        }
        if corners@.len() > 0 {
            assert(legal_square(cv, n as int, corners@[0].0 as int, corners@[0].1 as int)
                && is_corner(n as int, corners@[0].0 as int, corners@[0].1 as int));
        }
        if some_legal_corner(cv, n as int) {
            let (a, b) = choose|a: int, b: int|
                #[trigger] legal_square(cv, n as int, a, b) && is_corner(n as int, a, b);
            assert(corners@.contains((a as usize, b as usize)));
            assert(corners@.len() > 0);
        }
    }
    (pool, corners)
}

/// The automated player's move choice, from the capture map of the player
/// to move and the board side `n`: a random legal square, where a legal
/// corner square — if any exists — is always preferred, and otherwise
/// every legal square (i, j) is drawn with weight cnt[i][j].
///
/// Returns `None` exactly when the map offers no legal square.
pub fn select_move(cnt: &Vec<Vec<usize>>, n: usize) -> (mv: Option<(usize, usize)>)
    requires
        cnt@.len() == n,
        forall|i: int| 0 <= i < n ==> (#[trigger] cnt@[i])@.len() == n,
    ensures
        mv is Some <==> some_legal(counts_view(cnt@), n as int),
        mv matches Some(ij) ==> legal_square(
            counts_view(cnt@),
            n as int,
            ij.0 as int,
            ij.1 as int,
        ),
        mv is Some && some_legal_corner(counts_view(cnt@), n as int) ==> is_corner(
            n as int,
            (mv->0).0 as int,
            (mv->0).1 as int,
        ),
{
    let ghost cv = counts_view(cnt@);
    let (pool, corners) = weighted_pools(cnt, n);
    if corners.len() > 0 {
        let mv = pick_random(&corners);
        proof {
            if mv is Some {
                let ij = mv->0;
                let t = choose|t: int| 0 <= t < corners@.len() && corners@[t] == ij;
                assert(legal_square(cv, n as int, corners@[t].0 as int, corners@[t].1 as int));
            }
            assert(legal_square(cv, n as int, corners@[0].0 as int, corners@[0].1 as int)
                && is_corner(n as int, corners@[0].0 as int, corners@[0].1 as int));
        }
        mv
    } else {
        let mv = pick_random(&pool);
        proof {
            if mv is Some {
                let ij = mv->0;
                let t = choose|t: int| 0 <= t < pool@.len() && pool@[t] == ij;
                assert(legal_square(cv, n as int, pool@[t].0 as int, pool@[t].1 as int));
            }
        }
        mv
    }
}

} // verus!
