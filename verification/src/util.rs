//! Small helpers over position vectors and the random source.

use vstd::prelude::*;
use vstd::multiset::Multiset;
use crate::position::Pos;
use crate::rng::GameRng;

verus! {

/// No position occurs twice.
pub open spec fn no_dup(s: Seq<Pos>) -> bool {
    forall|i: int, j: int| 0 <= i < j < s.len() ==> s[i] != s[j]
}

/// Linear membership scan.
pub fn contains_pos(v: &Vec<Pos>, p: Pos) -> (r: bool)
    ensures
        r == v@.contains(p),
{
    let mut i: usize = 0;
    while i < v.len()
        invariant
            0 <= i <= v@.len(),
            forall|k: int| 0 <= k < i ==> v@[k] != p,
        decreases v@.len() - i,
    {
        if v[i].x == p.x && v[i].y == p.y {
            proof {
                assert(v@[i as int] == p);
            }
            return true;
        }
        i = i + 1;
    }
    false
}

/// An element-for-element copy of a position vector.
pub fn copy_pos_vec(v: &Vec<Pos>) -> (out: Vec<Pos>)
    ensures
        out@ == v@,
{
    let mut out: Vec<Pos> = Vec::new();
    let mut i: usize = 0;
    while i < v.len()
        invariant
            0 <= i <= v@.len(),
            out@ == v@.take(i as int),
        decreases v@.len() - i,
    {
        out.push(v[i]);
        proof {
            assert(v@.take(i as int + 1).drop_last() =~= v@.take(i as int));
            assert(out@ =~= v@.take(i as int + 1));
        }
        i = i + 1;
    }
    proof {
        assert(v@.take(v@.len() as int) =~= v@);
    }
    out
}

/// A uniform value of the inclusive range `min..=max`.
pub fn get_rand_range(rng: &mut GameRng, min: i16, max: i16) -> (r: i16)
    requires
        min <= max,
    ensures
        min <= r <= max,
{
    rng.range(min, max)
}

/// A uniformly chosen element of a nonempty position vector.
pub fn get_random_pos(rng: &mut GameRng, positions: &Vec<Pos>) -> (p: Pos)
    requires
        positions@.len() >= 1,
    ensures
        positions@.contains(p),
{
    let i = rng.below(positions.len() as u64) as usize;
    let p = positions[i];
    proof {
        assert(positions@[i as int] == p);
    }
    p
}

/// Reorders a position vector at random.  Which order comes out is
/// unspecified; the positions themselves are exactly preserved.
pub fn shuffle(rng: &mut GameRng, v: &mut Vec<Pos>)
    ensures
        final(v)@.to_multiset() == old(v)@.to_multiset(),
        final(v)@.len() == old(v)@.len(),
        forall|p: Pos| final(v)@.contains(p) <==> old(v)@.contains(p),
{
    proof {
        broadcast use vstd::seq_lib::group_to_multiset_ensures;

    }
    let ghost orig = v@;
    let mut out: Vec<Pos> = Vec::new();
    while v.len() > 0
        invariant
            out@.to_multiset().add(v@.to_multiset()) == orig.to_multiset(),
            out@.len() + v@.len() == orig.len(),
        decreases v@.len(),
    {
        let i = rng.below(v.len() as u64) as usize;
        let ghost prev_v = v@;
        let ghost prev_out = out@;
        let p = v.remove(i);
        out.push(p);
        proof {
            assert(v@.to_multiset() =~= prev_v.to_multiset().remove(p));
            assert(out@.to_multiset() =~= prev_out.to_multiset().insert(p));
            assert(prev_v.to_multiset().count(p) > 0) by {
                assert(prev_v[i as int] == p);
                assert(prev_v.contains(p));
            }
            assert(out@.to_multiset().add(v@.to_multiset()) =~= prev_out.to_multiset().add(
                prev_v.to_multiset(),
            ));
        }
    }
    proof {
        assert(v@.to_multiset() =~= Multiset::<Pos>::empty()) by {
            assert(v@ =~= Seq::<Pos>::empty());
        }
        assert(out@.to_multiset() =~= orig.to_multiset());
        assert forall|p: Pos| out@.contains(p) <==> orig.contains(p) by {
            assert(out@.contains(p) <==> out@.to_multiset().count(p) > 0);
            assert(orig.contains(p) <==> orig.to_multiset().count(p) > 0);
        }
    }
    *v = out;
}

/// Removes repeated positions; every position of the input is kept once, in
/// first-occurrence order.
pub fn dedup_nosort(vec: &mut Vec<Pos>)
    ensures
        no_dup(final(vec)@),
        forall|p: Pos| final(vec)@.contains(p) <==> old(vec)@.contains(p),
{
    let ghost orig = vec@;
    let mut out: Vec<Pos> = Vec::new();
    let mut i: usize = 0;
    while i < vec.len()
        invariant
            vec@ == orig,
            0 <= i <= orig.len(),
            no_dup(out@),
            forall|p: Pos| #[trigger] out@.contains(p) ==> orig.contains(p),
            forall|k: int| 0 <= k < i ==> out@.contains(#[trigger] orig[k]),
        decreases orig.len() - i,
    {
        let p = vec[i];
        let ghost prev = out@;
        if !contains_pos(&out, p) {
            out.push(p);
            proof {
                assert(out@[out@.len() - 1] == p);
                assert(out@.contains(p));
                assert(orig[i as int] == p);
                assert(orig.contains(p));
                assert forall|q: Pos| #[trigger] out@.contains(q) implies orig.contains(q) by {
                    let k = choose|k: int| 0 <= k < out@.len() && out@[k] == q;
                    if k < prev.len() {
                        assert(prev[k] == q);
                        assert(prev.contains(q));
                    } else {
                        assert(q == p);
                    }
                }
                assert forall|q: Pos| prev.contains(q) implies #[trigger] out@.contains(q) by {
                    let k = choose|k: int| 0 <= k < prev.len() && prev[k] == q;
                    assert(out@[k] == q);
                }
            }
        } else {
            proof {
                assert(orig[i as int] == p);
            }
        }
        i = i + 1;
    }
    proof {
        assert forall|p: Pos| orig.contains(p) implies #[trigger] out@.contains(p) by {
            let k = choose|k: int| 0 <= k < orig.len() && orig[k] == p;
        }
    }
    *vec = out;
}

} // verus!
