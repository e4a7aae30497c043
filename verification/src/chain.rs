//! The conversion pipeline: folding a value through an ordered list of
//! tables, category by category.

use vstd::prelude::*;
use crate::mapping::{resolve, Mapping};

verus! {

/// What folding `v` through the tables in order yields.
pub open spec fn chain_at(maps: Seq<Mapping>, v: int) -> int
    decreases maps.len(),
{
    if maps.len() == 0 {
        v
    } else {
        chain_at(maps.drop_first(), resolve(maps[0].ranges@, v))
    }
}

/// All tables of a chain are well-formed.
pub open spec fn all_wf(maps: Seq<Mapping>) -> bool {
    forall|k: int| 0 <= k < maps.len() ==> (#[trigger] maps[k]).wf()
}

/// Applies every table in `maps`, in order, to `value`, replacing the running
/// value with the table's resolution at each step.  Category names are not
/// consulted: a chain whose names do not connect end to end still executes.
pub fn apply_chain(value: i64, maps: &Vec<Mapping>) -> (r: i64)
    requires
        all_wf(maps@),
    ensures
        r as int == chain_at(maps@, value as int),
{
    let mut cur: i64 = value;
    let mut i: usize = 0;
    proof {
        assert(maps@.skip(0) =~= maps@);
    }
    while i < maps.len()
        invariant
            i <= maps@.len(),
            all_wf(maps@),
            chain_at(maps@, value as int) == chain_at(maps@.skip(i as int), cur as int),
        decreases maps@.len() - i,
    {
        cur = maps[i].convert(cur);
        proof {
            assert(maps@.skip(i as int).drop_first() =~= maps@.skip(i + 1));
            assert(maps@.skip(i as int)[0] == maps@[i as int]);
        }
        i += 1;
    }
    proof {
        assert(maps@.skip(maps@.len() as int) =~= Seq::<Mapping>::empty());
    }
    cur
}

/// Chaining is compositional: applying a first list of tables and then a
/// second equals applying their concatenation in one pass, for any value.
pub proof fn lemma_chain_append(maps1: Seq<Mapping>, maps2: Seq<Mapping>, v: int)
    ensures
        chain_at(maps1 + maps2, v) == chain_at(maps2, chain_at(maps1, v)),
    decreases maps1.len(),
{
    if maps1.len() == 0 {
        assert(maps1 + maps2 =~= maps2);
    } else {
        assert((maps1 + maps2).drop_first() =~= maps1.drop_first() + maps2);
        assert((maps1 + maps2)[0] == maps1[0]);
        lemma_chain_append(maps1.drop_first(), maps2, resolve(maps1[0].ranges@, v));
    }
}

/// Applies the whole chain independently to each seed, in seed-list order.
pub fn convert_seeds(seeds: &Vec<i64>, maps: &Vec<Mapping>) -> (r: Vec<i64>)
    requires
        all_wf(maps@),
    ensures
        r@.len() == seeds@.len(),
        forall|k: int| 0 <= k < seeds@.len() ==> r@[k] as int == chain_at(maps@, seeds@[k] as int),
{
    let mut r: Vec<i64> = Vec::new();
    let mut i: usize = 0;
    while i < seeds.len()
        invariant
            i <= seeds@.len(),
            all_wf(maps@),
            r@.len() == i,
            forall|k: int| 0 <= k < i ==> r@[k] as int == chain_at(maps@, seeds@[k] as int),
        decreases seeds@.len() - i,
    {
        let out = apply_chain(seeds[i], maps);
        r.push(out);
        i += 1;
    }
    r
}

} // verus!
