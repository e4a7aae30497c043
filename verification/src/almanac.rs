//! Building a whole almanac from trimmed text lines: the seed list from the
//! first line, and one table per blank-line-separated block from the third
//! line on.

use vstd::prelude::*;
use crate::chain::all_wf;
use crate::error::AlmanacError;
use crate::mapping::{block_err, block_ok, mapping_matches_block, Mapping};
use crate::parse::{
    parse_i64_chars, parse_signed, split_ws, split_ws_exec, starts_with_seeds,
    strip_seeds_prefix, subvec, to_chars,
};

verus! {

/// The top-level aggregate: the seed list plus the tables in document order.
#[derive(Debug)]
pub struct Data {
    /// The tables, in document order.
    pub maps: Vec<Mapping>,
    /// The seed identifiers, in document order.
    pub seeds: Vec<i64>,
}

/// The lines that hold the table blocks: everything after the seed line and
/// the blank line that follows it.
pub open spec fn maps_tail(lines: Seq<String>) -> Seq<String> {
    if lines.len() < 2 {
        Seq::empty()
    } else {
        lines.skip(2)
    }
}

/// Splits `lines` into blocks at blank lines, carrying the block built so
/// far: every blank line closes a block (an empty one if two blanks are
/// adjacent), and a non-empty final block is kept.
pub open spec fn chunks_rec(lines: Seq<String>, cur: Seq<String>) -> Seq<Seq<String>>
    decreases lines.len(),
{
    if lines.len() == 0 {
        if cur.len() == 0 {
            Seq::empty()
        } else {
            seq![cur]
        }
    } else if lines[0]@.len() == 0 {
        seq![cur] + chunks_rec(lines.drop_first(), Seq::empty())
    } else {
        chunks_rec(lines.drop_first(), cur.push(lines[0]))
    }
}

/// The table blocks of a whole line list.
pub open spec fn map_blocks(lines: Seq<String>) -> Seq<Seq<String>> {
    chunks_rec(maps_tail(lines), Seq::empty())
}

/// Every block builds a table.
pub open spec fn blocks_all_ok(blocks: Seq<Seq<String>>) -> bool {
    forall|k: int| 0 <= k < blocks.len() ==> block_ok(#[trigger] blocks[k])
}

/// The tables are exactly what the blocks describe, element by element.
pub open spec fn mappings_match_blocks(maps: Seq<Mapping>, blocks: Seq<Seq<String>>) -> bool {
    &&& maps.len() == blocks.len()
    &&& forall|k: int|
        0 <= k < maps.len() ==> mapping_matches_block(#[trigger] maps[k], blocks[k])
}

/// `e` is the error of the first block that does not build a table.
pub open spec fn blocks_err_at(blocks: Seq<Seq<String>>, e: AlmanacError) -> bool {
    exists|k: int|
        {
            &&& 0 <= k < blocks.len()
            &&& !block_ok(#[trigger] blocks[k])
            &&& (forall|j: int| 0 <= j < k ==> block_ok(#[trigger] blocks[j]))
            &&& e == block_err(blocks[k])
        }
}

/// The whitespace-separated tokens of the seed line, after its `seeds: `
/// prefix is stripped.
pub open spec fn seed_tokens(line: Seq<char>) -> Seq<Seq<char>> {
    split_ws(strip_seeds_prefix(line))
}

/// Every token of the seed line parses as a 64-bit integer.
pub open spec fn seeds_ok(line: Seq<char>) -> bool {
    forall|k: int|
        0 <= k < seed_tokens(line).len() ==> parse_signed(#[trigger] seed_tokens(line)[k]) is Some
}

/// `seeds` is exactly the parsed token list of the seed line, in order.
pub open spec fn seeds_match(seeds: Seq<i64>, line: Seq<char>) -> bool {
    &&& seeds.len() == seed_tokens(line).len()
    &&& forall|k: int|
        0 <= k < seeds.len() ==> parse_signed(seed_tokens(line)[k]) == Some(
            (#[trigger] seeds[k]) as int,
        )
}

fn starts_with_seeds_exec(chars: &Vec<char>, start: usize) -> (r: bool)
    requires
        start <= chars@.len(),
    ensures
        r == starts_with_seeds(chars@.skip(start as int)),
{
    chars.len() - start >= 7 && chars[start] == 's' && chars[start + 1] == 'e' && chars[start + 2]
        == 'e' && chars[start + 3] == 'd' && chars[start + 4] == 's' && chars[start + 5] == ':'
        && chars[start + 6] == ' '
}

/// Reads the seed list from the first line: strips the `seeds: ` prefix and
/// parses every remaining whitespace-separated token as a 64-bit integer.
/// Any token that does not parse rejects the whole list.
pub fn read_seeds(lines: &Vec<String>) -> (r: Result<Vec<i64>, AlmanacError>)
    requires
        lines@.len() > 0,
    ensures
        match r {
            Ok(seeds) => seeds_ok(lines@[0]@) && seeds_match(seeds@, lines@[0]@),
            Err(e) => !seeds_ok(lines@[0]@) && e == AlmanacError::InvalidRange,
        },
{
    let ghost full = lines@[0]@;
    let chars = to_chars(lines[0].as_str());
    let n = chars.len();
    let mut start: usize = 0;
    proof {
        assert(full.skip(0) =~= full);
    }
    while starts_with_seeds_exec(&chars, start)
        invariant
            lines@.len() > 0,
            full == lines@[0]@,
            start <= n,
            n == chars@.len(),
            chars@ == full,
            strip_seeds_prefix(full) == strip_seeds_prefix(full.skip(start as int)),
        decreases n - start,
    {
        proof {
            assert(full.skip(start as int).skip(7) =~= full.skip(start + 7));
        }
        start += 7;
    }
    let ghost rest_spec = strip_seeds_prefix(full);
    proof {
        assert(rest_spec == full.skip(start as int));
    }
    let rest = subvec(&chars, start, n);
    proof {
        assert(rest@ =~= rest_spec);
    }
    let toks = split_ws_exec(&rest);
    let mut seeds: Vec<i64> = Vec::new();
    let mut k: usize = 0;
    while k < toks.len()
        invariant
            lines@.len() > 0,
            full == lines@[0]@,
            k <= toks@.len(),
            toks@.len() == seed_tokens(full).len(),
            forall|q: int| 0 <= q < toks@.len() ==> toks@[q]@ == seed_tokens(full)[q],
            seeds@.len() == k,
            forall|q: int|
                0 <= q < k ==> parse_signed(seed_tokens(full)[q]) == Some(
                    (#[trigger] seeds@[q]) as int,
                ),
        decreases toks@.len() - k,
    {
        match parse_i64_chars(&toks[k]) {
            None => {
                proof {
                    assert(parse_signed(seed_tokens(full)[k as int]) is None);
                }
                return Err(AlmanacError::InvalidRange);
            },
            Some(v) => seeds.push(v),
        }
        k += 1;
    }
    proof {
        assert forall|q: int|
            0 <= q < seed_tokens(full).len() implies parse_signed(
            #[trigger] seed_tokens(full)[q],
        ) is Some by {
            assert(parse_signed(seed_tokens(full)[q]) == Some(seeds@[q] as int));
        }
    }
    Ok(seeds)
}

/// Reads the tables: lines after the first two are cut into blocks at blank
/// lines, and each block is handed to `Mapping::try_from`.  The first block
/// that fails aborts the whole read with that block's error.
pub fn read_maps(lines: &Vec<String>) -> (r: Result<Vec<Mapping>, AlmanacError>)
    ensures
        match r {
            Ok(maps) => blocks_all_ok(map_blocks(lines@)) && mappings_match_blocks(
                maps@,
                map_blocks(lines@),
            ) && all_wf(maps@),
            Err(e) => blocks_err_at(map_blocks(lines@), e),
        },
{
    let ghost blocks = map_blocks(lines@);
    let ghost tail = maps_tail(lines@);
    let n = lines.len();
    let m: usize = if n < 2 {
        0
    } else {
        n - 2
    };
    let mut maps: Vec<Mapping> = Vec::new();
    let mut cur: Vec<String> = Vec::new();
    let ghost mut done: Seq<Seq<String>> = Seq::empty();
    let mut t: usize = 0;
    proof {
        assert(tail.skip(0) =~= tail);
        assert(blocks =~= done + chunks_rec(tail.skip(0), cur@));
    }
    while t < m
        invariant
            t <= m,
            n == lines@.len(),
            m == maps_tail(lines@).len(),
            tail == maps_tail(lines@),
            blocks == map_blocks(lines@),
            blocks == done + chunks_rec(tail.skip(t as int), cur@),
            maps@.len() == done.len(),
            forall|j: int| 0 <= j < done.len() ==> block_ok(#[trigger] done[j]),
            forall|j: int|
                0 <= j < done.len() ==> mapping_matches_block(#[trigger] maps@[j], done[j])
                    && maps@[j].wf(),
        decreases m - t,
    {
        proof {
            assert(tail[t as int] == lines@[t + 2]);
            assert(tail.skip(t as int).drop_first() =~= tail.skip(t + 1));
            assert(tail.skip(t as int)[0] == tail[t as int]);
        }
        let line = &lines[t + 2];
        if line.as_str().is_empty() {
            match Mapping::try_from(&cur) {
                Err(e) => {
                    proof {
                        let k = done.len() as int;
                        assert(blocks[k] == cur@);
                        assert(blocks_err_at(blocks, e));
                    }
                    return Err(e);
                },
                Ok(mp) => {
                    maps.push(mp);
                    proof {
                        done = done.push(cur@);
                    }
                    cur = Vec::new();
                },
            }
        } else {
            cur.push(line.clone());
        }
        t += 1;
    }
    proof {
        assert(tail.skip(m as int) =~= Seq::<String>::empty());
    }
    if cur.len() == 0 {
        proof {
            assert(blocks =~= done);
        }
        Ok(maps)
    } else {
        match Mapping::try_from(&cur) {
            Err(e) => {
                proof {
                    let k = done.len() as int;
                    assert(blocks[k] == cur@);
                    assert(blocks_err_at(blocks, e));
                }
                Err(e)
            },
            Ok(mp) => {
                maps.push(mp);
                proof {
                    done = done.push(cur@);
                    assert(blocks =~= done);
                }
                Ok(maps)
            },
        }
    }
}

/// Reads a whole almanac from trimmed lines: the tables first, then the seed
/// list; the first construction error aborts the read, tables taking
/// precedence.
pub fn read_data(lines: &Vec<String>) -> (r: Result<Data, AlmanacError>)
    requires
        lines@.len() > 0,
    ensures
        match r {
            Ok(d) => {
                &&& blocks_all_ok(map_blocks(lines@))
                &&& mappings_match_blocks(d.maps@, map_blocks(lines@))
                &&& all_wf(d.maps@)
                &&& seeds_ok(lines@[0]@)
                &&& seeds_match(d.seeds@, lines@[0]@)
            },
            Err(e) => blocks_err_at(map_blocks(lines@), e) || (blocks_all_ok(map_blocks(lines@))
                && !seeds_ok(lines@[0]@) && e == AlmanacError::InvalidRange),
        },
{
    let maps = match read_maps(lines) {
        Err(e) => { return Err(e) },
        Ok(maps) => maps,
    };
    let seeds = match read_seeds(lines) {
        Err(e) => { return Err(e) },
        Ok(seeds) => seeds,
    };
    Ok(Data { maps, seeds })
}

} // verus!
