use vstd::prelude::*;
use crate::chain_core::block::{data_lt, lex_lt, lex_le, lemma_lex_order};
use crate::datasource::DataSource;

verus! {

// 1K blocks logn = 10
pub const MAX_LEVEL: usize = 8;
pub const CAPACITY: usize = 1000;

#[derive(Clone, Copy)]
pub struct SkipNode {
    /// bitmap that represents layers this node is present.
    /// 0000 , 0000 (first 4 bits for layer, next 4 bits for offset index on layer 0)
    pub layer_next: [u8; MAX_LEVEL],
    pub tombstone: bool,
    /// hash of phone number
    pub data: [u8; 16],
}

/// The node that `SkipNode::new` makes: no layer bits, the given tombstone marker and data.
pub open spec fn spec_new_node(data: [u8; 16], tombstone: bool) -> SkipNode {
    SkipNode { layer_next: [0u8; MAX_LEVEL], tombstone, data }
}

impl SkipNode {
    pub fn new(data: [u8; 16], tombstone_marker: bool, source: DataSource) -> (node: SkipNode)
        ensures
            node == spec_new_node(data, tombstone_marker),
    {
        SkipNode { layer_next: [0; 8], tombstone: tombstone_marker, data }
    }
}

/// The chance of each extra level, per source, as a threshold on 53 random bits:
/// the draw `x` (the top 53 bits of 64) counts when `x / 2^53` is below 0.75, 0.50 or
/// 0.25 respectively, so a block climbs with probability 75%, 50% or 25%.
pub const HOT_DATA_PROBABILITY_THRESHOLD: u64 = 6755399441055744;
pub const MEDIUM_PROBABILITY_THRESHOLD: u64 = 4503599627370496;
pub const COLD_DATA_PROBABILITY_THRESHOLD: u64 = 2251799813685248;

/// The threshold that a draw must stay below for a block from `source` to climb a level.
pub open spec fn level_threshold(source: DataSource) -> u64 {
    match source {
        DataSource::RingBuffer => HOT_DATA_PROBABILITY_THRESHOLD,
        DataSource::MemTable => MEDIUM_PROBABILITY_THRESHOLD,
        DataSource::SSTable => COLD_DATA_PROBABILITY_THRESHOLD,
    }
}

/// Draws a random `bool` with `rand::random`. Nothing is stated of the value.
#[verifier::external_body]
fn random_bool() -> bool {
    rand::random::<bool>()
}

/// Draws 64 random bits with `rand::random`. Nothing is stated of the value.
#[verifier::external_body]
fn random_u64() -> u64 {
    rand::random::<u64>()
}

/// Whether a draw climbs a level: its top 53 bits (`draw / 2^11`), read as a fraction
/// of 2^53, are below the threshold (that is how `rand` turns 64 random bits into an
/// `f64` in `[0, 1)`).
pub open spec fn draw_climbs(draw: u64, threshold: u64) -> bool {
    draw / 2048 < threshold
}

/// Each source climbs on the share of draws that its documented chance gives: the top
/// 53 bits of the draw, as a fraction of 2^53, below 3/4 for ring-buffer data, below
/// 1/2 for memtable data and below 1/4 for SSTable data; that is, exactly the draws in
/// the lowest three quarters, the lower half, or the lowest quarter of all 64-bit values.
pub proof fn lemma_climb_chances(draw: u64)
    ensures
        draw_climbs(draw, level_threshold(DataSource::RingBuffer)) <==> 4 * (draw / 2048) < 3 * 0x20000000000000,
        draw_climbs(draw, level_threshold(DataSource::MemTable)) <==> 2 * (draw / 2048) < 0x20000000000000,
        draw_climbs(draw, level_threshold(DataSource::SSTable)) <==> 4 * (draw / 2048) < 0x20000000000000,
        draw_climbs(draw, level_threshold(DataSource::RingBuffer)) <==> 4 * (draw as int) < 3 * 0x10000000000000000,
        draw_climbs(draw, level_threshold(DataSource::MemTable)) <==> 2 * (draw as int) < 0x10000000000000000,
        draw_climbs(draw, level_threshold(DataSource::SSTable)) <==> 4 * (draw as int) < 0x10000000000000000,
{
}

/// The level after one draw: one more when the draw climbs for the source.
pub fn level_after_draw(level: usize, source: DataSource, draw: u64) -> (next: usize)
    requires
        level < MAX_LEVEL,
    ensures
        next == if draw_climbs(draw, level_threshold(source)) { level + 1 } else { level as int },
        source is RingBuffer ==> (next == level + 1 <==> 4 * (draw / 2048) < 3 * 0x20000000000000),
        source is MemTable ==> (next == level + 1 <==> 2 * (draw / 2048) < 0x20000000000000),
        source is SSTable ==> (next == level + 1 <==> 4 * (draw / 2048) < 0x20000000000000),
        source is RingBuffer ==> (next == level + 1 <==> 4 * (draw as int) < 3 * 0x10000000000000000),
        source is MemTable ==> (next == level + 1 <==> 2 * (draw as int) < 0x10000000000000000),
        source is SSTable ==> (next == level + 1 <==> 4 * (draw as int) < 0x10000000000000000),
        next == level || next == level + 1,
{
    proof {
        lemma_climb_chances(draw);
    }
    let threshold = match source {
        DataSource::RingBuffer => HOT_DATA_PROBABILITY_THRESHOLD,
        DataSource::MemTable => MEDIUM_PROBABILITY_THRESHOLD,
        DataSource::SSTable => COLD_DATA_PROBABILITY_THRESHOLD,
    };
    assert(draw >> 11u64 == draw / 2048) by (bit_vector);
    if (draw >> 11u64) < threshold {
        level + 1
    } else {
        level
    }
}

/// One step of the level drawing: a false coin, or a level already at the top, stops
/// at the current level; otherwise the draw decides whether the level climbs and
/// another coin is tossed. Gives the level and whether to go on.
pub fn level_step(level: usize, source: DataSource, coin: bool, draw: u64) -> (r: (usize, bool))
    requires
        1 <= level <= MAX_LEVEL,
    ensures
        r == if coin && level < MAX_LEVEL {
            (if draw_climbs(draw, level_threshold(source)) { (level + 1) as usize } else { level }, true)
        } else {
            (level, false)
        },
{
    if !(coin && level < MAX_LEVEL) {
        (level, false)
    } else {
        (level_after_draw(level, source, draw), true)
    }
}

/// The level drawn with the given coins and draws (one of each per step, in order),
/// as `random_level` draws it, and whether the drawing has stopped: a false coin, or a
/// level already at the top, stops it; otherwise a climbing draw adds a level.
pub open spec fn draw_run(threshold: u64, coins: Seq<bool>, draws: Seq<u64>) -> (nat, bool)
    decreases coins.len(),
{
    if coins.len() == 0 || draws.len() != coins.len() {
        (1, false)
    } else {
        let before = draw_run(threshold, coins.drop_last(), draws.drop_last());
        if before.1 || !coins.last() || before.0 >= MAX_LEVEL {
            (before.0, true)
        } else {
            (if draw_climbs(draws.last(), threshold) { before.0 + 1 } else { before.0 }, false)
        }
    }
}

/// The level drawn with the given coins and draws.
pub open spec fn level_from_draws(threshold: u64, coins: Seq<bool>, draws: Seq<u64>) -> nat {
    draw_run(threshold, coins, draws).0
}

proof fn lemma_draw_run_bounded(threshold: u64, coins: Seq<bool>, draws: Seq<u64>)
    ensures
        1 <= draw_run(threshold, coins, draws).0 <= MAX_LEVEL,
    decreases coins.len(),
{
    if !(coins.len() == 0 || draws.len() != coins.len()) {
        lemma_draw_run_bounded(threshold, coins.drop_last(), draws.drop_last());
    }
}

proof fn lemma_draw_run_monotone(t1: u64, t2: u64, coins: Seq<bool>, draws: Seq<u64>)
    requires
        t2 <= t1,
    ensures
        draw_run(t2, coins, draws).0 <= draw_run(t1, coins, draws).0,
        draw_run(t2, coins, draws).1 ==> draw_run(t1, coins, draws).1,
        draw_run(t1, coins, draws).1 && !draw_run(t2, coins, draws).1 ==> draw_run(t1, coins, draws).0 == MAX_LEVEL,
    decreases coins.len(),
{
    lemma_draw_run_bounded(t1, coins, draws);
    lemma_draw_run_bounded(t2, coins, draws);
    if !(coins.len() == 0 || draws.len() != coins.len()) {
        lemma_draw_run_monotone(t1, t2, coins.drop_last(), draws.drop_last());
        lemma_draw_run_bounded(t1, coins.drop_last(), draws.drop_last());
        lemma_draw_run_bounded(t2, coins.drop_last(), draws.drop_last());
    }
}

/// Hotter data never gets a lower level: with the same coins and draws, a block from
/// the ring buffer climbs at least as high as one from the memtable, which climbs at
/// least as high as one from an SSTable.
pub proof fn lemma_hotter_data_climbs_higher(coins: Seq<bool>, draws: Seq<u64>)
    ensures
        level_from_draws(level_threshold(DataSource::SSTable), coins, draws) <= level_from_draws(
            level_threshold(DataSource::MemTable),
            coins,
            draws,
        ),
        level_from_draws(level_threshold(DataSource::MemTable), coins, draws) <= level_from_draws(
            level_threshold(DataSource::RingBuffer),
            coins,
            draws,
        ),
{
    lemma_draw_run_monotone(MEDIUM_PROBABILITY_THRESHOLD, COLD_DATA_PROBABILITY_THRESHOLD, coins, draws);
    lemma_draw_run_monotone(HOT_DATA_PROBABILITY_THRESHOLD, MEDIUM_PROBABILITY_THRESHOLD, coins, draws);
}

/// The level drawn for a block from `source` with the given coins and draws, step by
/// step with `level_step`, as `random_level` draws it from `rand`.
pub fn level_for_draws(source: DataSource, coins: &[bool], draws: &[u64]) -> (level: usize)
    requires
        coins@.len() == draws@.len(),
    ensures
        level == level_from_draws(level_threshold(source), coins@, draws@),
{
    let ghost threshold = level_threshold(source);
    let mut level: usize = 1;
    let mut stopped = false;
    let mut i: usize = 0;
    while i < coins.len()
        invariant
            i <= coins@.len() == draws@.len(),
            threshold == level_threshold(source),
            1 <= level <= MAX_LEVEL,
            draw_run(threshold, coins@.take(i as int), draws@.take(i as int)) == (level as nat, stopped),
        decreases coins@.len() - i,
    {
        proof {
            assert(coins@.take(i + 1).drop_last() =~= coins@.take(i as int));
            assert(draws@.take(i + 1).drop_last() =~= draws@.take(i as int));
            assert(coins@.take(i + 1).last() == coins@[i as int]);
            assert(draws@.take(i + 1).last() == draws@[i as int]);
        }
        let ghost before = (level as nat, stopped);
        let ghost c = coins@[i as int];
        let ghost d = draws@[i as int];
        if !stopped {
            let step = level_step(level, source, coins[i], draws[i]);
            level = step.0;
            stopped = !step.1;
        }
        proof {
            assert(draw_run(threshold, coins@.take(i + 1), draws@.take(i + 1)) == if before.1 || !c || before.0 >= MAX_LEVEL {
                (before.0, true)
            } else {
                (if draw_climbs(d, threshold) { before.0 + 1 } else { before.0 }, false)
            });
        }
        i = i + 1;
    }
    proof {
        assert(coins@.take(coins@.len() as int) =~= coins@);
        assert(draws@.take(draws@.len() as int) =~= draws@);
    }
    level
}

/// Randomly assign a level to the data provided
/// param data: data to be assigned a level
/// param source: source of data
/// return: level assigned to the data
/// 1. If the data is from ring buffer, bump level with 75% probability
/// 2. If the data is from memtable, bump level with 50% probability
/// 3. If the data is from sstable, bump level with 25% probability
/// Each step tosses a coin and, when it goes on, draws 64 bits; `level_step` decides.
/// The coin is tossed at most `u64::MAX` times.
pub fn random_level(data: &[u8; 16], source: DataSource) -> (level: usize)
    ensures
        1 <= level <= MAX_LEVEL,
        exists|coins: Seq<bool>, draws: Seq<u64>|
            coins.len() == draws.len() && level == #[trigger] level_from_draws(level_threshold(source), coins, draws),
{
    let ghost threshold = level_threshold(source);
    let ghost mut coins: Seq<bool> = Seq::empty();
    let ghost mut draws: Seq<u64> = Seq::empty();
    let mut level: usize = 1;
    let mut tosses_left: u64 = u64::MAX;
    while tosses_left > 0
        invariant_except_break
            !draw_run(threshold, coins, draws).1,
        invariant
            threshold == level_threshold(source),
            1 <= level <= MAX_LEVEL,
            coins.len() == draws.len(),
            draw_run(threshold, coins, draws).0 == level,
        ensures
            1 <= level <= MAX_LEVEL,
            coins.len() == draws.len(),
            draw_run(threshold, coins, draws).0 == level,
        decreases tosses_left,
    {
        tosses_left = tosses_left - 1;
        let coin = random_bool();
        let draw = if coin && level < MAX_LEVEL { random_u64() } else { 0 };
        let step = level_step(level, source, coin, draw);
        let next = step.0;
        let go_on = step.1;
        proof {
            let c2 = coins.push(coin);
            let d2 = draws.push(draw);
            assert(c2.drop_last() =~= coins);
            assert(d2.drop_last() =~= draws);
            assert(c2.last() == coin);
            assert(d2.last() == draw);
            let before = draw_run(threshold, coins, draws);
            assert(before == (level as nat, false));
            assert(draw_run(threshold, c2, d2) == if !coin || level >= MAX_LEVEL {
                (level as nat, true)
            } else {
                (if draw_climbs(draw, threshold) { (level + 1) as nat } else { level as nat }, false)
            });
            coins = c2;
            draws = d2;
        }
        level = next;
        if !go_on {
            break;
        }
    }
    proof {
        assert(level == level_from_draws(threshold, coins, draws));
    }
    level
}

/// The first slot from `pos` on where the scan for `key` stops: one that is past the
/// end, empty, or holds data not smaller than `key`.
pub open spec fn scan_stop(blocks: Seq<Option<SkipNode>>, pos: int, key: Seq<u8>) -> int
    decreases blocks.len() - pos,
{
    if 0 <= pos < blocks.len() && blocks[pos] is Some && lex_lt(blocks[pos]->Some_0.data@, key) {
        scan_stop(blocks, pos + 1, key)
    } else {
        pos
    }
}

/// The layer byte after marking `level` (high nibble) and the step `step` from the
/// level's start (low nibble).
pub open spec fn layer_byte(old_byte: u8, level: int, step: int) -> u8 {
    ((old_byte & 0xF0u8) | (1u8 << ((level % 4) + 4) as u8)) | ((old_byte & 0x0Fu8) | (1u8 << (step % 4) as u8))
}

/// Where a level's steps are counted from: its head when the head lies at or before the
/// slot, slot 0 otherwise.
pub open spec fn level_start(heads: Seq<usize>, level: int, pos: int) -> int {
    if heads[level] <= pos { heads[level] as int } else { 0 }
}

/// The layer byte of a node stored at `pos` on the levels `levels - 1` down to `0`.
pub open spec fn marked_layers(byte: u8, levels: nat, pos: int, heads: Seq<usize>) -> u8
    decreases levels,
{
    if levels == 0 {
        byte
    } else {
        marked_layers(
            layer_byte(byte, levels - 1, pos - level_start(heads, levels - 1, pos)),
            (levels - 1) as nat,
            pos,
            heads,
        )
    }
}

/// Whether bit `b` of `x` is set.
pub open spec fn bit_set(x: u8, b: u8) -> bool {
    (x >> b) & 1u8 == 1u8
}

/// The step of the slot `pos` on level `i`, counted from where that level's steps start,
/// modulo 4: the low-nibble bit that records the node's place on that level.
pub open spec fn level_step_bit(heads: Seq<usize>, i: int, pos: int) -> int {
    (pos - level_start(heads, i, pos)) % 4
}

proof fn lemma_layer_byte_bits(b: u8, k: u8, st: u8, bb: u8)
    requires
        k < 4,
        st < 4,
        bb < 4,
    ensures
        ({
            let r = ((b & 0xF0u8) | (1u8 << (k + 4) as u8)) | ((b & 0x0Fu8) | (1u8 << st));
            &&& bit_set(r >> 4u8, bb) <==> (bit_set(b >> 4u8, bb) || bb == k)
            &&& bit_set(r, bb) <==> (bit_set(b, bb) || bb == st)
        }),
{
    assert({
        let r = ((b & 0xF0u8) | (1u8 << (k + 4) as u8)) | ((b & 0x0Fu8) | (1u8 << st));
        &&& ((r >> 4u8) >> bb) & 1u8 == 1u8 <==> (((b >> 4u8) >> bb) & 1u8 == 1u8 || bb == k)
        &&& (r >> bb) & 1u8 == 1u8 <==> ((b >> bb) & 1u8 == 1u8 || bb == st)
    }) by (bit_vector)
        requires
            k < 4,
            st < 4,
            bb < 4,
    ;
}

/// The layer byte of a node stored at `pos` over `levels` levels, marked into `byte`:
/// its high nibble gains exactly the bits of the levels (bit `b` for each `b < levels`,
/// whatever the position), and its low nibble gains exactly the step bits of those
/// levels (the slot's distance from each level's start, modulo 4), nothing else.
pub proof fn lemma_layer_byte_marks_levels_and_steps(byte: u8, levels: nat, pos: int, heads: Seq<usize>)
    requires
        levels <= heads.len(),
        pos >= 0,
    ensures
        forall|b: u8|
            b < 4 ==> (#[trigger] bit_set(marked_layers(byte, levels, pos, heads) >> 4u8, b) <==> (bit_set(
                byte >> 4u8,
                b,
            ) || b < levels)),
        forall|b: u8|
            b < 4 ==> (#[trigger] bit_set(marked_layers(byte, levels, pos, heads), b) <==> (bit_set(byte, b)
                || exists|i: int| 0 <= i < levels && #[trigger] level_step_bit(heads, i, pos) == b)),
    decreases levels,
{
    if levels > 0 {
        let i = levels - 1;
        let k = (i % 4) as u8;
        let st = level_step_bit(heads, i, pos) as u8;
        let b1 = layer_byte(byte, i, pos - level_start(heads, i, pos));
        lemma_layer_byte_marks_levels_and_steps(b1, (levels - 1) as nat, pos, heads);
        let m = marked_layers(byte, levels, pos, heads);
        assert(m == marked_layers(b1, (levels - 1) as nat, pos, heads));
        assert forall|b: u8| b < 4 implies (#[trigger] bit_set(m >> 4u8, b) <==> (bit_set(byte >> 4u8, b) || b
            < levels)) by {
            lemma_layer_byte_bits(byte, k, st, b);
            assert(bit_set(m >> 4u8, b) <==> (bit_set(b1 >> 4u8, b) || b < levels - 1));
        }
        assert forall|b: u8| b < 4 implies (#[trigger] bit_set(m, b) <==> (bit_set(byte, b) || exists|j: int|
            0 <= j < levels && #[trigger] level_step_bit(heads, j, pos) == b)) by {
            lemma_layer_byte_bits(byte, k, st, b);
            assert(bit_set(m, b) <==> (bit_set(b1, b) || exists|j: int|
                0 <= j < levels - 1 && #[trigger] level_step_bit(heads, j, pos) == b));
            if exists|j: int| 0 <= j < levels && #[trigger] level_step_bit(heads, j, pos) == b {
                let j = choose|j: int| 0 <= j < levels && #[trigger] level_step_bit(heads, j, pos) == b;
                if j < levels - 1 {
                    assert(bit_set(m, b));
                }
            }
        }
    }
}

/// The node that an insertion at `pos` over `levels` levels stores.
pub open spec fn placed_node(data: [u8; 16], tombstone: bool, levels: nat, pos: int, heads: Seq<usize>) -> SkipNode {
    SkipNode {
        layer_next: vstd::array::spec_array_update(
            spec_new_node(data, tombstone).layer_next,
            0,
            marked_layers(0u8, levels, pos, heads),
        ),
        tombstone,
        data,
    }
}

/// The slots with `node` put at `pos` and the slots from `pos` on moved up by one.
pub open spec fn with_inserted(blocks: Seq<Option<SkipNode>>, pos: int, node: SkipNode) -> Seq<Option<SkipNode>> {
    Seq::new(blocks.len(), |k: int| if k < pos { blocks[k] } else if k == pos { Some(node) } else { blocks[k - 1] })
}

/// The blocks fill slots `0..n`, in non-decreasing order of data, and no other slot.
pub open spec fn sorted_prefix(blocks: Seq<Option<SkipNode>>, n: int) -> bool {
    &&& 0 <= n <= blocks.len()
    &&& forall|k: int| 0 <= k < blocks.len() ==> ((#[trigger] blocks[k]) is Some <==> k < n)
    &&& forall|i: int, j: int|
        0 <= i < j < n ==> lex_le(#[trigger] blocks[i]->Some_0.data@, #[trigger] blocks[j]->Some_0.data@)
}

/// The number of occupied slots.
pub open spec fn count_occupied(blocks: Seq<Option<SkipNode>>) -> nat
    decreases blocks.len(),
{
    if blocks.len() == 0 {
        0
    } else {
        count_occupied(blocks.drop_last()) + if blocks.last() is Some { 1nat } else { 0nat }
    }
}

/// Slots that are all empty hold no block.
pub proof fn lemma_count_occupied_empty(blocks: Seq<Option<SkipNode>>)
    requires
        forall|k: int| 0 <= k < blocks.len() ==> (#[trigger] blocks[k]) is None,
    ensures
        count_occupied(blocks) == 0,
    decreases blocks.len(),
{
    if blocks.len() > 0 {
        assert(blocks.last() == blocks[blocks.len() - 1]);
        let rest = blocks.drop_last();
        assert forall|k: int| 0 <= k < rest.len() implies (#[trigger] rest[k]) is None by {
            assert(rest[k] == blocks[k]);
        }
        lemma_count_occupied_empty(rest);
    }
}

/// Slots whose blocks fill exactly `0..n` hold `n` blocks.
pub proof fn lemma_count_prefix(blocks: Seq<Option<SkipNode>>, n: int)
    requires
        0 <= n <= blocks.len(),
        forall|k: int| 0 <= k < blocks.len() ==> ((#[trigger] blocks[k]) is Some <==> k < n),
    ensures
        count_occupied(blocks) == n,
    decreases blocks.len(),
{
    if blocks.len() > 0 {
        let rest = blocks.drop_last();
        assert(blocks.last() == blocks[blocks.len() - 1]);
        let m = if n == blocks.len() { n - 1 } else { n };
        assert forall|k: int| 0 <= k < rest.len() implies ((#[trigger] rest[k]) is Some <==> k < m) by {
            assert(rest[k] == blocks[k]);
        }
        lemma_count_prefix(rest, m);
    }
}

/// Putting a node at the first slot whose data is not smaller keeps the blocks a sorted
/// prefix, one longer.
pub proof fn lemma_inserted_sorted(blocks: Seq<Option<SkipNode>>, n: int, pos: int, node: SkipNode)
    requires
        sorted_prefix(blocks, n),
        n < blocks.len(),
        0 <= pos <= n,
        forall|k: int| 0 <= k < pos ==> lex_lt((#[trigger] blocks[k])->Some_0.data@, node.data@),
        pos < n ==> !lex_lt(blocks[pos]->Some_0.data@, node.data@),
    ensures
        sorted_prefix(with_inserted(blocks, pos, node), n + 1),
{
    let r = with_inserted(blocks, pos, node);
    assert forall|k: int| 0 <= k < r.len() implies ((#[trigger] r[k]) is Some <==> k < n + 1) by {
        if k > pos {
            assert(blocks[k - 1] is Some <==> k - 1 < n);
        }
    }
    assert forall|i: int, j: int| 0 <= i < j < n + 1 implies lex_le(
        #[trigger] r[i]->Some_0.data@,
        #[trigger] r[j]->Some_0.data@,
    ) by {
        let key = node.data@;
        if j < pos {
            assert(lex_le(blocks[i]->Some_0.data@, blocks[j]->Some_0.data@));
        } else if i > pos {
            assert(lex_le(blocks[i - 1]->Some_0.data@, blocks[j - 1]->Some_0.data@));
        } else if j == pos {
            assert(lex_lt(blocks[i]->Some_0.data@, key));
        } else if i == pos {
            // j > pos: r[j] is blocks[j - 1], not smaller than blocks[pos], which is not
            // smaller than the key
            let bp = blocks[pos]->Some_0.data@;
            let bj = blocks[j - 1]->Some_0.data@;
            assert(blocks[pos] is Some && blocks[j - 1] is Some);
            assert(lex_le(bp, bj));
            lemma_lex_order(key, bp, bj);
            lemma_lex_order(bp, key, bj);
        } else {
            // i < pos < j
            let bi = blocks[i]->Some_0.data@;
            let bp = blocks[pos]->Some_0.data@;
            let bj = blocks[j - 1]->Some_0.data@;
            assert(blocks[i] is Some && blocks[pos] is Some && blocks[j - 1] is Some);
            assert(lex_lt(bi, key));
            assert(lex_le(bp, bj));
            lemma_lex_order(bi, key, bp);
            lemma_lex_order(key, bp, bj);
            lemma_lex_order(bi, bp, bj);
            lemma_lex_order(bp, key, bi);
        }
    }
}

pub struct SkipList {
    /// represents a sorted array of
    // heads at each level of skip list
    // levels are fixed
    pub heads: [usize; MAX_LEVEL],
    // pre-allocate fixed length array of blocks
    pub blocks: [Option<SkipNode>; CAPACITY],
}


pub trait SkipListOps {
    /// The number of blocks held.
    spec fn occupied(&self) -> nat;

    /// The blocks fill a prefix of the slots, in order of data.
    spec fn well_formed(&self) -> bool;

    /// Adds a block to the list. A full list would be flushed first, which is not
    /// implemented, so the list must have room.
    fn add(&mut self, data: &[u8; 16], tombstone_marker: bool) -> (inserted: bool)
        requires
            old(self).well_formed(),
            old(self).occupied() < CAPACITY,
    ;

    /// The number of blocks held.
    fn size(&self) -> (n: usize)
        ensures
            n == self.occupied(),
    ;
}

impl SkipList {
    /// An empty list: every head past the end, every slot empty.
    pub fn _new() -> (list: SkipList)
        ensures
            forall|i: int| 0 <= i < MAX_LEVEL ==> list.heads@[i] == usize::MAX,
            forall|k: int| 0 <= k < CAPACITY ==> list.blocks@[k] is None,
            list.occupied() == 0,
            list.well_formed(),
    {
        let mut heads = [usize::MAX; MAX_LEVEL];
        let mut i: usize = 0;
        while i < MAX_LEVEL
            invariant
                i <= MAX_LEVEL,
                forall|j: int| 0 <= j < i ==> heads@[j] == usize::MAX,
            decreases MAX_LEVEL - i,
        {
            heads[i] = usize::MAX;
            i = i + 1;
        }
        let mut blocks: [Option<SkipNode>; CAPACITY] = [None; CAPACITY];
        let mut k: usize = 0;
        while k < CAPACITY
            invariant
                k <= CAPACITY,
                forall|j: int| 0 <= j < k ==> blocks@[j] is None,
            decreases CAPACITY - k,
        {
            blocks[k] = None;
            k = k + 1;
        }
        proof {
            lemma_count_occupied_empty(blocks@);
        }
        SkipList { heads, blocks }
    }

    /// Inserts the block as `add` does once it has drawn `max_level`: at the first slot
    /// whose data is not smaller, moving the later blocks up by one slot, with its layer
    /// byte marked for the levels `max_level - 1` down to `0`.
    pub fn add_at_level(&mut self, data: &[u8; 16], tombstone_marker: bool, max_level: usize) -> (inserted: bool)
        requires
            1 <= max_level <= MAX_LEVEL,
            old(self).well_formed(),
            old(self).occupied() < CAPACITY,
        ensures
            inserted,
            final(self).heads == old(self).heads,
            ({
                let pos = scan_stop(old(self).blocks@, 0, data@);
                final(self).blocks@ == with_inserted(
                    old(self).blocks@,
                    pos,
                    placed_node(*data, tombstone_marker, max_level as nat, pos, old(self).heads@),
                )
            }),
            ({
                let pos = scan_stop(old(self).blocks@, 0, data@);
                let byte = final(self).blocks@[pos]->Some_0.layer_next@[0];
                &&& forall|b: u8| b < 4 ==> (#[trigger] bit_set(byte >> 4u8, b) <==> b < max_level)
                &&& forall|b: u8|
                    b < 4 ==> (#[trigger] bit_set(byte, b) <==> exists|i: int|
                        0 <= i < max_level && #[trigger] level_step_bit(old(self).heads@, i, pos) == b)
            }),
            final(self).well_formed(),
            final(self).occupied() == old(self).occupied() + 1,
    {
        let ghost b0 = self.blocks@;
        let n = self.size();
        // find right place to insert node
        let mut pos: usize = 0;
        while pos < n && data_lt(&self.blocks[pos].unwrap().data, data)
            invariant
                pos <= n < CAPACITY,
                self.blocks@ == b0,
                sorted_prefix(b0, n as int),
                scan_stop(b0, 0, data@) == scan_stop(b0, pos as int, data@),
                forall|k: int| 0 <= k < pos ==> lex_lt((#[trigger] b0[k])->Some_0.data@, data@),
            decreases n - pos,
        {
            pos = pos + 1;
        }
        proof {
            assert(scan_stop(b0, pos as int, data@) == pos);
        }
        // mark the node's levels
        let mut byte: u8 = 0;
        let mut levels = max_level;
        while levels > 0
            invariant
                levels <= max_level <= MAX_LEVEL,
                pos <= n,
                marked_layers(0u8, max_level as nat, pos as int, self.heads@) == marked_layers(
                    byte,
                    levels as nat,
                    pos as int,
                    self.heads@,
                ),
            decreases levels,
        {
            let i = levels - 1;
            let head = self.heads[i];
            let start = if head <= pos { head } else { 0 };
            let bit_offset = i % 4;
            let step_offset = (pos - start) % 4;
            let higher_nibble = (byte & 0xF0) | (1u8 << ((bit_offset + 4) as u8));
            let lower_nibble = (byte & 0x0F) | (1u8 << (step_offset as u8));
            byte = higher_nibble | lower_nibble;
            levels = levels - 1;
        }
        let mut new_node = SkipNode::new(*data, tombstone_marker, DataSource::RingBuffer);
        new_node.layer_next[0] = byte;
        // move the later blocks up by one slot
        let mut k = n;
        while k > pos
            invariant
                pos <= k <= n < CAPACITY,
                self.heads == old(self).heads,
                forall|j: int|
                    0 <= j < CAPACITY ==> #[trigger] self.blocks@[j] == if j <= k {
                        b0[j]
                    } else if j <= n {
                        b0[j - 1]
                    } else {
                        b0[j]
                    },
            decreases k,
        {
            self.blocks[k] = self.blocks[k - 1];
            k = k - 1;
        }
        self.blocks[pos] = Some(new_node);
        proof {
            let node = placed_node(*data, tombstone_marker, max_level as nat, pos as int, old(self).heads@);
            assert(new_node == node);
            assert(self.blocks@ =~= with_inserted(b0, pos as int, node)) by {
                assert forall|j: int| 0 <= j < CAPACITY implies #[trigger] self.blocks@[j] == with_inserted(b0, pos as int, node)[j] by {
                    if j > n {
                        assert(b0[j] is None && b0[j - 1] is None);
                    }
                }
            }
            lemma_layer_byte_marks_levels_and_steps(0u8, max_level as nat, pos as int, old(self).heads@);
            let mb = marked_layers(0u8, max_level as nat, pos as int, old(self).heads@);
            assert(self.blocks@[pos as int]->Some_0.layer_next@[0] == mb);
            assert forall|b: u8| b < 4 implies (#[trigger] bit_set(mb >> 4u8, b) <==> b < max_level) by {
                assert(bit_set(mb >> 4u8, b) <==> (bit_set(0u8 >> 4u8, b) || b < max_level));
                assert(((0u8 >> 4u8) >> b) & 1u8 == 0u8) by (bit_vector);
            }
            assert forall|b: u8| b < 4 implies (#[trigger] bit_set(mb, b) <==> exists|i: int|
                0 <= i < max_level && #[trigger] level_step_bit(old(self).heads@, i, pos as int) == b) by {
                assert((0u8 >> b) & 1u8 == 0u8) by (bit_vector);
                assert(bit_set(mb, b) <==> (bit_set(0u8, b) || exists|i: int|
                    0 <= i < max_level && #[trigger] level_step_bit(old(self).heads@, i, pos as int) == b));
            }
            lemma_inserted_sorted(b0, n as int, pos as int, node);
            lemma_count_prefix(self.blocks@, n + 1);
        }
        true
    }
}

impl SkipListOps for SkipList {
    open spec fn occupied(&self) -> nat {
        count_occupied(self.blocks@)
    }

    open spec fn well_formed(&self) -> bool {
        sorted_prefix(self.blocks@, count_occupied(self.blocks@) as int)
    }

    /// Draws a level for the block and inserts it in order; the list grows by one.
    fn add(&mut self, data: &[u8; 16], tombstone_marker: bool) -> (inserted: bool)
        ensures
            inserted,
            final(self).heads == old(self).heads,
            exists|level: nat|
                1 <= level <= MAX_LEVEL && final(self).blocks@ == with_inserted(
                    old(self).blocks@,
                    scan_stop(old(self).blocks@, 0, data@),
                    #[trigger] placed_node(
                        *data,
                        tombstone_marker,
                        level,
                        scan_stop(old(self).blocks@, 0, data@),
                        old(self).heads@,
                    ),
                ) && forall|b: u8|
                    b < 4 ==> (#[trigger] bit_set(
                        final(self).blocks@[scan_stop(old(self).blocks@, 0, data@)]->Some_0.layer_next@[0] >> 4u8,
                        b,
                    ) <==> b < level),
            final(self).well_formed(),
            final(self).occupied() == old(self).occupied() + 1,
    {
        let n = self.size();
        if n == CAPACITY {
            // a full list is never passed here
            return false;
        }
        let max_level = random_level(data, DataSource::RingBuffer);
        self.add_at_level(data, tombstone_marker, max_level)
    }

    fn size(&self) -> (n: usize) {
        let mut n: usize = 0;
        let mut k: usize = 0;
        while k < CAPACITY
            invariant
                k <= CAPACITY,
                n <= k,
                n == count_occupied(self.blocks@.take(k as int)),
            decreases CAPACITY - k,
        {
            proof {
                assert(self.blocks@.take(k + 1).drop_last() =~= self.blocks@.take(k as int));
            }
            if self.blocks[k].is_some() {
                n = n + 1;
            }
            k = k + 1;
        }
        proof {
            assert(self.blocks@.take(CAPACITY as int) =~= self.blocks@);
        }
        n
    }
}

} // verus!
