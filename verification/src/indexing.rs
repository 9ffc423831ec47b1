use vstd::prelude::*;
use vstd::arithmetic::power2::{lemma2_to64, lemma_pow2_strictly_increases, pow2};
use vstd::bits::lemma_u32_shl_is_mul;
use crate::octree::Octree;

verus! {

/// The deepest tree that a 64-bit path can address: 21 levels of three
/// bits each.
pub const MAX_DEPTH: usize = 20;

/// `position` lies in the cube of a tree of depth `depth`: each axis value
/// is in `[-2^depth, 2^depth)`.
pub open spec fn in_bounds(position: (i32, i32, i32), depth: nat) -> bool {
    &&& -pow2(depth) <= position.0 < pow2(depth)
    &&& -pow2(depth) <= position.1 < pow2(depth)
    &&& -pow2(depth) <= position.2 < pow2(depth)
}

/// An axis value moved into the unsigned range `[0, 2^(depth+1))`.
pub open spec fn axis_offset(value: i32, depth: nat) -> int {
    value + pow2(depth)
}

/// Bit `k` of `n`.
pub open spec fn bit_at(n: u64, k: nat) -> int {
    ((n >> (k as u64)) & 1) as int
}

/// The child slot that `position` selects at `level`, in a tree of depth
/// `depth`: bit `level` of the three offset axis values, x on top.  Level
/// `depth` is the root's choice, level 0 the deepest.
pub open spec fn selector(position: (i32, i32, i32), depth: nat, level: nat) -> int {
    4 * bit_at(axis_offset(position.0, depth) as u64, level) + 2 * bit_at(
        axis_offset(position.1, depth) as u64,
        level,
    ) + bit_at(axis_offset(position.2, depth) as u64, level)
}

/// The path from the root to the voxel at `position`: `depth + 1` child
/// slots, the root's choice first.
pub open spec fn path_of(position: (i32, i32, i32), depth: nat) -> Seq<int> {
    Seq::new(depth + 1, |k: int| selector(position, depth, (depth - k) as nat))
}

/// The three-bit group of `index` at `level`.
pub open spec fn group(index: u64, level: nat) -> int {
    ((index >> ((3 * level) as u64)) & 7) as int
}

/// The path that a 64-bit index stands for in a tree of depth `depth`: its
/// `depth + 1` lowest groups, the most significant first.
pub open spec fn groups(index: u64, depth: nat) -> Seq<int> {
    Seq::new(depth + 1, |k: int| group(index, (depth - k) as nat))
}

/// One step of spreading: `n` beside a shifted copy of itself, cut by
/// `mask`.
spec fn stage(n: u64, shift: u64, mask: u64) -> u64 {
    (n | (n << shift)) & mask
}

/// `input` with two zero bits put in above each of its low 22 bits.
pub closed spec fn spread_bits(input: u32) -> u64 {
    stage(
        stage(
            stage(
                stage(stage(input as u64, 32, 0xFFFF_0000_0000_FFFF), 16, 0x00FF_0000_FF00_00FF),
                8,
                0xF00F_00F0_0F00_F00F,
            ),
            4,
            0x30C3_0C30_C30C_30C3,
        ),
        2,
        0x9249_2492_4924_9249,
    )
}

/// The three spread values merged into one index: x one bit above y, y one
/// bit above z.
pub open spec fn interleaved(x: u32, y: u32, z: u32) -> u64 {
    (spread_bits(x) << 2) | (spread_bits(y) << 1) | spread_bits(z)
}

/// Bit `b` of the input is bit `3 * b` of its spread form.
proof fn lemma_spread_bit(input: u32, b: u64)
    by (bit_vector)
    requires
        b < 22,
    ensures
        (spread_bits(input) >> ((3 * b) as u64)) & 1 == ((input as u64) >> b) & 1,
        spread_bits(input) & !0x9249_2492_4924_9249u64 == 0,
{
}

/// Group `level` of the merged index holds bit `level` of each axis value.
proof fn lemma_interleaved_group(x: u32, y: u32, z: u32, level: u64)
    by (bit_vector)
    requires
        level < 21,
    ensures
        (interleaved(x, y, z) >> ((3 * level) as u64)) & 7 == 4 * (((x as u64) >> level) & 1) + 2
            * (((y as u64) >> level) & 1) + (((z as u64) >> level) & 1),
        (interleaved(x, y, z) >> 63) & 1 == ((z as u64) >> 21) & 1,
{
}

/// The spread form of `input` holds bit `b` of `input` at bit `3 * b`, for
/// the low 22 bits, and zero everywhere else.
pub proof fn lemma_spread_bits(input: u32)
    ensures
        forall|b: nat| b < 22 ==> #[trigger] bit_at(spread_bits(input), 3 * b) == bit_at(input as u64, b),
        spread_bits(input) & !0x9249_2492_4924_9249u64 == 0,
{
    assert forall|b: nat| b < 22 implies #[trigger] bit_at(spread_bits(input), 3 * b) == bit_at(
        input as u64,
        b,
    ) by {
        lemma_spread_bit(input, b as u64);
    }
    lemma_spread_bit(input, 0);
}

/// Group `level` of the merged index holds bit `level` of x, y and z, for
/// each of the 21 levels.  The one bit left over is bit 21 of z.
pub proof fn lemma_interleaved_groups(x: u32, y: u32, z: u32)
    ensures
        forall|level: nat|
            level <= 20 ==> #[trigger] group(interleaved(x, y, z), level) == 4 * bit_at(x as u64, level) + 2
                * bit_at(y as u64, level) + bit_at(z as u64, level),
        bit_at(interleaved(x, y, z), 63) == bit_at(z as u64, 21),
{
    assert forall|level: nat| level <= 20 implies #[trigger] group(interleaved(x, y, z), level) == 4
        * bit_at(x as u64, level) + 2 * bit_at(y as u64, level) + bit_at(z as u64, level) by {
        lemma_interleaved_group(x, y, z, level as u64);
    }
    lemma_interleaved_group(x, y, z, 0);
}

/// For the depths that a tree can have, shifting 1 left is the power of two.
pub proof fn lemma_shift_is_pow2(depth: nat)
    requires
        depth <= 21,
    ensures
        (1u32 << (depth as u32)) == pow2(depth),
        (1u64 << (depth as u64)) == pow2(depth),
        pow2(depth) <= 0x20_0000,
{
    lemma2_to64();
    if depth < 21 {
        lemma_pow2_strictly_increases(depth, 21);
    }
    lemma_u32_shl_is_mul(1, depth as u32);
    let d = depth as u32;
    assert((1u64 << (d as u64)) == (1u32 << d)) by (bit_vector)
        requires
            d <= 21,
    ;
}

/// The three distances, or-ed together, reach a power of two exactly when
/// one of them does.
proof fn lemma_any_axis_outside(a: u32, b: u32, c: u32, depth: u32)
    by (bit_vector)
    requires
        depth <= 31,
    ensures
        (a | b | c) >= (1u32 << depth) <==> (a >= (1u32 << depth) || b >= (1u32 << depth) || c >= (
        1u32 << depth)),
{
}

/// A bit is 0 or 1.
proof fn lemma_bit_is_binary(n: u64, k: u64)
    by (bit_vector)
    ensures
        (n >> k) & 1 <= 1,
{
}

/// Adding `2^depth` to a number below `2^(depth + 1)` leaves its bits
/// below `depth` as they were.
proof fn lemma_grown_bits(n: u64, depth: u64, level: u64)
    by (bit_vector)
    requires
        depth <= 20,
        level < depth,
        n < (1u64 << ((depth + 1) as u64)),
    ensures
        (((n + (1u64 << depth)) as u64) >> level) & 1 == (n >> level) & 1,
{
}

/// Adding `2^depth` to a number below `2^(depth + 1)` moves bit `depth`
/// one place up and leaves its opposite behind.
proof fn lemma_grown_top_bits(n: u64, depth: u64)
    by (bit_vector)
    requires
        depth <= 20,
        n < (1u64 << ((depth + 1) as u64)),
    ensures
        (((n + (1u64 << depth)) as u64) >> ((depth + 1) as u64)) & 1 == (n >> depth) & 1,
        (((n + (1u64 << depth)) as u64) >> depth) & 1 == 1 - ((n >> depth) & 1),
{
}

/// Two numbers that agree below bit `k` and in bit `k` agree below bit
/// `k + 1`.
proof fn lemma_low_bits_step(a: u64, b: u64, k: u64)
    by (bit_vector)
    requires
        k < 63,
        a & (((1u64 << k) - 1) as u64) == b & (((1u64 << k) - 1) as u64),
        (a >> k) & 1 == (b >> k) & 1,
    ensures
        a & (((1u64 << ((k + 1) as u64)) - 1) as u64) == b & (((1u64 << ((k + 1) as u64)) - 1) as u64),
{
}

/// A number below `2^k` is its own low `k` bits.
proof fn lemma_low_bits_all(a: u64, k: u64)
    by (bit_vector)
    requires
        k < 63,
        a < (1u64 << k),
    ensures
        a & (((1u64 << k) - 1) as u64) == a,
{
}

/// Any two numbers agree in their low zero bits.
proof fn lemma_low_bits_none(a: u64, b: u64)
    by (bit_vector)
    ensures
        a & (((1u64 << 0) - 1) as u64) == b & (((1u64 << 0) - 1) as u64),
{
}

/// Axis values below `2^levels` give an index below `8^levels`.
proof fn lemma_index_above(x: u32, y: u32, z: u32, levels: u64)
    by (bit_vector)
    requires
        levels <= 21,
        (x as u64) < (1u64 << levels),
        (y as u64) < (1u64 << levels),
        (z as u64) < (1u64 << levels),
    ensures
        interleaved(x, y, z) >> ((3 * levels) as u64) == 0,
{
}

/// Two numbers with the same low `k` bits agree below `2^k`.
proof fn lemma_same_low_bits(a: u64, b: u64, k: nat)
    requires
        k <= 63,
        forall|j: nat| j < k ==> #[trigger] bit_at(a, j) == bit_at(b, j),
    ensures
        a & (((1u64 << (k as u64)) - 1) as u64) == b & (((1u64 << (k as u64)) - 1) as u64),
    decreases k,
{
    if k == 0 {
        lemma_low_bits_none(a, b);
    } else {
        let j = (k - 1) as nat;
        lemma_same_low_bits(a, b, j);
        assert(bit_at(a, j) == bit_at(b, j));
        lemma_low_bits_step(a, b, j as u64);
    }
}

/// The three bits of a selector are its digits: equal selectors have equal
/// bits.
proof fn lemma_selector_bits(position: (i32, i32, i32), other: (i32, i32, i32), depth: nat, level: nat)
    requires
        selector(position, depth, level) == selector(other, depth, level),
    ensures
        bit_at(axis_offset(position.0, depth) as u64, level) == bit_at(axis_offset(other.0, depth) as u64, level),
        bit_at(axis_offset(position.1, depth) as u64, level) == bit_at(axis_offset(other.1, depth) as u64, level),
        bit_at(axis_offset(position.2, depth) as u64, level) == bit_at(axis_offset(other.2, depth) as u64, level),
        0 <= selector(position, depth, level) < 8,
{
    lemma_bit_is_binary(axis_offset(position.0, depth) as u64, level as u64);
    lemma_bit_is_binary(axis_offset(position.1, depth) as u64, level as u64);
    lemma_bit_is_binary(axis_offset(position.2, depth) as u64, level as u64);
    lemma_bit_is_binary(axis_offset(other.0, depth) as u64, level as u64);
    lemma_bit_is_binary(axis_offset(other.1, depth) as u64, level as u64);
    lemma_bit_is_binary(axis_offset(other.2, depth) as u64, level as u64);
}

/// Every selector is a child slot.
pub proof fn lemma_selector_range(position: (i32, i32, i32), depth: nat, level: nat)
    ensures
        0 <= selector(position, depth, level) < 8,
{
    lemma_selector_bits(position, position, depth, level);
}

/// An axis value in bounds is determined by the bits of its offset form.
proof fn lemma_axis_determined(a: i32, b: i32, depth: nat)
    requires
        depth <= 20,
        -pow2(depth) <= a < pow2(depth),
        -pow2(depth) <= b < pow2(depth),
        forall|level: nat|
            level <= depth ==> #[trigger] bit_at(axis_offset(a, depth) as u64, level) == bit_at(
                axis_offset(b, depth) as u64,
                level,
            ),
    ensures
        a == b,
{
    lemma_shift_is_pow2(depth);
    lemma_shift_is_pow2(depth + 1);
    vstd::arithmetic::power2::lemma_pow2_unfold(depth + 1);
    let na = axis_offset(a, depth) as u64;
    let nb = axis_offset(b, depth) as u64;
    let k = (depth + 1) as u64;
    lemma_same_low_bits(na, nb, depth + 1);
    lemma_low_bits_all(na, k);
    lemma_low_bits_all(nb, k);
}

/// Two positions in bounds with the same path are the same position.
pub proof fn lemma_path_injective(position: (i32, i32, i32), other: (i32, i32, i32), depth: nat)
    requires
        depth <= MAX_DEPTH,
        in_bounds(position, depth),
        in_bounds(other, depth),
        path_of(position, depth) == path_of(other, depth),
    ensures
        position == other,
{
    assert forall|level: nat| level <= depth implies #[trigger] selector(position, depth, level)
        == selector(other, depth, level) by {
        let k = depth - level;
        assert(path_of(position, depth)[k] == selector(position, depth, (depth - k) as nat));
        assert(path_of(other, depth)[k] == selector(other, depth, (depth - k) as nat));
    }
    assert forall|level: nat| level <= depth implies #[trigger] bit_at(
        axis_offset(position.0, depth) as u64,
        level,
    ) == bit_at(axis_offset(other.0, depth) as u64, level) by {
        assert(selector(position, depth, level) == selector(other, depth, level));
        lemma_selector_bits(position, other, depth, level);
    }
    assert forall|level: nat| level <= depth implies #[trigger] bit_at(
        axis_offset(position.1, depth) as u64,
        level,
    ) == bit_at(axis_offset(other.1, depth) as u64, level) by {
        assert(selector(position, depth, level) == selector(other, depth, level));
        lemma_selector_bits(position, other, depth, level);
    }
    assert forall|level: nat| level <= depth implies #[trigger] bit_at(
        axis_offset(position.2, depth) as u64,
        level,
    ) == bit_at(axis_offset(other.2, depth) as u64, level) by {
        assert(selector(position, depth, level) == selector(other, depth, level));
        lemma_selector_bits(position, other, depth, level);
    }
    lemma_axis_determined(position.0, other.0, depth);
    lemma_axis_determined(position.1, other.1, depth);
    lemma_axis_determined(position.2, other.2, depth);
}

/// How the path of a position changes when the tree grows by one level:
/// the root's choice stays, the opposite slot follows it, and the rest of
/// the old path follows that.
pub proof fn lemma_path_after_growth(position: (i32, i32, i32), depth: nat)
    requires
        depth < MAX_DEPTH,
        in_bounds(position, depth),
    ensures
        in_bounds(position, depth + 1),
        path_of(position, depth + 1) == seq![
            path_of(position, depth)[0],
            7 - path_of(position, depth)[0],
        ] + path_of(position, depth).drop_first(),
        0 <= path_of(position, depth)[0] < 8,
{
    lemma_shift_is_pow2(depth);
    lemma_shift_is_pow2(depth + 1);
    vstd::arithmetic::power2::lemma_pow2_unfold(depth + 1);
    let d = depth as u64;
    let nx = axis_offset(position.0, depth) as u64;
    let ny = axis_offset(position.1, depth) as u64;
    let nz = axis_offset(position.2, depth) as u64;
    assert(axis_offset(position.0, depth + 1) as u64 == (nx + (1u64 << d)) as u64);
    assert(axis_offset(position.1, depth + 1) as u64 == (ny + (1u64 << d)) as u64);
    assert(axis_offset(position.2, depth + 1) as u64 == (nz + (1u64 << d)) as u64);
    lemma_grown_top_bits(nx, d);
    lemma_grown_top_bits(ny, d);
    lemma_grown_top_bits(nz, d);
    lemma_selector_range(position, depth, depth);
    let old_path = path_of(position, depth);
    let new_path = path_of(position, depth + 1);
    let claimed = seq![old_path[0], 7 - old_path[0]] + old_path.drop_first();
    assert(new_path.len() == claimed.len());
    assert forall|k: int| 0 <= k < new_path.len() implies new_path[k] == claimed[k] by {
        if k >= 2 {
            let level = (depth + 1 - k) as nat;
            lemma_grown_bits(nx, d, level as u64);
            lemma_grown_bits(ny, d, level as u64);
            lemma_grown_bits(nz, d, level as u64);
            assert(claimed[k] == old_path.drop_first()[k - 2]);
            assert(old_path.drop_first()[k - 2] == old_path[k - 1]);
        }
    }
    assert(new_path =~= claimed);
}

/// The path of a position as one integer: the three offset axis values,
/// merged bit by bit.
pub open spec fn path_index(position: (i32, i32, i32), depth: nat) -> u64 {
    interleaved(
        axis_offset(position.0, depth) as u32,
        axis_offset(position.1, depth) as u32,
        axis_offset(position.2, depth) as u32,
    )
}

/// The groups of the index of a position are the entries of its path, and
/// the index has no bit above them.
pub proof fn lemma_path_index(position: (i32, i32, i32), depth: nat)
    requires
        depth <= MAX_DEPTH,
        in_bounds(position, depth),
    ensures
        groups(path_index(position, depth), depth) == path_of(position, depth),
        forall|level: nat|
            level <= depth ==> #[trigger] group(path_index(position, depth), level) == selector(
                position,
                depth,
                level,
            ),
        path_index(position, depth) >> ((3 * (depth + 1)) as u64) == 0,
{
    let x = axis_offset(position.0, depth) as u32;
    let y = axis_offset(position.1, depth) as u32;
    let z = axis_offset(position.2, depth) as u32;
    let index = path_index(position, depth);
    lemma_shift_is_pow2(depth);
    lemma_shift_is_pow2(depth + 1);
    vstd::arithmetic::power2::lemma_pow2_unfold(depth + 1);
    lemma_interleaved_groups(x, y, z);
    assert forall|level: nat| level <= depth implies #[trigger] group(index, level) == selector(
        position,
        depth,
        level,
    ) by {
        assert(group(index, level) == 4 * bit_at(x as u64, level) + 2 * bit_at(y as u64, level)
            + bit_at(z as u64, level));
    }
    assert(groups(index, depth) =~= path_of(position, depth));
    lemma_index_above(x, y, z, (depth + 1) as u64);
}

/// Indexing is injective: two positions in bounds with the same index are
/// the same position.
pub proof fn lemma_index_injective(position: (i32, i32, i32), other: (i32, i32, i32), depth: nat)
    requires
        depth <= MAX_DEPTH,
        in_bounds(position, depth),
        in_bounds(other, depth),
        path_index(position, depth) == path_index(other, depth),
    ensures
        position == other,
{
    lemma_path_index(position, depth);
    lemma_path_index(other, depth);
    lemma_path_injective(position, other, depth);
}

/// The distance of an axis value from the middle of the cube: `n` itself
/// for `n >= 0`, and `-n - 1` below.
fn abs_svo(n: i32) -> (distance: u32)
    ensures
        distance == if n < 0 {
            -n - 1
        } else {
            n as int
        },
{
    if n < 0 {
        (-(n + 1)) as u32
    } else {
        n as u32
    }
}

impl Octree {
    /// Spreads the low 22 bits of `input` over 64 bits, two zero bits above
    /// each.
    pub fn interleave_two(input: u32) -> (spread: u64)
        ensures
            spread == spread_bits(input),
            forall|b: nat| b < 22 ==> #[trigger] bit_at(spread, 3 * b) == bit_at(input as u64, b),
            spread & !0x9249_2492_4924_9249u64 == 0,
    {
        let mut n: u64 = input as u64;
        n = (n | (n << 32)) & 0xFFFF_0000_0000_FFFF;
        n = (n | (n << 16)) & 0x00FF_0000_FF00_00FF;
        n = (n | (n << 8)) & 0xF00F_00F0_0F00_F00F;
        n = (n | (n << 4)) & 0x30C3_0C30_C30C_30C3;
        n = (n | (n << 2)) & 0x9249_2492_4924_9249;
        proof {
            lemma_spread_bits(input);
        }
        n
    }

    /// Merges three axis values into one index, bit by bit: x, y, z.
    pub fn interleave_three(p: (u32, u32, u32)) -> (index: u64)
        ensures
            index == interleaved(p.0, p.1, p.2),
            forall|level: nat|
                level <= 20 ==> #[trigger] group(index, level) == 4 * bit_at(p.0 as u64, level) + 2
                    * bit_at(p.1 as u64, level) + bit_at(p.2 as u64, level),
            bit_at(index, 63) == bit_at(p.2 as u64, 21),
    {
        let x: u64 = Self::interleave_two(p.0);
        let y: u64 = Self::interleave_two(p.1);
        let z: u64 = Self::interleave_two(p.2);
        proof {
            lemma_interleaved_groups(p.0, p.1, p.2);
        }
        (x << 2) | (y << 1) | z
    }

    /// Whether `position` lies outside the cube that the tree covers.
    pub fn is_pos_outside_bounds(&self, position: (i32, i32, i32)) -> (outside: bool)
        requires
            self@.depth <= MAX_DEPTH,
        ensures
            outside == !in_bounds(position, self@.depth),
    {
        let x: u32 = abs_svo(position.0);
        let y: u32 = abs_svo(position.1);
        let z: u32 = abs_svo(position.2);
        let dim: u32 = self.dim as u32;
        proof {
            lemma_shift_is_pow2(self.dim as nat);
            lemma_any_axis_outside(x, y, z, dim);
        }
        (x | y | z) >= (1u32 << dim)
    }

    /// The three axis values of `position`, each moved into the unsigned
    /// range by adding the half extent of the cube.
    pub fn normalise_pos(&self, world_pos: (i32, i32, i32)) -> (p: (u32, u32, u32))
        requires
            self@.depth <= MAX_DEPTH,
            in_bounds(world_pos, self@.depth),
        ensures
            p.0 == axis_offset(world_pos.0, self@.depth),
            p.1 == axis_offset(world_pos.1, self@.depth),
            p.2 == axis_offset(world_pos.2, self@.depth),
    {
        proof {
            lemma_shift_is_pow2(self.dim as nat);
        }
        let half: i64 = (1u32 << (self.dim as u32)) as i64;
        (
            (world_pos.0 as i64 + half) as u32,
            (world_pos.1 as i64 + half) as u32,
            (world_pos.2 as i64 + half) as u32,
        )
    }

    /// The path of `position` as one integer: three bits per level, the
    /// root's choice in the most significant group.
    pub fn world_pos_to_node_index(&self, world_pos: (i32, i32, i32)) -> (index: u64)
        requires
            self@.depth <= MAX_DEPTH,
            in_bounds(world_pos, self@.depth),
        ensures
            index == path_index(world_pos, self@.depth),
            groups(index, self@.depth) == path_of(world_pos, self@.depth),
            forall|level: nat|
                level <= self@.depth ==> #[trigger] group(index, level) == selector(
                    world_pos,
                    self@.depth,
                    level,
                ),
            index >> ((3 * (self@.depth + 1)) as u64) == 0,
    {
        let p = self.normalise_pos(world_pos);
        let index: u64 = Self::interleave_three(p);
        proof {
            lemma_path_index(world_pos, self@.depth);
        }
        index
    }
}

} // verus!
