//! Byte shuffles. A mask names, for each byte of the result, a byte of the first
//! operand below 16 or a byte of the second from 16 on.

use vstd::prelude::*;
use super::lanes::{is_lane_width, lane_count};
use crate::decode::PermuteOperation;

verus! {

/// A lane of one of the two operands.
pub ghost struct LaneOf {
    pub second: bool,
    pub lane: int,
}

/// The byte of the two operands that holds byte `byte` of a lane.
pub open spec fn byte_of_lane(from: LaneOf, bytes: int, byte: int) -> int {
    (if from.second {
        16int
    } else {
        0int
    }) + from.lane * bytes + byte
}

/// The first `lanes` lanes of the result are these lanes of the operands. What is
/// above is byte zero of the first operand.
pub open spec fn moves_lanes(
    mask: Seq<u8>,
    lanes: int,
    bytes: int,
    from: spec_fn(int) -> LaneOf,
) -> bool {
    &&& mask.len() == 16
    &&& forall|lane: int, byte: int|
        0 <= lane < lanes && 0 <= byte < bytes ==> #[trigger] comes_from(
            mask,
            lane,
            bytes,
            byte,
            from(lane),
        )
    &&& forall|k: int| lanes * bytes <= k < 16 ==> #[trigger] mask[k] == 0
}

/// Byte `byte` of a lane comes from that byte of another lane.
pub open spec fn comes_from(mask: Seq<u8>, lane: int, bytes: int, byte: int, from: LaneOf) -> bool {
    mask[lane * bytes + byte] == byte_of_lane(from, bytes, byte)
}

/// The first `lanes` lanes are in place.
spec fn moved(mask: Seq<u8>, lanes: int, bytes: int, from: spec_fn(int) -> LaneOf) -> bool {
    forall|lane: int, byte: int|
        0 <= lane < lanes && 0 <= byte < bytes ==> #[trigger] comes_from(
            mask,
            lane,
            bytes,
            byte,
            from(lane),
        )
}

/// Lanes as the executable code names them.
#[derive(Clone, Copy, Debug, PartialEq, Eq, Structural)]
pub struct SourceLane {
    pub second: bool,
    pub lane: u8,
}

proof fn lemma_moved_step(
    before: Seq<u8>,
    mask: Seq<u8>,
    lanes: int,
    bytes: int,
    from: spec_fn(int) -> LaneOf,
)
    requires
        0 <= lanes,
        0 < bytes,
        moved(before, lanes, bytes, from),
        before.len() == lanes * bytes,
        mask.len() == before.len() + bytes,
        mask.take(before.len() as int) == before,
        forall|b: int|
            0 <= b < bytes ==> #[trigger] mask[lanes * bytes + b] == byte_of_lane(
                from(lanes),
                bytes,
                b,
            ),
    ensures
        moved(mask, lanes + 1, bytes, from),
{
    assert forall|lane: int, byte: int| 0 <= lane < lanes + 1 && 0 <= byte < bytes implies
        #[trigger] comes_from(mask, lane, bytes, byte, from(lane)) by {
        if lane < lanes {
            assert(comes_from(before, lane, bytes, byte, from(lane)));
            let at = lane * bytes + byte;
            assert(0 <= at < lanes * bytes) by (nonlinear_arith)
                requires
                    0 <= lane < lanes,
                    0 <= byte < bytes,
                    at == lane * bytes + byte,
            ;
            assert(before[at] == mask.take(before.len() as int)[at]);
        } else {
            assert(mask[lanes * bytes + byte] == byte_of_lane(from(lanes), bytes, byte));
        }
    }
}

proof fn lemma_moved_kept(
    before: Seq<u8>,
    mask: Seq<u8>,
    lanes: int,
    bytes: int,
    from: spec_fn(int) -> LaneOf,
)
    requires
        moved(before, lanes, bytes, from),
        before.len() == lanes * bytes,
        mask.len() >= before.len(),
        mask.take(before.len() as int) == before,
    ensures
        moved(mask, lanes, bytes, from),
{
    assert forall|lane: int, byte: int| 0 <= lane < lanes && 0 <= byte < bytes implies
        #[trigger] comes_from(mask, lane, bytes, byte, from(lane)) by {
        assert(comes_from(before, lane, bytes, byte, from(lane)));
        let at = lane * bytes + byte;
        assert(0 <= at < lanes * bytes) by (nonlinear_arith)
            requires
                0 <= lane < lanes,
                0 <= byte < bytes,
                at == lane * bytes + byte,
        ;
        assert(before[at] == mask.take(before.len() as int)[at]);
    }
}

/// The mask that moves these lanes.
fn lane_mask(sources: &Vec<SourceLane>, bytes: u8) -> (r: Vec<u8>)
    requires
        1 <= bytes <= 8,
        sources@.len() * bytes <= 16,
        forall|k: int|
            0 <= k < sources@.len() ==> ((#[trigger] sources@[k]).lane + 1) * bytes <= 16,
    ensures
        moves_lanes(
            r@,
            sources@.len() as int,
            bytes as int,
            |lane: int| LaneOf { second: sources@[lane].second, lane: sources@[lane].lane as int },
        ),
        forall|k: int| 0 <= k < 16 ==> #[trigger] r@[k] < 32,
{
    let ghost from = |lane: int|
        LaneOf { second: sources@[lane].second, lane: sources@[lane].lane as int };
    let mut mask: Vec<u8> = Vec::new();
    let mut lane: usize = 0;
    while lane < sources.len()
        invariant
            lane <= sources@.len(),
            1 <= bytes <= 8,
            sources@.len() * bytes <= 16,
            from == (|lane: int|
                LaneOf { second: sources@[lane].second, lane: sources@[lane].lane as int }),
            forall|k: int|
                0 <= k < sources@.len() ==> ((#[trigger] sources@[k]).lane + 1) * bytes <= 16,
            mask@.len() == lane * bytes,
            moved(mask@, lane as int, bytes as int, from),
            forall|k: int| 0 <= k < mask@.len() ==> #[trigger] mask@[k] < 32,
        decreases sources@.len() - lane,
    {
        let source = sources[lane];
        let ghost before = mask@;
        let mut byte: u8 = 0;
        proof {
            assert((source.lane + 1) * bytes <= 16);
            assert(source.lane * bytes + bytes <= 16) by (nonlinear_arith)
                requires
                    (source.lane + 1) * bytes <= 16,
            ;
            assert((lane + 1) * bytes <= sources@.len() * bytes) by (nonlinear_arith)
                requires
                    lane + 1 <= sources@.len(),
            ;
            assert((lane + 1) * bytes == lane * bytes + bytes) by (nonlinear_arith);
            assert(source.lane * bytes >= 0) by (nonlinear_arith);
        }
        while byte < bytes
            invariant
                byte <= bytes <= 8,
                lane < sources@.len(),
                source == sources@[lane as int],
                source.lane * bytes + bytes <= 16,
                source.lane * bytes >= 0,
                before.len() == lane * bytes,
                mask@.len() == lane * bytes + byte,
                lane * bytes + bytes <= 16,
                mask@.take(before.len() as int) == before,
                forall|b: int|
                    0 <= b < byte ==> #[trigger] mask@[lane * bytes + b] == byte_of_lane(
                        LaneOf { second: source.second, lane: source.lane as int },
                        bytes as int,
                        b,
                    ),
                forall|k: int| 0 <= k < mask@.len() ==> #[trigger] mask@[k] < 32,
            decreases bytes - byte,
        {
            let base: u8 = if source.second {
                16
            } else {
                0
            };
            mask.push(base + source.lane * bytes + byte);
            proof {
                assert(mask@.take(before.len() as int) =~= before);
            }
            byte = byte + 1;
        }
        proof {
            lemma_moved_step(before, mask@, lane as int, bytes as int, from);
        }
        lane = lane + 1;
    }
    let ghost full = mask@;
    while mask.len() < 16
        invariant
            full.len() <= mask@.len() <= 16,
            mask@.take(full.len() as int) == full,
            forall|k: int| full.len() <= k < mask@.len() ==> #[trigger] mask@[k] == 0,
            forall|k: int| 0 <= k < mask@.len() ==> #[trigger] mask@[k] < 32,
        decreases 16 - mask@.len(),
    {
        mask.push(0);
        proof {
            assert(mask@.take(full.len() as int) =~= full);
        }
    }
    proof {
        lemma_moved_kept(full, mask@, sources@.len() as int, bytes as int, from);
    }
    mask
}

/// Lane `destination` of the result of a permutation.
pub open spec fn permuted(operation: PermuteOperation, lanes: int, destination: int) -> LaneOf {
    let half = lanes / 2;
    match operation {
        PermuteOperation::UnzipPrimary => unzipped(half, destination, 0),
        PermuteOperation::UnzipSecondary => unzipped(half, destination, 1),
        PermuteOperation::TransposePrimary => LaneOf {
            second: destination % 2 == 1,
            lane: destination - destination % 2,
        },
        PermuteOperation::TransposeSecondary => LaneOf {
            second: destination % 2 == 1,
            lane: destination - destination % 2 + 1,
        },
        PermuteOperation::ZipPrimary => LaneOf {
            second: destination % 2 == 1,
            lane: destination / 2,
        },
        PermuteOperation::ZipSecondary => LaneOf {
            second: destination % 2 == 1,
            lane: half + destination / 2,
        },
    }
}

/// The even lanes of both operands one after the other, or the odd ones.
pub open spec fn unzipped(half: int, destination: int, odd: int) -> LaneOf {
    if destination < half {
        LaneOf { second: false, lane: 2 * destination + odd }
    } else {
        LaneOf { second: true, lane: 2 * (destination - half) + odd }
    }
}

fn permuted_lane(operation: PermuteOperation, lanes: u8, destination: u8) -> (r: SourceLane)
    requires
        destination < lanes <= 16,
        lanes % 2 == 0 || lanes == 1,
    ensures
        (LaneOf { second: r.second, lane: r.lane as int }) == permuted(
            operation,
            lanes as int,
            destination as int,
        ),
        lanes % 2 == 0 ==> r.lane < lanes,
        lanes == 1 ==> r.lane <= 1,
{
    let half: u8 = lanes / 2;
    match operation {
        PermuteOperation::UnzipPrimary => if destination < half {
            SourceLane { second: false, lane: 2 * destination }
        } else {
            SourceLane { second: true, lane: 2 * (destination - half) }
        },
        PermuteOperation::UnzipSecondary => if destination < half {
            SourceLane { second: false, lane: 2 * destination + 1 }
        } else {
            SourceLane { second: true, lane: 2 * (destination - half) + 1 }
        },
        PermuteOperation::TransposePrimary => SourceLane {
            second: destination % 2 == 1,
            lane: destination - destination % 2,
        },
        PermuteOperation::TransposeSecondary => SourceLane {
            second: destination % 2 == 1,
            lane: destination - destination % 2 + 1,
        },
        PermuteOperation::ZipPrimary => SourceLane {
            second: destination % 2 == 1,
            lane: destination / 2,
        },
        PermuteOperation::ZipSecondary => SourceLane {
            second: destination % 2 == 1,
            lane: half + destination / 2,
        },
    }
}

/// The mask of a permutation of two vectors.
pub fn permute_mask(operation: PermuteOperation, bits: u32, vector_128: bool) -> (r: Vec<u8>)
    requires
        is_lane_width(bits),
    ensures
        ({
            let lanes = (if vector_128 {
                128int
            } else {
                64int
            }) / bits as int;
            moves_lanes(
                r@,
                lanes,
                bits as int / 8,
                |lane: int| permuted(operation, lanes, lane),
            )
        }),
        forall|k: int| 0 <= k < 16 ==> #[trigger] r@[k] < 32,
{
    let lanes: u8 = lane_count(bits, vector_128) as u8;
    let bytes: u8 = (bits / 8) as u8;
    let mut sources: Vec<SourceLane> = Vec::new();
    let mut lane: u8 = 0;
    proof {
        lemma_lane_counts(bits, vector_128, lanes);
    }
    while lane < lanes
        invariant
            lane <= lanes <= 16,
            lanes % 2 == 0 || lanes == 1,
            bytes == bits / 8,
            is_lane_width(bits),
            lanes == 1 ==> bytes == 8,
            lanes * bytes <= 16,
            sources@.len() == lane,
            forall|k: int|
                0 <= k < lane ==> ((#[trigger] sources@[k]).lane + 1) * bytes <= 16 && (LaneOf {
                    second: sources@[k].second,
                    lane: sources@[k].lane as int,
                }) == permuted(operation, lanes as int, k),
        decreases lanes - lane,
    {
        let source = permuted_lane(operation, lanes, lane);
        proof {
            if lanes % 2 == 0 {
                assert((source.lane + 1) * bytes <= lanes * bytes) by (nonlinear_arith)
                    requires
                        source.lane + 1 <= lanes,
                ;
            } else {
                assert((source.lane + 1) * bytes <= 16) by (nonlinear_arith)
                    requires
                        source.lane <= 1,
                        bytes == 8,
                ;
            }
        }
        sources.push(source);
        lane = lane + 1;
    }
    let mask = lane_mask(&sources, bytes);
    proof {
        lemma_same_moves(
            mask@,
            lanes as int,
            bytes as int,
            |lane: int| LaneOf { second: sources@[lane].second, lane: sources@[lane].lane as int },
            |lane: int| permuted(operation, lanes as int, lane),
        );
        assert(moves_lanes(
            mask@,
            lanes as int,
            bytes as int,
            |lane: int| permuted(operation, lanes as int, lane),
        ));
    }
    mask
}

proof fn lemma_lane_counts(bits: u32, vector_128: bool, lanes: u8)
    requires
        is_lane_width(bits),
        lanes * bits == (if vector_128 {
            128int
        } else {
            64int
        }),
    ensures
        lanes == (if vector_128 {
            128int
        } else {
            64int
        }) / bits as int,
        lanes % 2 == 0 || lanes == 1,
        lanes <= 16,
        lanes * (bits / 8) <= 16,
        lanes == 1 ==> bits == 64,
{
    let bytes = bits / 8;
    if bits == 8 {
        assert(lanes * 8 == lanes * bits && lanes * 1 == lanes * bytes);
    } else if bits == 16 {
        assert(lanes * 16 == lanes * bits && lanes * 2 == lanes * bytes);
    } else if bits == 32 {
        assert(lanes * 32 == lanes * bits && lanes * 4 == lanes * bytes);
    } else {
        assert(lanes * 64 == lanes * bits && lanes * 8 == lanes * bytes);
    }
}

/// Sources that agree on the lanes that are moved give the same moves.
proof fn lemma_same_moves(
    mask: Seq<u8>,
    lanes: int,
    bytes: int,
    a: spec_fn(int) -> LaneOf,
    b: spec_fn(int) -> LaneOf,
)
    requires
        moves_lanes(mask, lanes, bytes, a),
        forall|lane: int| 0 <= lane < lanes ==> #[trigger] a(lane) == b(lane),
    ensures
        moves_lanes(mask, lanes, bytes, b),
{
    assert forall|lane: int, byte: int| 0 <= lane < lanes && 0 <= byte < bytes implies
        #[trigger] comes_from(mask, lane, bytes, byte, b(lane)) by {
        assert(a(lane) == b(lane));
        assert(comes_from(mask, lane, bytes, byte, a(lane)));
    }
}

/// The masks that bring the two lanes of each pair together: the even lanes of both
/// operands, and the odd ones.
pub fn pairwise_masks(bits: u32, vector_128: bool) -> (r: (Vec<u8>, Vec<u8>))
    requires
        is_lane_width(bits),
    ensures
        ({
            let lanes = (if vector_128 {
                128int
            } else {
                64int
            }) / bits as int;
            &&& moves_lanes(
                r.0@,
                lanes,
                bits as int / 8,
                |lane: int| unzipped(lanes / 2, lane, 0),
            )
            &&& moves_lanes(
                r.1@,
                lanes,
                bits as int / 8,
                |lane: int| unzipped(lanes / 2, lane, 1),
            )
        }),
{
    let left = permute_mask(PermuteOperation::UnzipPrimary, bits, vector_128);
    let right = permute_mask(PermuteOperation::UnzipSecondary, bits, vector_128);
    proof {
        let lanes = (if vector_128 {
            128int
        } else {
            64int
        }) / bits as int;
        lemma_same_moves(
            left@,
            lanes,
            bits as int / 8,
            |lane: int| permuted(PermuteOperation::UnzipPrimary, lanes, lane),
            |lane: int| unzipped(lanes / 2, lane, 0),
        );
        lemma_same_moves(
            right@,
            lanes,
            bits as int / 8,
            |lane: int| permuted(PermuteOperation::UnzipSecondary, lanes, lane),
            |lane: int| unzipped(lanes / 2, lane, 1),
        );
    }
    (left, right)
}

/// Byte `destination` of a window of `count` bytes over two vectors, from `first` on.
pub open spec fn window(count: int, first: int, destination: int) -> LaneOf {
    if destination + first < count {
        LaneOf { second: false, lane: destination + first }
    } else {
        LaneOf { second: true, lane: destination + first - count }
    }
}

/// The mask of a window over two vectors.
pub fn extract_mask(first: u8, vector_128: bool) -> (r: Vec<u8>)
    requires
        first < 16,
    ensures
        ({
            let count = if vector_128 {
                16int
            } else {
                8int
            };
            moves_lanes(r@, count, 1, |byte: int| window(count, first as int, byte))
        }),
{
    let count: u8 = if vector_128 {
        16
    } else {
        8
    };
    let mut sources: Vec<SourceLane> = Vec::new();
    let mut k: u8 = 0;
    while k < count
        invariant
            k <= count,
            count == 8 || count == 16,
            first < 16,
            sources@.len() == k,
            forall|j: int|
                0 <= j < k ==> (#[trigger] sources@[j]).lane < 16 && (LaneOf {
                    second: sources@[j].second,
                    lane: sources@[j].lane as int,
                }) == window(count as int, first as int, j),
        decreases count - k,
    {
        let source: u8 = k + first;
        if source < count {
            sources.push(SourceLane { second: false, lane: source });
        } else {
            sources.push(SourceLane { second: true, lane: source - count });
        }
        k = k + 1;
    }
    let mask = lane_mask(&sources, 1);
    proof {
        lemma_same_moves(
            mask@,
            count as int,
            1,
            |lane: int| LaneOf { second: sources@[lane].second, lane: sources@[lane].lane as int },
            |byte: int| window(count as int, first as int, byte),
        );
    }
    mask
}

/// The mask that packs the low half of each lane twice as wide as `bits`.
pub fn narrow_mask(bits: u32) -> (r: Vec<u8>)
    requires
        bits == 8 || bits == 16 || bits == 32,
    ensures
        moves_lanes(
            r@,
            64int / bits as int,
            bits as int / 8,
            |lane: int| LaneOf { second: false, lane: 2 * lane },
        ),
{
    let lanes: u8 = (64 / bits) as u8;
    let bytes: u8 = (bits / 8) as u8;
    let mut sources: Vec<SourceLane> = Vec::new();
    let mut k: u8 = 0;
    proof {
        if bits == 8 {
            assert(lanes == 8 && bytes == 1);
        } else if bits == 16 {
            assert(lanes == 4 && bytes == 2);
        } else {
            assert(lanes == 2 && bytes == 4);
        }
    }
    while k < lanes
        invariant
            k <= lanes <= 8,
            lanes * bytes == 8,
            1 <= bytes <= 4,
            sources@.len() == k,
            forall|j: int|
                0 <= j < k ==> #[trigger] sources@[j] == (SourceLane {
                    second: false,
                    lane: (2 * j) as u8,
                }) && (sources@[j].lane + 1) * bytes <= 16,
        decreases lanes - k,
    {
        proof {
            assert((2 * k + 1) * bytes <= 16) by (nonlinear_arith)
                requires
                    k < lanes,
                    lanes * bytes == 8,
                    bytes >= 1,
            ;
        }
        sources.push(SourceLane { second: false, lane: 2 * k });
        k = k + 1;
    }
    let mask = lane_mask(&sources, bytes);
    proof {
        lemma_same_moves(
            mask@,
            lanes as int,
            bytes as int,
            |lane: int| LaneOf { second: sources@[lane].second, lane: sources@[lane].lane as int },
            |lane: int| LaneOf { second: false, lane: 2 * lane },
        );
    }
    mask
}

/// The mask that puts the low half of the second operand above that of the first.
pub fn upper_mask() -> (r: Vec<u8>)
    ensures
        moves_lanes(r@, 2, 8, |lane: int| LaneOf { second: lane == 1, lane: 0 }),
{
    let mut sources: Vec<SourceLane> = Vec::new();
    sources.push(SourceLane { second: false, lane: 0 });
    sources.push(SourceLane { second: true, lane: 0 });
    let mask = lane_mask(&sources, 8);
    proof {
        lemma_same_moves(
            mask@,
            2,
            8,
            |lane: int| LaneOf { second: sources@[lane].second, lane: sources@[lane].lane as int },
            |lane: int| LaneOf { second: lane == 1, lane: 0 },
        );
    }
    mask
}

/// The lane that is added to lane `destination` when the upper of `2 * distance`
/// lanes are folded onto the lower.
pub open spec fn folded(distance: int, destination: int) -> int {
    if destination < distance {
        destination + distance
    } else {
        destination
    }
}

/// The mask that brings the upper lanes over the lower.
pub fn fold_mask(bits: u32, vector_128: bool, distance: u8) -> (r: Vec<u8>)
    requires
        is_lane_width(bits),
        2 * distance * bits <= (if vector_128 {
            128int
        } else {
            64int
        }),
    ensures
        moves_lanes(
            r@,
            (if vector_128 {
                128int
            } else {
                64int
            }) / bits as int,
            bits as int / 8,
            |lane: int| LaneOf { second: false, lane: folded(distance as int, lane) },
        ),
{
    let lanes: u8 = lane_count(bits, vector_128) as u8;
    let bytes: u8 = (bits / 8) as u8;
    let mut sources: Vec<SourceLane> = Vec::new();
    let mut k: u8 = 0;
    proof {
        lemma_lane_counts(bits, vector_128, lanes);
        assert(2 * distance <= lanes) by (nonlinear_arith)
            requires
                2 * distance * bits <= lanes * bits,
                bits > 0,
        ;
    }
    while k < lanes
        invariant
            k <= lanes <= 16,
            2 * distance <= lanes,
            lanes * bytes <= 16,
            sources@.len() == k,
            forall|j: int|
                0 <= j < k ==> #[trigger] sources@[j] == (SourceLane {
                    second: false,
                    lane: folded(distance as int, j) as u8,
                }) && folded(distance as int, j) < lanes && (sources@[j].lane + 1) * bytes <= 16,
        decreases lanes - k,
    {
        let lane: u8 = if k < distance {
            k + distance
        } else {
            k
        };
        proof {
            assert((lane + 1) * bytes <= lanes * bytes) by (nonlinear_arith)
                requires
                    lane + 1 <= lanes,
            ;
        }
        sources.push(SourceLane { second: false, lane });
        k = k + 1;
    }
    let mask = lane_mask(&sources, bytes);
    proof {
        lemma_same_moves(
            mask@,
            lanes as int,
            bytes as int,
            |lane: int| LaneOf { second: sources@[lane].second, lane: sources@[lane].lane as int },
            |lane: int| LaneOf { second: false, lane: folded(distance as int, lane) },
        );
    }
    mask
}

/// The masks that add all lanes up into the lowest, from the widest fold down.
pub fn across_masks(bits: u32, vector_128: bool) -> (r: Vec<Vec<u8>>)
    requires
        is_lane_width(bits),
    ensures
        ({
            let lanes = (if vector_128 {
                128int
            } else {
                64int
            }) / bits as int;
            &&& halvings(lanes) == r@.len()
            &&& forall|k: int|
                0 <= k < r@.len() ==> moves_lanes(
                    #[trigger] r@[k]@,
                    lanes,
                    bits as int / 8,
                    |lane: int| LaneOf { second: false, lane: folded(distance_of(lanes, k), lane) },
                )
        }),
{
    let lanes: u8 = lane_count(bits, vector_128) as u8;
    proof {
        lemma_lane_counts(bits, vector_128, lanes);
    }
    let mut masks: Vec<Vec<u8>> = Vec::new();
    let mut distance: u8 = lanes / 2;
    while distance != 0
        invariant
            is_lane_width(bits),
            lanes <= 16,
            lanes * bits == (if vector_128 {
                128int
            } else {
                64int
            }),
            lanes == (if vector_128 {
                128int
            } else {
                64int
            }) / bits as int,
            distance == distance_of(lanes as int, masks@.len() as int),
            halvings(lanes as int) == masks@.len() + halvings(2 * distance),
            2 * distance <= lanes,
            forall|k: int|
                0 <= k < masks@.len() ==> moves_lanes(
                    #[trigger] masks@[k]@,
                    lanes as int,
                    bits as int / 8,
                    |lane: int|
                        LaneOf { second: false, lane: folded(distance_of(lanes as int, k), lane) },
                ),
        decreases distance,
    {
        proof {
            assert(2 * distance * bits <= lanes * bits) by (nonlinear_arith)
                requires
                    2 * distance <= lanes,
            ;
        }
        let mask = fold_mask(bits, vector_128, distance);
        masks.push(mask);
        proof {
            reveal_with_fuel(halvings, 2);
        }
        distance = distance / 2;
    }
    masks
}

/// How often a number can be halved before it is one or less.
pub open spec fn halvings(lanes: int) -> int
    decreases lanes,
{
    if lanes <= 1 {
        0
    } else {
        1 + halvings(lanes / 2)
    }
}

/// The distance of fold `k`.
pub open spec fn distance_of(lanes: int, k: int) -> int
    decreases k,
{
    if k <= 0 {
        lanes / 2
    } else {
        distance_of(lanes, k - 1) / 2
    }
}

pub open spec fn total(lanes: Seq<int>) -> int
    decreases lanes.len(),
{
    if lanes.len() == 0 {
        0
    } else {
        total(lanes.drop_last()) + lanes.last()
    }
}

/// Each lane with the lane that is folded onto it.
pub open spec fn fold(lanes: Seq<int>, distance: int) -> Seq<int> {
    Seq::new(lanes.len(), |lane: int| lanes[lane] + lanes[folded(distance, lane)])
}

proof fn lemma_total_split(a: Seq<int>, b: Seq<int>)
    ensures
        total(a + b) == total(a) + total(b),
    decreases b.len(),
{
    if b.len() == 0 {
        assert(a + b =~= a);
    } else {
        assert((a + b).drop_last() =~= a + b.drop_last());
        lemma_total_split(a, b.drop_last());
    }
}

proof fn lemma_total_sum(a: Seq<int>, b: Seq<int>, sum: Seq<int>)
    requires
        a.len() == b.len() == sum.len(),
        forall|k: int| 0 <= k < a.len() ==> #[trigger] sum[k] == a[k] + b[k],
    ensures
        total(sum) == total(a) + total(b),
    decreases a.len(),
{
    if a.len() > 0 {
        lemma_total_sum(a.drop_last(), b.drop_last(), sum.drop_last());
    }
}

/// A fold keeps the sum: the lower half of the lanes then adds up to what all of
/// them did.
pub proof fn law_fold_keeps_the_sum(lanes: Seq<int>, distance: int)
    requires
        0 <= distance,
        2 * distance <= lanes.len(),
    ensures
        total(fold(lanes, distance).take(distance)) == total(lanes.take(2 * distance)),
{
    let low = lanes.take(distance);
    let high = lanes.subrange(distance, 2 * distance);
    assert(lanes.take(2 * distance) =~= low + high);
    lemma_total_split(low, high);
    lemma_total_sum(low, high, fold(lanes, distance).take(distance));
}

} // verus!
