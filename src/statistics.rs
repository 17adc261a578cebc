//! Per-frame statistics over the cells of a grid, and how they add up over
//! many frames.
use crate::block_sparse::{block_cells, kind_of, BlockKind};
use crate::compressed_rain_radar_values::{block_of, classify};
use crate::cross_product::{cross, Range};
use crate::rain_radar_values::{
    slot_of, RainRadarValues, GRID_HEIGHT, GRID_WIDTH, TIME_SLOTS,
};
use vstd::prelude::*;

verus! {

/// What the cells of one frame, or of many frames together, hold.
#[derive(Clone, Copy, Debug, PartialEq, Eq, Structural)]
pub struct RadarStatistics {
    /// Fewest present cells in a frame.
    pub min_available_data_points: u32,
    /// Most present cells in a frame.
    pub max_available_data_points: u32,
    /// Smallest present value; `u16::MAX` when there is none.
    pub min_rain_value: u16,
    /// Smallest present value other than zero; `u16::MAX` when there is none.
    pub min_rain_value_except_0: u16,
    /// Largest present value; zero when there is none.
    pub max_rain_value: u16,
    pub non_zero_values: u32,
    pub values_greater_255: u32,
    pub blocks_of_100: u32,
    pub blocks_of_100_with_no_values: u32,
    pub blocks_of_100_with_only_zero_values: u32,
    pub blocks_of_100_with_values_greater_254: u32,
}

/// The statistics of no cell and no block.
pub open spec fn no_results() -> RadarStatistics {
    RadarStatistics {
        min_available_data_points: 0,
        max_available_data_points: 0,
        min_rain_value: u16::MAX,
        min_rain_value_except_0: u16::MAX,
        max_rain_value: 0,
        non_zero_values: 0,
        values_greater_255: 0,
        blocks_of_100: 0,
        blocks_of_100_with_no_values: 0,
        blocks_of_100_with_only_zero_values: 0,
        blocks_of_100_with_values_greater_254: 0,
    }
}

pub open spec fn min16(a: u16, b: u16) -> u16 {
    if a <= b {
        a
    } else {
        b
    }
}

pub open spec fn max16(a: u16, b: u16) -> u16 {
    if a >= b {
        a
    } else {
        b
    }
}

/// One more cell of a frame counted.
pub open spec fn tally_cell(r: RadarStatistics, v: Option<u16>) -> RadarStatistics {
    match v {
        None => r,
        Some(w) => RadarStatistics {
            min_available_data_points: (r.min_available_data_points + 1) as u32,
            max_available_data_points: (r.max_available_data_points + 1) as u32,
            min_rain_value: min16(w, r.min_rain_value),
            min_rain_value_except_0: if w != 0 {
                min16(w, r.min_rain_value_except_0)
            } else {
                r.min_rain_value_except_0
            },
            max_rain_value: max16(w, r.max_rain_value),
            non_zero_values: if w != 0 {
                (r.non_zero_values + 1) as u32
            } else {
                r.non_zero_values
            },
            values_greater_255: if w > 255 {
                (r.values_greater_255 + 1) as u32
            } else {
                r.values_greater_255
            },
            ..r
        },
    }
}

/// One more block of a frame counted.
pub open spec fn tally_block(r: RadarStatistics, kind: BlockKind) -> RadarStatistics {
    let r = RadarStatistics { blocks_of_100: (r.blocks_of_100 + 1) as u32, ..r };
    match kind {
        BlockKind::Absent => RadarStatistics {
            blocks_of_100_with_no_values: (r.blocks_of_100_with_no_values + 1) as u32,
            ..r
        },
        BlockKind::Zero => RadarStatistics {
            blocks_of_100_with_only_zero_values: (r.blocks_of_100_with_only_zero_values + 1) as u32,
            ..r
        },
        BlockKind::Wide => RadarStatistics {
            blocks_of_100_with_values_greater_254: (r.blocks_of_100_with_values_greater_254
                + 1) as u32,
            ..r
        },
        BlockKind::Narrow => r,
    }
}

/// Cells counted one after the other.
pub open spec fn tally_cells(r: RadarStatistics, cells: Seq<Option<u16>>) -> RadarStatistics {
    cells.fold_left(r, |a: RadarStatistics, v: Option<u16>| tally_cell(a, v))
}

/// Blocks counted one after the other.
pub open spec fn tally_blocks(r: RadarStatistics, kinds: Seq<BlockKind>) -> RadarStatistics {
    kinds.fold_left(r, |a: RadarStatistics, k: BlockKind| tally_block(a, k))
}

/// The cells of slot `k` of a grid, row by row.
pub open spec fn frame_cells<T: RainRadarValues>(g: &T, k: int) -> Seq<Option<u16>> {
    cross((0..GRID_WIDTH).indices(), (0..GRID_HEIGHT).indices()).map_values(
        |p: (usize, usize)| g.cell(k, p.0 as int, p.1 as int),
    )
}

/// How the 132 blocks of slot `k` of a grid are stored, x-block by x-block.
pub open spec fn frame_kinds<T: RainRadarValues>(g: &T, k: int) -> Seq<BlockKind> {
    Seq::new(132, |j: int| kind_of(block_cells(g, 132 * k + j)))
}

/// The statistics of slot `k` of a grid: its cells, then its blocks.
pub open spec fn frame_results<T: RainRadarValues>(g: &T, k: int) -> RadarStatistics {
    tally_blocks(tally_cells(no_results(), frame_cells(g, k)), frame_kinds(g, k))
}

/// All counts stay at or below `n`.
pub open spec fn counts_below(r: RadarStatistics, n: int) -> bool {
    &&& r.min_available_data_points <= n
    &&& r.max_available_data_points <= n
    &&& r.non_zero_values <= n
    &&& r.values_greater_255 <= n
    &&& r.blocks_of_100 <= n
    &&& r.blocks_of_100_with_no_values <= n
    &&& r.blocks_of_100_with_only_zero_values <= n
    &&& r.blocks_of_100_with_values_greater_254 <= n
}

fn count_cell(r: RadarStatistics, v: Option<u16>, n: u32) -> (s: RadarStatistics)
    requires
        counts_below(r, n as int),
        n < u32::MAX,
    ensures
        s == tally_cell(r, v),
        counts_below(s, n + 1),
{
    match v {
        None => r,
        Some(w) => RadarStatistics {
            min_available_data_points: r.min_available_data_points + 1,
            max_available_data_points: r.max_available_data_points + 1,
            min_rain_value: if w <= r.min_rain_value {
                w
            } else {
                r.min_rain_value
            },
            min_rain_value_except_0: if w != 0 && w <= r.min_rain_value_except_0 {
                w
            } else {
                r.min_rain_value_except_0
            },
            max_rain_value: if w >= r.max_rain_value {
                w
            } else {
                r.max_rain_value
            },
            non_zero_values: if w != 0 {
                r.non_zero_values + 1
            } else {
                r.non_zero_values
            },
            values_greater_255: if w > 255 {
                r.values_greater_255 + 1
            } else {
                r.values_greater_255
            },
            ..r
        },
    }
}

fn count_block(r: RadarStatistics, kind: BlockKind, n: u32) -> (s: RadarStatistics)
    requires
        counts_below(r, n as int),
        n < u32::MAX,
    ensures
        s == tally_block(r, kind),
        counts_below(s, n + 1),
{
    let r = RadarStatistics { blocks_of_100: r.blocks_of_100 + 1, ..r };
    match kind {
        BlockKind::Absent => RadarStatistics {
            blocks_of_100_with_no_values: r.blocks_of_100_with_no_values + 1,
            ..r
        },
        BlockKind::Zero => RadarStatistics {
            blocks_of_100_with_only_zero_values: r.blocks_of_100_with_only_zero_values + 1,
            ..r
        },
        BlockKind::Wide => RadarStatistics {
            blocks_of_100_with_values_greater_254: r.blocks_of_100_with_values_greater_254 + 1,
            ..r
        },
        BlockKind::Narrow => r,
    }
}

/// The statistics of the frame at `time`.
pub fn frame_statistics<T: RainRadarValues>(grid: &T, time: i64) -> (r: RadarStatistics)
    requires
        grid.wf(),
        slot_of(grid.base_time(), time) is Some,
    ensures
        r == frame_results(grid, slot_of(grid.base_time(), time)->0),
{
    let ghost k = slot_of(grid.base_time(), time)->0;
    let cells = grid.for_area(time, 0..GRID_WIDTH, 0..GRID_HEIGHT);
    assert(cells@ == frame_cells(grid, k));
    let mut r = RadarStatistics {
        min_available_data_points: 0,
        max_available_data_points: 0,
        min_rain_value: u16::MAX,
        min_rain_value_except_0: u16::MAX,
        max_rain_value: 0,
        non_zero_values: 0,
        values_greater_255: 0,
        blocks_of_100: 0,
        blocks_of_100_with_no_values: 0,
        blocks_of_100_with_only_zero_values: 0,
        blocks_of_100_with_values_greater_254: 0,
    };
    assert(cells@.len() == 1320000) by {
        assert((0..GRID_WIDTH).indices().len() * (0..GRID_HEIGHT).indices().len() == 1320000);
    }
    let mut i: usize = 0;
    while i < cells.len()
        invariant
            i <= cells@.len() == 1320000,
            counts_below(r, i as int),
            r == tally_cells(no_results(), cells@.take(i as int)),
        decreases cells@.len() - i,
    {
        r = count_cell(r, cells[i], i as u32);
        assert(cells@.take(i + 1).drop_last() =~= cells@.take(i as int));
        i = i + 1;
    }
    assert(cells@.take(i as int) =~= cells@);
    let ghost after_cells = r;
    let first_time = grid.time_information().first_time;
    let slot = crate::rain_radar_values::time_slot(first_time, time).unwrap();
    let mut j: usize = 0;
    let ghost kinds = frame_kinds(grid, k);
    let mut counted: u32 = 0;
    while j < 132
        invariant
            grid.wf(),
            first_time == grid.base_time(),
            slot as int == k,
            0 <= k < TIME_SLOTS,
            j <= 132,
            kinds == frame_kinds(grid, k),
            counts_below(r, 1320000 + j),
            r == tally_blocks(after_cells, kinds.take(j as int)),
        decreases 132 - j,
    {
        let b = 132 * slot + j;
        let block = block_of(grid, first_time, b);
        let kind = classify(&block);
        assert(kind == kinds[j as int]);
        r = count_block(r, kind, (1320000 + j) as u32);
        assert(kinds.take(j + 1).drop_last() =~= kinds.take(j as int));
        j = j + 1;
    }
    assert(kinds.take(132) =~= kinds);
    r
}

/// Statistics of two sets of frames together: the extremes of both, and
/// the sums of the counts.
pub fn combine(a: RadarStatistics, b: RadarStatistics) -> (r: RadarStatistics)
    requires
        a.non_zero_values + b.non_zero_values <= u32::MAX,
        a.values_greater_255 + b.values_greater_255 <= u32::MAX,
        a.blocks_of_100 + b.blocks_of_100 <= u32::MAX,
        a.blocks_of_100_with_no_values + b.blocks_of_100_with_no_values <= u32::MAX,
        a.blocks_of_100_with_only_zero_values + b.blocks_of_100_with_only_zero_values <= u32::MAX,
        a.blocks_of_100_with_values_greater_254 + b.blocks_of_100_with_values_greater_254
            <= u32::MAX,
    ensures
        r.min_available_data_points == if a.min_available_data_points
            <= b.min_available_data_points {
            a.min_available_data_points
        } else {
            b.min_available_data_points
        },
        r.max_available_data_points == if a.max_available_data_points
            >= b.max_available_data_points {
            a.max_available_data_points
        } else {
            b.max_available_data_points
        },
        r.min_rain_value == min16(a.min_rain_value, b.min_rain_value),
        r.min_rain_value_except_0 == min16(a.min_rain_value_except_0, b.min_rain_value_except_0),
        r.max_rain_value == max16(a.max_rain_value, b.max_rain_value),
        r.non_zero_values == a.non_zero_values + b.non_zero_values,
        r.values_greater_255 == a.values_greater_255 + b.values_greater_255,
        r.blocks_of_100 == a.blocks_of_100 + b.blocks_of_100,
        r.blocks_of_100_with_no_values == a.blocks_of_100_with_no_values
            + b.blocks_of_100_with_no_values,
        r.blocks_of_100_with_only_zero_values == a.blocks_of_100_with_only_zero_values
            + b.blocks_of_100_with_only_zero_values,
        r.blocks_of_100_with_values_greater_254 == a.blocks_of_100_with_values_greater_254
            + b.blocks_of_100_with_values_greater_254,
{
    RadarStatistics {
        min_available_data_points: if a.min_available_data_points <= b.min_available_data_points {
            a.min_available_data_points
        } else {
            b.min_available_data_points
        },
        max_available_data_points: if a.max_available_data_points >= b.max_available_data_points {
            a.max_available_data_points
        } else {
            b.max_available_data_points
        },
        min_rain_value: if a.min_rain_value <= b.min_rain_value {
            a.min_rain_value
        } else {
            b.min_rain_value
        },
        min_rain_value_except_0: if a.min_rain_value_except_0 <= b.min_rain_value_except_0 {
            a.min_rain_value_except_0
        } else {
            b.min_rain_value_except_0
        },
        max_rain_value: if a.max_rain_value >= b.max_rain_value {
            a.max_rain_value
        } else {
            b.max_rain_value
        },
        non_zero_values: a.non_zero_values + b.non_zero_values,
        values_greater_255: a.values_greater_255 + b.values_greater_255,
        blocks_of_100: a.blocks_of_100 + b.blocks_of_100,
        blocks_of_100_with_no_values: a.blocks_of_100_with_no_values
            + b.blocks_of_100_with_no_values,
        blocks_of_100_with_only_zero_values: a.blocks_of_100_with_only_zero_values
            + b.blocks_of_100_with_only_zero_values,
        blocks_of_100_with_values_greater_254: a.blocks_of_100_with_values_greater_254
            + b.blocks_of_100_with_values_greater_254,
    }
}

} // verus!
