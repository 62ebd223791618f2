use fdcomp::codec::{decode, direction_index, flows_into, neighbor_offset, shift};
use fdcomp::compare::{compare_flow_paths, CompareError, Overlap};
use fdcomp::grid::Grid;
use fdcomp::tree::{build_drainage_tree, PathRecord, TreeError};

const ND: u8 = 255;

fn grid<T>(rows: usize, cols: usize, cells: Vec<T>) -> Grid<T> {
    Grid::new(rows, cols, cells).unwrap()
}

fn line_dir() -> Grid<u8> {
    grid(3, 3, vec![1, 1, 0, ND, ND, ND, ND, ND, ND])
}

fn line_acc() -> Grid<u32> {
    grid(3, 3, vec![1, 2, 3, 0, 0, 0, 0, 0, 0])
}

fn record(tr: u32, tc: u32, or: u32, oc: u32, n: u32, a: u32, len: u32) -> PathRecord {
    PathRecord {
        terminus_row: tr,
        terminus_col: tc,
        origin_row: or,
        origin_col: oc,
        cell_count: n,
        origin_accumulation: a,
        path_length_meters: len,
    }
}

#[test]
fn codec_decodes_the_eight_pointers() {
    assert_eq!(decode(1), Some((0, 1)));
    assert_eq!(decode(2), Some((1, 1)));
    assert_eq!(decode(4), Some((1, 0)));
    assert_eq!(decode(8), Some((1, -1)));
    assert_eq!(decode(16), Some((0, -1)));
    assert_eq!(decode(32), Some((-1, -1)));
    assert_eq!(decode(64), Some((-1, 0)));
    assert_eq!(decode(128), Some((-1, 1)));
    assert_eq!(decode(0), None);
    assert_eq!(decode(255), None);
    assert_eq!(decode(3), None);
    assert_eq!(direction_index(64), Some(6));
    assert_eq!(direction_index(7), None);
    assert_eq!(neighbor_offset(5), (-1, -1));
}

#[test]
fn codec_flows_into_and_shift() {
    assert!(flows_into(1, 0, 0, 0, 1));
    assert!(!flows_into(1, 0, 0, 1, 0));
    assert!(flows_into(64, 1, 0, 0, 0));
    assert!(!flows_into(32, 0, 0, 0, 0));
    assert!(!flows_into(0, 0, 0, 0, 1));
    assert_eq!(shift(0, -1), None);
    assert_eq!(shift(4, -1), Some(3));
    assert_eq!(shift(usize::MAX, 1), None);
}

#[test]
fn grid_new_checks_cell_count() {
    assert!(Grid::new(2, 2, vec![0u8; 4]).is_some());
    assert!(Grid::new(2, 2, vec![0u8; 3]).is_none());
    assert!(Grid::new(usize::MAX, 2, vec![0u8; 3]).is_none());
}

#[test]
fn straight_line_is_one_path() {
    let (labels, paths) = build_drainage_tree(&line_acc(), &line_dir(), &Vec::new()).unwrap();
    assert_eq!(labels.cells, vec![1, 1, 1, 0, 0, 0, 0, 0, 0]);
    assert_eq!(paths, vec![record(0, 0, 0, 2, 3, 3, 0)]);
}

#[test]
fn straight_line_sums_step_lengths() {
    let lens = vec![[100u32; 8]; 9];
    let (_, paths) = build_drainage_tree(&line_acc(), &line_dir(), &lens).unwrap();
    assert_eq!(paths[0].path_length_meters, 200);
}

#[test]
fn path_length_saturates() {
    let lens = vec![[u32::MAX - 1; 8]; 9];
    let (_, paths) = build_drainage_tree(&line_acc(), &line_dir(), &lens).unwrap();
    assert_eq!(paths[0].path_length_meters, u32::MAX);
}

#[test]
fn two_sinks_are_two_paths() {
    let dir = grid(3, 3, vec![0, ND, ND, ND, ND, ND, ND, ND, 0]);
    let acc = grid(3, 3, vec![0u32; 9]);
    let (labels, paths) = build_drainage_tree(&acc, &dir, &Vec::new()).unwrap();
    assert_eq!(labels.cells, vec![1, 0, 0, 0, 0, 0, 0, 0, 2]);
    assert_eq!(paths, vec![record(0, 0, 0, 0, 1, 0, 0), record(2, 2, 2, 2, 1, 0, 0)]);
}

#[test]
fn higher_accumulation_seeds_first() {
    let dir = grid(1, 3, vec![0, ND, 0]);
    let acc = grid(1, 3, vec![1, 0, 7]);
    let (labels, paths) = build_drainage_tree(&acc, &dir, &Vec::new()).unwrap();
    assert_eq!(labels.cells, vec![2, 0, 1]);
    assert_eq!(paths[0], record(0, 2, 0, 2, 1, 7, 0));
    assert_eq!(paths[1], record(0, 0, 0, 0, 1, 1, 0));
}

#[test]
fn equal_inflows_take_the_later_neighbour() {
    // (1,0) flows east and (0,1) flows south into the outlet (1,1).
    let dir = grid(2, 2, vec![ND, 4, 1, 0]);
    let acc = grid(2, 2, vec![0, 1, 1, 5]);
    let (labels, paths) = build_drainage_tree(&acc, &dir, &Vec::new()).unwrap();
    assert_eq!(labels.cells, vec![0, 1, 2, 1]);
    assert_eq!(paths, vec![record(0, 1, 1, 1, 2, 5, 0), record(1, 0, 1, 0, 1, 1, 0)]);
}

#[test]
fn larger_inflow_wins() {
    let dir = grid(2, 2, vec![ND, 4, 1, 0]);
    let acc = grid(2, 2, vec![0, 1, 3, 5]);
    let (labels, paths) = build_drainage_tree(&acc, &dir, &Vec::new()).unwrap();
    assert_eq!(labels.cells, vec![0, 2, 1, 1]);
    assert_eq!(paths[0], record(1, 0, 1, 1, 2, 5, 0));
}

#[test]
fn cycle_terminates_without_relabelling() {
    let dir = grid(1, 2, vec![1, 16]);
    let acc = grid(1, 2, vec![5, 5]);
    let (labels, paths) = build_drainage_tree(&acc, &dir, &Vec::new()).unwrap();
    assert_eq!(labels.cells, vec![1, 1]);
    assert_eq!(paths, vec![record(0, 1, 0, 0, 2, 5, 0)]);
}

#[test]
fn every_cell_with_data_is_labelled() {
    let dir = grid(3, 3, vec![2, 4, 8, 1, 0, 16, 128, 64, ND]);
    let acc = grid(3, 3, vec![1, 1, 1, 1, 8, 1, 1, 1, 0]);
    let (labels, paths) = build_drainage_tree(&acc, &dir, &Vec::new()).unwrap();
    for i in 0..9 {
        assert_eq!(labels.cells[i] != 0, dir.cells[i] != ND);
        assert!(labels.cells[i] as usize <= paths.len());
    }
    assert_eq!(paths.len(), 7);
    assert_eq!(paths[0].origin_row, 1);
    assert_eq!(paths[0].origin_col, 1);
    assert_eq!(paths[0].cell_count, 2);
}

#[test]
fn two_runs_agree() {
    let dir = grid(3, 3, vec![2, 4, 8, 1, 0, 16, 128, 64, 32]);
    let acc = grid(3, 3, vec![1, 1, 1, 1, 8, 1, 1, 1, 1]);
    let a = build_drainage_tree(&acc, &dir, &Vec::new()).unwrap();
    let b = build_drainage_tree(&acc, &dir, &Vec::new()).unwrap();
    assert_eq!(a.0.cells, b.0.cells);
    assert_eq!(a.1, b.1);
}

#[test]
fn tree_rejects_shape_mismatch() {
    let acc = grid(2, 2, vec![0u32; 4]);
    assert_eq!(build_drainage_tree(&acc, &line_dir(), &Vec::new()).err(), Some(TreeError::ShapeMismatch));
    let torn = Grid { rows: 3, cols: 3, cells: vec![0u8; 4] };
    assert_eq!(build_drainage_tree(&line_acc(), &torn, &Vec::new()).err(), Some(TreeError::ShapeMismatch));
    let lens = vec![[1u32; 8]; 4];
    assert_eq!(build_drainage_tree(&line_acc(), &line_dir(), &lens).err(), Some(TreeError::ShapeMismatch));
}

#[test]
fn tree_rejects_unknown_code() {
    let dir = grid(3, 3, vec![1, 1, 0, ND, 5, ND, ND, ND, ND]);
    assert_eq!(build_drainage_tree(&line_acc(), &dir, &Vec::new()).err(), Some(TreeError::InvalidDirection));
}

#[test]
fn identical_rasters_score_one() {
    let (_, paths) = build_drainage_tree(&line_acc(), &line_dir(), &Vec::new()).unwrap();
    let scores = compare_flow_paths(&line_dir(), &line_dir(), &paths).unwrap();
    assert_eq!(scores, vec![Overlap { matched: 3, total: 3 }]);
    let dir = grid(3, 3, vec![2, 4, 8, 1, 0, 16, 128, 64, 32]);
    let acc = grid(3, 3, vec![1, 1, 1, 1, 8, 1, 1, 1, 1]);
    let (_, paths) = build_drainage_tree(&acc, &dir, &Vec::new()).unwrap();
    let scores = compare_flow_paths(&dir, &dir, &paths).unwrap();
    assert_eq!(scores.len(), paths.len());
    for s in scores {
        assert_eq!(s.matched, s.total);
    }
}

#[test]
fn coarse_sink_scores_half() {
    let fine = grid(2, 4, vec![1, 1, 1, 0, ND, ND, ND, ND]);
    let acc = grid(2, 4, vec![1, 2, 3, 4, 0, 0, 0, 0]);
    let (_, paths) = build_drainage_tree(&acc, &fine, &Vec::new()).unwrap();
    assert_eq!(paths, vec![record(0, 0, 0, 3, 4, 4, 0)]);
    let coarse = grid(1, 2, vec![0, 0]);
    let scores = compare_flow_paths(&fine, &coarse, &paths).unwrap();
    assert_eq!(scores, vec![Overlap { matched: 2, total: 4 }]);
    assert!(scores[0].matched <= scores[0].total);
    let coarse = grid(1, 2, vec![1, 0]);
    let scores = compare_flow_paths(&fine, &coarse, &paths).unwrap();
    assert_eq!(scores, vec![Overlap { matched: 4, total: 4 }]);
}

#[test]
fn coarse_cycle_is_followed_once() {
    let fine = grid(1, 2, vec![1, 0]);
    let coarse = grid(1, 2, vec![1, 16]);
    let paths = vec![record(0, 0, 0, 1, 2, 2, 0)];
    let scores = compare_flow_paths(&fine, &coarse, &paths).unwrap();
    assert_eq!(scores, vec![Overlap { matched: 2, total: 2 }]);
}

#[test]
fn compare_rejects_bad_scale() {
    let coarse = grid(2, 2, vec![0u8; 4]);
    assert_eq!(compare_flow_paths(&line_dir(), &coarse, &Vec::new()).err(), Some(CompareError::ShapeMismatch));
    let wide = grid(1, 3, vec![0u8; 3]);
    let fine = grid(2, 3, vec![0u8; 6]);
    assert_eq!(compare_flow_paths(&fine, &wide, &Vec::new()).err(), Some(CompareError::ShapeMismatch));
    let empty = Grid { rows: 0, cols: 0, cells: Vec::<u8>::new() };
    assert_eq!(compare_flow_paths(&line_dir(), &empty, &Vec::new()).err(), Some(CompareError::ShapeMismatch));
}

#[test]
fn compare_rejects_unknown_code() {
    let coarse = grid(3, 3, vec![1, 1, 0, ND, ND, 9, ND, ND, ND]);
    assert_eq!(compare_flow_paths(&line_dir(), &coarse, &Vec::new()).err(), Some(CompareError::InvalidDirection));
}

#[test]
fn compare_rejects_broken_path() {
    let upside_down = vec![record(0, 2, 0, 0, 3, 3, 0)];
    assert_eq!(compare_flow_paths(&line_dir(), &line_dir(), &upside_down).err(), Some(CompareError::BrokenPath));
    let off_raster = vec![record(0, 7, 0, 2, 3, 3, 0)];
    assert_eq!(compare_flow_paths(&line_dir(), &line_dir(), &off_raster).err(), Some(CompareError::BrokenPath));
}
