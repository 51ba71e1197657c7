use std::collections::HashMap;

use heatmapping::grid::{build_gpu_hash, nearby_lon_range, GridCells};
use heatmapping::input::{
    frame_reaction, FrameOutcome, FrameReaction, InputAction, InputEvent, PointerButton,
    PointerState,
};
use heatmapping::render_plan::{
    dispatch_count, frame_passes, jfa_extent, jump_sizes, timestamp_query_count, FramePass,
};
use heatmapping::structs::{GpuGridCellKey, GpuGridCellVal};

fn sample_grid() -> GridCells {
    let mut grid = GridCells::new();
    grid.insert(0, 0, 1);
    grid.insert(0, 1, 2);
    grid.insert(5, 5, 3);
    grid.insert(0, 0, 4);
    grid.insert(-1, -1, 6);
    grid
}

#[test]
fn nearby_reads_rows_around_the_cell() {
    let grid = sample_grid();
    assert_eq!(grid.get_nearby(0, 0, 1), vec![6, 1, 4, 2]);
    assert_eq!(grid.get_nearby(0, 0, 0), vec![1, 4]);
    assert_eq!(grid.get_nearby(5, 5, 3), vec![3]);
    assert_eq!(grid.get_nearby(100, 100, 2), Vec::<u32>::new());
}

#[test]
fn nearby_with_negative_range_reads_nothing() {
    let grid = sample_grid();
    assert_eq!(grid.get_nearby(0, 0, -1), Vec::<u32>::new());
}

#[test]
fn inserted_stop_is_found_nearby() {
    let mut grid = GridCells::new();
    grid.insert(10, -20, 42);
    for lat in 9..=11 {
        for lon in -22..=-18 {
            assert!(grid.get_nearby(lat, lon, 2).contains(&42));
        }
    }
    assert!(!grid.get_nearby(12, -20, 2).contains(&42));
    assert!(!grid.get_nearby(10, -23, 2).contains(&42));
}

#[test]
fn nearby_range_is_capped_at_half_a_circle() {
    assert_eq!(nearby_lon_range(1, 100), 2);
    assert_eq!(nearby_lon_range(80, 100), 50);
    assert_eq!(nearby_lon_range(80, 101), 51);
    assert_eq!(nearby_lon_range(0, 0), 0);
    assert_eq!(nearby_lon_range(5, -4), -1);
}

#[test]
fn gpu_arrays_locate_each_cells_stops() {
    let grid = sample_grid();
    let mut arrivals = HashMap::new();
    arrivals.insert(1, 100);
    arrivals.insert(2, 200);
    arrivals.insert(6, 50);
    let (keys, vals, stops) = build_gpu_hash(&grid, &arrivals);
    assert_eq!(
        keys,
        vec![
            GpuGridCellKey { lat_index: 0, lon_index: 0 },
            GpuGridCellKey { lat_index: 0, lon_index: 1 },
            GpuGridCellKey { lat_index: 5, lon_index: 5 },
            GpuGridCellKey { lat_index: -1, lon_index: -1 },
        ]
    );
    assert_eq!(
        vals,
        vec![
            GpuGridCellVal { start: 0, count: 2 },
            GpuGridCellVal { start: 2, count: 1 },
            GpuGridCellVal { start: 3, count: 1 },
            GpuGridCellVal { start: 4, count: 1 },
        ]
    );
    assert_eq!(stops, vec![(1, 100), (4, u32::MAX), (2, 200), (3, u32::MAX), (6, 50)]);
}

#[test]
fn gpu_arrays_of_empty_grid_are_empty() {
    let (keys, vals, stops) = build_gpu_hash(&GridCells::new(), &HashMap::new());
    assert!(keys.is_empty() && vals.is_empty() && stops.is_empty());
}

#[test]
fn jump_sequence_halves_down_to_one() {
    assert_eq!(jump_sizes(1024), vec![1024, 512, 256, 128, 64, 32, 16, 8, 4, 2, 1]);
    assert_eq!(jump_sizes(6), vec![6, 3, 1]);
    assert_eq!(jump_sizes(1), vec![1]);
    assert_eq!(jump_sizes(0), Vec::<u32>::new());
}

#[test]
fn timestamp_queries_cover_every_timed_pass() {
    assert_eq!(timestamp_query_count(11), 28);
    assert_eq!(timestamp_query_count(0), 6);
}

#[test]
fn dispatch_counts_round_up() {
    assert_eq!(dispatch_count(1000, 256), 4);
    assert_eq!(dispatch_count(1024, 256), 4);
    assert_eq!(dispatch_count(1025, 256), 5);
    assert_eq!(dispatch_count(0, 16), 0);
    assert_eq!(dispatch_count(16, 16), 1);
}

#[test]
fn flood_textures_are_at_least_one_pixel() {
    assert_eq!(jfa_extent(1920, 8), 240);
    assert_eq!(jfa_extent(100, 8), 12);
    assert_eq!(jfa_extent(7, 8), 1);
    assert_eq!(jfa_extent(0, 8), 1);
}

#[test]
fn frame_passes_alternate_textures() {
    assert_eq!(
        frame_passes(2),
        vec![
            FramePass::Seed { query: 0 },
            FramePass::JumpStep { jump_index: 0, read_b: false, query: 2 },
            FramePass::JumpStep { jump_index: 1, read_b: true, query: 4 },
            FramePass::MinMax { read_a: true },
            FramePass::Heatmap { read_a: true, query: 6 },
            FramePass::StopPoints { query: 8 },
        ]
    );
}

#[test]
fn frame_with_odd_steps_ends_on_second_texture() {
    let passes = frame_passes(11);
    assert_eq!(passes.len(), 15);
    assert_eq!(passes[11], FramePass::JumpStep { jump_index: 10, read_b: false, query: 22 });
    assert_eq!(passes[12], FramePass::MinMax { read_a: false });
    assert_eq!(passes[13], FramePass::Heatmap { read_a: false, query: 24 });
    assert_eq!(passes[14], FramePass::StopPoints { query: 26 });
}

#[test]
fn frame_without_steps_reads_seeded_texture() {
    assert_eq!(
        frame_passes(0),
        vec![
            FramePass::Seed { query: 0 },
            FramePass::MinMax { read_a: true },
            FramePass::Heatmap { read_a: true, query: 2 },
            FramePass::StopPoints { query: 4 },
        ]
    );
}

const VIEW: Option<(u32, u32)> = Some((800, 600));

#[test]
fn dragging_pans_with_the_cursor() {
    let mut s: PointerState<(i32, i32)> = PointerState::new();
    assert!(matches!(s.handle(InputEvent::CursorMoved((10, 10)), VIEW, true), InputAction::Nothing));
    assert!(matches!(
        s.handle(InputEvent::Pressed(PointerButton::Left), VIEW, true),
        InputAction::Nothing
    ));
    assert!(matches!(
        s.handle(InputEvent::CursorMoved((15, 12)), VIEW, true),
        InputAction::Pan { from: (10, 10), to: (15, 12), redraw: true }
    ));
    assert!(matches!(
        s.handle(InputEvent::CursorMoved((20, 20)), VIEW, false),
        InputAction::Pan { from: (15, 12), to: (20, 20), redraw: false }
    ));
    assert!(matches!(
        s.handle(InputEvent::Released(PointerButton::Left), VIEW, true),
        InputAction::Nothing
    ));
    assert!(matches!(s.handle(InputEvent::CursorMoved((30, 30)), VIEW, true), InputAction::Nothing));
    assert_eq!(s.cursor, Some((30, 30)));
    assert!(!s.dragging);
    assert_eq!(s.last_drag, None);
}

#[test]
fn press_before_any_cursor_does_not_pan_at_first_move() {
    let mut s: PointerState<(i32, i32)> = PointerState::new();
    s.handle(InputEvent::Pressed(PointerButton::Left), VIEW, true);
    assert!(matches!(s.handle(InputEvent::CursorMoved((1, 1)), VIEW, true), InputAction::Nothing));
    assert!(matches!(
        s.handle(InputEvent::CursorMoved((2, 3)), VIEW, true),
        InputAction::Pan { from: (1, 1), to: (2, 3), redraw: true }
    ));
}

#[test]
fn scrolling_zooms_at_the_cursor() {
    let mut s: PointerState<(i32, i32)> = PointerState::new();
    assert!(matches!(s.handle(InputEvent::Scrolled, VIEW, true), InputAction::Nothing));
    s.handle(InputEvent::CursorMoved((5, 6)), VIEW, true);
    assert!(matches!(s.handle(InputEvent::Scrolled, VIEW, true), InputAction::Zoom { cursor: (5, 6) }));
    assert!(matches!(s.handle(InputEvent::Scrolled, None, true), InputAction::Nothing));
    assert!(matches!(s.handle(InputEvent::Scrolled, VIEW, false), InputAction::Nothing));
}

#[test]
fn window_events_map_to_actions() {
    let mut s: PointerState<(i32, i32)> = PointerState::new();
    assert!(matches!(s.handle(InputEvent::CloseRequested, VIEW, true), InputAction::Exit));
    assert!(matches!(
        s.handle(InputEvent::Resized { width: 1024, height: 768 }, VIEW, true),
        InputAction::Resize { width: 1024, height: 768 }
    ));
    assert!(matches!(
        s.handle(InputEvent::Resized { width: 1024, height: 768 }, None, true),
        InputAction::Nothing
    ));
    assert!(matches!(s.handle(InputEvent::RedrawRequested, VIEW, true), InputAction::Render));
    assert!(matches!(s.handle(InputEvent::RedrawRequested, None, true), InputAction::Nothing));
    assert!(matches!(s.handle(InputEvent::Other, VIEW, true), InputAction::Nothing));
    assert!(matches!(
        s.handle(InputEvent::Pressed(PointerButton::Other), VIEW, true),
        InputAction::Nothing
    ));
}

#[test]
fn right_click_reports_position_on_a_drawn_view() {
    let mut s: PointerState<(i32, i32)> = PointerState::new();
    assert!(matches!(
        s.handle(InputEvent::Pressed(PointerButton::Right), VIEW, true),
        InputAction::Nothing
    ));
    s.handle(InputEvent::CursorMoved((7, 8)), VIEW, true);
    assert!(matches!(
        s.handle(InputEvent::Pressed(PointerButton::Right), VIEW, true),
        InputAction::ReportPosition { cursor: (7, 8) }
    ));
    assert!(matches!(
        s.handle(InputEvent::Pressed(PointerButton::Right), Some((0, 600)), true),
        InputAction::Nothing
    ));
    assert!(matches!(
        s.handle(InputEvent::Released(PointerButton::Right), VIEW, true),
        InputAction::Nothing
    ));
}

#[test]
fn frame_outcomes_map_to_reactions() {
    assert_eq!(frame_reaction(FrameOutcome::Presented), FrameReaction::Continue);
    assert_eq!(frame_reaction(FrameOutcome::SurfaceLost), FrameReaction::Reconfigure);
    assert_eq!(frame_reaction(FrameOutcome::OutOfMemory), FrameReaction::Exit);
    assert_eq!(frame_reaction(FrameOutcome::OtherError), FrameReaction::Report);
}
