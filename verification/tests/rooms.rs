use game::rooms::analysis::{analyze_grid, GridAnalysis};
use game::rooms::components::components_in_order;
use game::rooms::doors::detect_door_clusters;
use game::rooms::flood::flood_outside;
use game::rooms::gaps::{normalize_pair, region_id_to_room};
use game::rooms::grid::{idx, neighbors4, neighbors8};
use game::rooms::scan::{blocked_depth, inflate_blocked, is_blocked, span};

/// Grid cell size, in pixels.
const CELL_PX: f32 = 8.0;

/// A wall rectangle, in pixels.
struct Wall {
    x: f32,
    y: f32,
    w: f32,
    h: f32,
}

fn w(x: f32, y: f32, w: f32, h: f32) -> Wall {
    Wall { x, y, w, h }
}

impl Wall {
    fn overlaps(&self, px: f32, py: f32, margin: f32) -> bool {
        px + margin > self.x && px - margin < self.x + self.w && py + margin > self.y && py - margin < self.y + self.h
    }
}

struct Rooms {
    analysis: GridAnalysis,
    grid_w: i32,
    grid_h: i32,
}

impl Rooms {
    fn compute(walls: &[Wall], level_w: f32, level_h: f32) -> Rooms {
        let grid_w = ((level_w / CELL_PX).ceil() as i32).max(1);
        let grid_h = ((level_h / CELL_PX).ceil() as i32).max(1);
        let mut blocked = vec![false; (grid_w * grid_h) as usize];
        for gy in 0..grid_h {
            for gx in 0..grid_w {
                let wx = (gx as f32 + 0.5) * CELL_PX;
                let wy = (gy as f32 + 0.5) * CELL_PX;
                if walls.iter().any(|wall| wall.overlaps(wx, wy, 1.0)) {
                    blocked[(gy * grid_w + gx) as usize] = true;
                }
            }
        }
        let inflated = inflate_blocked(&blocked, grid_w, grid_h);
        let free: Vec<bool> = inflated.iter().map(|b| !b).collect();
        Rooms { analysis: analyze_grid(&free, grid_w, grid_h), grid_w, grid_h }
    }

    fn find_room_at(&self, x: f32, y: f32) -> Option<usize> {
        let gx = (x / CELL_PX).floor() as i32;
        let gy = (y / CELL_PX).floor() as i32;
        if let Some(id) = self.analysis.room_at_cell(self.grid_w, self.grid_h, gx, gy) {
            return Some(id);
        }
        self.analysis.rooms.iter().find_map(|room| {
            let rx = room.min_x as f32 * CELL_PX;
            let ry = room.min_y as f32 * CELL_PX;
            let rw = (room.max_x - room.min_x + 1) as f32 * CELL_PX;
            let rh = (room.max_y - room.min_y + 1) as f32 * CELL_PX;
            if x >= rx && x < rx + rw && y >= ry && y < ry + rh {
                Some(room.id)
            } else {
                None
            }
        })
    }
}

#[test]
fn detects_single_closed_room() {
    let walls = vec![
        w(80.0, 80.0, 160.0, 16.0),
        w(80.0, 224.0, 160.0, 16.0),
        w(80.0, 80.0, 16.0, 160.0),
        w(224.0, 80.0, 16.0, 160.0),
    ];

    let rooms = Rooms::compute(&walls, 400.0, 320.0);
    assert_eq!(rooms.analysis.rooms.len(), 1);
    assert_eq!(rooms.find_room_at(160.0, 160.0), Some(0));
    assert_eq!(rooms.find_room_at(40.0, 40.0), None);
}

#[test]
fn separates_rooms_through_narrow_doorway() {
    let walls = vec![
        w(64.0, 64.0, 320.0, 16.0),
        w(64.0, 224.0, 320.0, 16.0),
        w(64.0, 64.0, 16.0, 176.0),
        w(368.0, 64.0, 16.0, 176.0),
        w(216.0, 64.0, 16.0, 64.0),
        w(216.0, 160.0, 16.0, 80.0),
    ];

    let rooms = Rooms::compute(&walls, 480.0, 320.0);
    assert_eq!(rooms.analysis.rooms.len(), 2);

    let left = rooms.find_room_at(140.0, 150.0).expect("left room");
    let right = rooms.find_room_at(300.0, 150.0).expect("right room");
    assert_ne!(left, right);

    let linked = rooms.analysis.gap_links.iter().any(|g| {
        let a = g.from_room;
        let b = g.to_room;
        (a == Some(left) && b == Some(right)) || (a == Some(right) && b == Some(left))
    });
    assert!(linked, "expected a doorway edge between the two rooms");
}

#[test]
fn does_not_create_room_for_open_u_shape() {
    let walls = vec![w(96.0, 96.0, 16.0, 144.0), w(224.0, 96.0, 16.0, 144.0), w(96.0, 224.0, 144.0, 16.0)];

    let rooms = Rooms::compute(&walls, 400.0, 320.0);
    assert_eq!(rooms.analysis.rooms.len(), 0);
    assert_eq!(rooms.find_room_at(160.0, 180.0), None);
}

#[test]
fn near_corner_narrow_opening_is_treated_as_doorway() {
    let walls = vec![
        w(80.0, 80.0, 152.0, 16.0),
        w(80.0, 224.0, 160.0, 16.0),
        w(80.0, 80.0, 16.0, 160.0),
        w(224.0, 120.0, 16.0, 120.0),
    ];

    let rooms = Rooms::compute(&walls, 400.0, 320.0);
    assert_eq!(rooms.analysis.rooms.len(), 1);
    assert_eq!(rooms.find_room_at(160.0, 160.0), Some(0));
}

#[test]
fn detects_concave_closed_room_with_wall_stub() {
    let walls = vec![
        w(64.0, 64.0, 256.0, 16.0),
        w(64.0, 256.0, 256.0, 16.0),
        w(64.0, 64.0, 16.0, 208.0),
        w(304.0, 64.0, 16.0, 208.0),
        w(224.0, 144.0, 96.0, 16.0),
    ];

    let rooms = Rooms::compute(&walls, 480.0, 320.0);
    assert_eq!(rooms.analysis.rooms.len(), 1);

    let above_stub = rooms.find_room_at(176.0, 120.0).expect("upper area");
    let below_stub = rooms.find_room_at(176.0, 200.0).expect("lower area");
    assert_eq!(above_stub, below_stub);
}

#[test]
fn does_not_split_concave_room_with_deep_wall_stub() {
    let walls = vec![
        w(64.0, 64.0, 256.0, 16.0),
        w(64.0, 256.0, 256.0, 16.0),
        w(64.0, 64.0, 16.0, 208.0),
        w(304.0, 64.0, 16.0, 208.0),
        w(112.0, 144.0, 208.0, 16.0),
    ];

    let rooms = Rooms::compute(&walls, 480.0, 320.0);
    assert_eq!(rooms.analysis.rooms.len(), 1);

    let upper = rooms.find_room_at(176.0, 120.0).expect("upper area");
    let lower = rooms.find_room_at(176.0, 200.0).expect("lower area");
    assert_eq!(upper, lower);
}

/// Parse a grid drawn with `#` for blocked and `.` for free.
fn grid(rows: &[&str]) -> (Vec<bool>, i32, i32) {
    let h = rows.len() as i32;
    let w = rows[0].len() as i32;
    let mut free = Vec::new();
    for r in rows {
        for ch in r.chars() {
            free.push(ch == '.');
        }
    }
    (free, w, h)
}

#[test]
fn flood_reaches_exactly_the_free_cells_connected_to_the_edge() {
    let (free, w, h) = grid(&[
        ".....", //
        ".###.", //
        ".#.#.", //
        ".###.", //
        ".....",
    ]);
    let out = flood_outside(&free, w, h);
    let at = |x: i32, y: i32| out[(y * w + x) as usize];
    assert!(at(0, 0));
    assert!(at(4, 4));
    assert!(!at(2, 2));
    assert!(!at(1, 1));
    assert_eq!(out.iter().filter(|b| **b).count(), 16);
}

#[test]
fn spans_and_depths_count_runs() {
    let (free, w, h) = grid(&[
        "#....#", //
        "#....#", //
        "######",
    ]);
    assert_eq!(span(&free, w, h, 1, 0, 1, 0, 13), 3);
    assert_eq!(span(&free, w, h, 1, 0, 1, 0, 2), 2);
    assert_eq!(span(&free, w, h, 1, 0, -1, 0, 13), 0);
    assert_eq!(span(&free, w, h, 1, 0, 0, 1, 13), 1);
    assert_eq!(span(&free, w, h, 1, 0, 0, 1, -4), 0);
    assert_eq!(blocked_depth(&free, w, h, 0, 0, 0, 1), 3);
    assert_eq!(blocked_depth(&free, w, h, 1, 2, 1, 0), 5);
    assert_eq!(blocked_depth(&free, w, h, 1, 1, 1, 0), 0);
    assert!(is_blocked(&free, w, h, 5, 1));
    assert_eq!(idx(w, h, 2, 1), 8);
}

#[test]
fn inflation_grows_blocked_space_by_one_cell() {
    let (free, w, h) = grid(&[
        ".....", //
        ".....", //
        "..#..", //
        ".....", //
        ".....",
    ]);
    let blocked: Vec<bool> = free.iter().map(|f| !f).collect();
    let inflated = inflate_blocked(&blocked, w, h);
    assert_eq!(inflated.iter().filter(|b| **b).count(), 9);
    assert!(inflated[(1 * w + 1) as usize]);
    assert!(!inflated[(0 * w + 2) as usize]);
}

#[test]
fn a_corridor_cell_is_a_door_cluster() {
    // Two open areas joined by a one-cell gap in a vertical wall.
    let mut rows = Vec::new();
    for y in 0..9 {
        let mut r = String::new();
        for x in 0..17 {
            let wall = x == 8 && y != 4;
            r.push(if wall { '#' } else { '.' });
        }
        rows.push(r);
    }
    let refs: Vec<&str> = rows.iter().map(|s| s.as_str()).collect();
    let (free, w, h) = grid(&refs);
    let clusters = detect_door_clusters(&free, w, h);
    assert!(clusters.iter().any(|c| c.cells.contains(&(8, 4))));
}

#[test]
fn neighbours_and_region_pairs() {
    assert_eq!(neighbors4(3, 5), [(4, 5), (2, 5), (3, 6), (3, 4)]);
    assert_eq!(neighbors8(0, 0)[7], (-1, -1));
    assert_eq!(region_id_to_room(-1), None);
    assert_eq!(region_id_to_room(4), Some(4));
    assert_eq!(normalize_pair(3, -1), (None, Some(3)));
    assert_eq!(normalize_pair(1, 2), (Some(1), Some(2)));
}

#[test]
fn a_row_of_free_cells_is_one_doorway_listed_in_search_order() {
    let clusters = detect_door_clusters(&[true; 6], 6, 1);
    assert_eq!(clusters.len(), 1);
    let c = &clusters[0];
    assert_eq!(c.cells, vec![(0, 0), (1, 0), (2, 0), (3, 0), (4, 0), (5, 0)]);
    assert_eq!((c.min_x, c.min_y, c.max_x, c.max_y), (0, 0, 5, 0));
    // Thirteen cells in a row are too long for one doorway.
    assert!(detect_door_clusters(&[true; 13], 13, 1).is_empty());
}

#[test]
fn a_component_is_listed_breadth_first() {
    let comps = components_in_order(&[true; 9], 3, 3, false);
    assert_eq!(comps.len(), 1);
    assert_eq!(
        comps[0],
        vec![(0, 0), (1, 0), (0, 1), (2, 0), (1, 1), (0, 2), (2, 1), (1, 2), (2, 2)]
    );
}
