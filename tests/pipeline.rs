use rs3cache_extractor::cluster_builder::{build_plane_clusters, cluster_components, deterministic_cluster_id_plane};
use rs3cache_extractor::entrance_discovery::discover_boundary_entrances;
use rs3cache_extractor::executor::{first_stage, stages_to_run, ExecOptions, ExecStats, Stage};
use rs3cache_extractor::grid::WalkGrid;
use rs3cache_extractor::inter_connector::build_inter_rows;
use rs3cache_extractor::intra_connector::{exit_clusters, intra_edges_for_cluster, shortest_path_in_set};
use rs3cache_extractor::intra_trimmer::{trim_flags, trim_rows, TrimRow};
use rs3cache_extractor::jps_accelerator::{jps_for_tile, next_jump, scan_until_block};
use rs3cache_extractor::models::{ClusterTile, Dir, EdgeRow, EntranceKey, EntranceRow};
use rs3cache_extractor::neighbor_policy::MovementPolicy;
use rs3cache_extractor::owner_map::OwnerMap;
use rs3cache_extractor::passability::{can_step, reconcile_grid, reconciled_mask};
use rs3cache_extractor::walk_data::{tile_mask, walk_flags};
use rs3cache_extractor::teleport_connector::{plan_teleport_entrances, teleport_links, TeleportEdge, TeleportKind, TilePos};

const ALL: u8 = 0xFF;

fn grid_of(tiles: &[(i32, i32)], mask: u8) -> WalkGrid {
    let mut g = WalkGrid::new();
    for &(x, y) in tiles {
        g.set_mask(x, y, mask);
    }
    g
}

fn entrance(id: i64, cid: i64, x: i32, y: i32, dir: Dir) -> EntranceRow {
    EntranceRow { entrance_id: id, cluster_id: cid, x, y, plane: 0, dir, teleport_edge_id: None }
}

#[test]
fn two_tile_corridor_makes_one_cluster_and_no_entrances() {
    let tiles = vec![(0, 0), (1, 0)];
    let g = grid_of(&tiles, ALL);
    let clusters = build_plane_clusters(&MovementPolicy::default(), &g, 0, &tiles);
    assert_eq!(clusters.len(), 1);
    assert_eq!(clusters[0].tiles.len(), 2);
    assert_eq!(clusters[0].cluster_id, 0);
    let cts: Vec<ClusterTile> = tiles.iter().map(|&(x, y)| ClusterTile { cluster_id: clusters[0].cluster_id, x, y }).collect();
    assert!(discover_boundary_entrances(0, &cts).is_empty());
}

#[test]
fn empty_db_produces_no_entrances() {
    let g = WalkGrid::new();
    let clusters = build_plane_clusters(&MovementPolicy::default(), &g, 0, &vec![]);
    assert!(clusters.is_empty());
    assert_eq!(discover_boundary_entrances(0, &vec![]).len(), 0);
}

#[test]
fn adjacent_across_chunk_boundary_creates_pair_of_entrances() {
    let cts = vec![ClusterTile { cluster_id: 1, x: 63, y: 0 }, ClusterTile { cluster_id: 2, x: 64, y: 0 }];
    let es = discover_boundary_entrances(0, &cts);
    assert_eq!(es.len(), 2);
    assert!(es.contains(&EntranceKey { cluster_id: 1, x: 63, y: 0, plane: 0, dir: Dir::E }));
    assert!(es.contains(&EntranceKey { cluster_id: 2, x: 64, y: 0, plane: 0, dir: Dir::W }));
}

#[test]
fn creates_bidirectional_edges_with_cardinal_cost() {
    let g = grid_of(&[(63, 0), (64, 0)], ALL);
    let es = vec![entrance(1, 1, 63, 0, Dir::E), entrance(2, 2, 64, 0, Dir::W)];
    let rows = build_inter_rows(&MovementPolicy::default(), &g, 0, &es, 1024);
    assert_eq!(es.len(), 2);
    // Each side finds the other; stored with a min-merge, the rows are two edges.
    let stored: std::collections::BTreeSet<(i64, i64)> = rows.iter().map(|r| (r.from, r.to)).collect();
    assert_eq!(stored.len(), 2);
    assert!(rows.contains(&EdgeRow { from: 1, to: 2, cost: 1024 }));
    assert!(rows.contains(&EdgeRow { from: 2, to: 1, cost: 1024 }));
    assert_eq!(rows.iter().map(|r| r.cost).max(), Some(1024));
}

#[test]
fn inter_edges_need_the_oracle() {
    let mut g = grid_of(&[(63, 0), (64, 0)], ALL);
    g.set_mask(64, 0, ALL & !(1 << 0));
    let es = vec![entrance(1, 1, 63, 0, Dir::E), entrance(2, 2, 64, 0, Dir::W)];
    assert!(build_inter_rows(&MovementPolicy::default(), &g, 0, &es, 1024).is_empty());
}

#[test]
fn inter_edges_come_in_reverse_pairs() {
    let g = grid_of(&[(0, 0), (1, 0), (0, 1), (1, 1)], ALL);
    let es = vec![entrance(10, 1, 0, 0, Dir::E), entrance(11, 2, 1, 0, Dir::W), entrance(12, 1, 0, 0, Dir::N), entrance(13, 3, 0, 1, Dir::S)];
    let rows = build_inter_rows(&MovementPolicy::default(), &g, 0, &es, 7);
    for r in &rows {
        assert!(rows.contains(&EdgeRow { from: r.to, to: r.from, cost: r.cost }));
    }
    assert!(rows.contains(&EdgeRow { from: 12, to: 13, cost: 7 }));
}

fn small_cluster() -> (Vec<(i32, i32)>, Vec<EntranceRow>, Vec<Option<i64>>) {
    let tiles = vec![(0, 0), (1, 0)];
    let es = vec![entrance(1, 1, 0, 0, Dir::E), entrance(2, 1, 1, 0, Dir::W)];
    let owners = OwnerMap::from_tiles(&vec![ClusterTile { cluster_id: 1, x: 0, y: 0 }, ClusterTile { cluster_id: 1, x: 1, y: 0 }]);
    let exits = exit_clusters(&owners, 1, &es);
    (tiles, es, exits)
}

#[test]
fn intra_edges_no_blobs_when_flag_false() {
    let (tiles, es, exits) = small_cluster();
    let rows = intra_edges_for_cluster(&MovementPolicy::default(), 0, &tiles, &es, &exits, 1024, 1448, false).unwrap();
    assert_eq!(rows.len(), 2);
    assert!(rows.iter().all(|r| r.path_blob.is_none() && r.cost == 1024));
    assert!(rows.iter().any(|r| r.from == 1 && r.to == 2));
    assert!(rows.iter().any(|r| r.from == 2 && r.to == 1));
}

#[test]
fn intra_edges_with_blobs_when_flag_true() {
    let (tiles, es, exits) = small_cluster();
    let rows = intra_edges_for_cluster(&MovementPolicy::default(), 0, &tiles, &es, &exits, 1024, 1448, true).unwrap();
    assert_eq!(rows.len(), 2);
    let ab = rows.iter().find(|r| r.from == 1).unwrap();
    assert_eq!(ab.path_blob.as_ref().unwrap(), &vec![0, 0, 0, 0, 0, 0, 0, 0, 0, 0, 0, 0, 1, 0, 0, 0, 0, 0, 0, 0, 0, 0, 0, 0]);
    assert!(rows.iter().all(|r| r.path_blob.as_ref().map(|b| b.len()) == Some(24)));
}

#[test]
fn intra_skips_pairs_leading_to_the_same_cluster() {
    let tiles = vec![(0, 0), (1, 0)];
    let es = vec![entrance(1, 1, 0, 0, Dir::N), entrance(2, 1, 1, 0, Dir::N)];
    let owners = OwnerMap::from_tiles(&vec![
        ClusterTile { cluster_id: 1, x: 0, y: 0 },
        ClusterTile { cluster_id: 1, x: 1, y: 0 },
        ClusterTile { cluster_id: 9, x: 0, y: 1 },
        ClusterTile { cluster_id: 9, x: 1, y: 1 },
    ]);
    let exits = exit_clusters(&owners, 1, &es);
    assert_eq!(exits, vec![Some(9), Some(9)]);
    let rows = intra_edges_for_cluster(&MovementPolicy::default(), 0, &tiles, &es, &exits, 1024, 1448, false).unwrap();
    assert!(rows.is_empty());
    assert!(intra_edges_for_cluster(&MovementPolicy::default(), 0, &tiles, &es[..1].to_vec(), &exits[..1].to_vec(), 1024, 1448, false).is_none());
}

#[test]
fn dijkstra_prefers_diagonals_by_cost() {
    let mut tiles = Vec::new();
    for x in 0..3 {
        for y in 0..3 {
            tiles.push((x, y));
        }
    }
    let (cost, path) = shortest_path_in_set((0, 0), (2, 2), &tiles, &MovementPolicy::default(), 1024, 1448);
    assert_eq!(cost, Some(2 * 1448));
    assert_eq!(path.unwrap(), vec![(0, 0), (1, 1), (2, 2)]);
    let (cost, _) = shortest_path_in_set((0, 0), (2, 0), &tiles, &MovementPolicy::default(), 1024, 1448);
    assert_eq!(cost, Some(2048));
    assert_eq!(shortest_path_in_set((0, 0), (5, 5), &tiles, &MovementPolicy::default(), 1024, 1448), (None, None));
    assert_eq!(shortest_path_in_set((7, 7), (7, 7), &tiles, &MovementPolicy::default(), 1024, 1448).0, Some(0));
}

#[test]
fn corner_cut_policy() {
    let g = grid_of(&[(0, 0), (1, 1), (0, 1)], ALL);
    let strict = MovementPolicy { allow_diagonals: true, allow_corner_cut: false, unit_radius_tiles: 1 };
    let cut = MovementPolicy { allow_diagonals: true, allow_corner_cut: true, unit_radius_tiles: 1 };
    assert!(!can_step(&strict, &g, 0, 0, 1, 1));
    assert!(can_step(&cut, &g, 0, 0, 1, 1));
    assert!(can_step(&cut, &g, 1, 1, 0, 0));
    let g2 = grid_of(&[(0, 0), (1, 1)], ALL);
    assert!(!can_step(&cut, &g2, 0, 0, 1, 1));
}

#[test]
fn reconciliation_clears_one_way_bits() {
    let mut g = grid_of(&[(0, 0), (1, 0)], ALL);
    g.set_mask(1, 0, ALL & !(1 << 0));
    let m = reconciled_mask(&g, 0, 0);
    assert_eq!(m & (1 << 2), 0);
    assert_eq!(m & (1 << 0), 0);
    assert_eq!(reconciled_mask(&WalkGrid::new(), 3, 3), 0);
}

#[test]
fn clusters_are_bounded_to_64_tiles() {
    let tiles: Vec<(i32, i32)> = (0..70).map(|x| (x, 0)).collect();
    let g = grid_of(&tiles, ALL);
    let comps = cluster_components(&MovementPolicy::default(), &g, &tiles);
    assert_eq!(comps.len(), 2);
    assert_eq!(comps[0].len(), 64);
    assert_eq!(comps[1].len(), 6);
    assert_eq!(comps[0][0], (0, 0));
    assert_eq!(comps[1][0], (64, 0));
}

#[test]
fn cluster_ids_encode_plane_and_index() {
    assert_eq!(deterministic_cluster_id_plane(1, 5), (1i64 << 56) | 5);
    assert_eq!(deterministic_cluster_id_plane(2, 0), deterministic_cluster_id_plane(2, 0));
    let tiles = vec![(5, 5), (0, 0), (9, 9)];
    let g = grid_of(&tiles, ALL);
    let a = build_plane_clusters(&MovementPolicy::default(), &g, 3, &tiles);
    let b = build_plane_clusters(&MovementPolicy::default(), &g, 3, &tiles);
    let ids: Vec<i64> = a.iter().map(|c| c.cluster_id).collect();
    assert_eq!(ids, b.iter().map(|c| c.cluster_id).collect::<Vec<_>>());
    assert_eq!(ids, vec![3i64 << 56, (3i64 << 56) | 1, (3i64 << 56) | 2]);
    assert_eq!(a[0].tiles, vec![(0, 0)]);
}

#[test]
fn trimmer_keeps_five_cheapest() {
    let rows: Vec<TrimRow> = (0..7).map(|k| TrimRow { from: 1, to: 100 - k, cost: 16 - k, ext: Some(5) }).collect();
    let kept = trim_rows(&rows);
    let mut costs: Vec<i64> = kept.iter().map(|r| r.cost).collect();
    costs.sort();
    assert_eq!(costs, vec![10, 11, 12, 13, 14]);
}

#[test]
fn trimmer_never_trims_dead_ends_and_breaks_ties_by_target() {
    let mut rows: Vec<TrimRow> = (0..7).map(|k| TrimRow { from: 1, to: k, cost: 3, ext: None }).collect();
    rows.extend((0..6).map(|k| TrimRow { from: 1, to: 20 - k, cost: 3, ext: Some(2) }));
    let flags = trim_flags(&rows);
    assert!(flags[..7].iter().all(|&f| f));
    assert_eq!(flags[7..].to_vec(), vec![false, true, true, true, true, true]);
}

#[test]
fn teleport_door_end_to_end() {
    let owners = OwnerMap::from_tiles(&vec![ClusterTile { cluster_id: 1, x: 10, y: 10 }, ClusterTile { cluster_id: 2, x: 20, y: 20 }]);
    let edge = TeleportEdge {
        edge_id: 77,
        kind: TeleportKind::Door,
        src: Some(TilePos { x: 10, y: 10, plane: 0 }),
        dst: Some(TilePos { x: 20, y: 20, plane: 0 }),
        cost: 500,
    };
    let plan = plan_teleport_entrances(&owners, 0, &vec![edge], &vec![]);
    assert_eq!(plan.len(), 2);
    assert_eq!(plan[0], (EntranceKey { cluster_id: 1, x: 10, y: 10, plane: 0, dir: Dir::TP }, 77));
    assert_eq!(plan[1], (EntranceKey { cluster_id: 2, x: 20, y: 20, plane: 0, dir: Dir::TP }, 77));
    let ents: Vec<EntranceRow> = plan
        .iter()
        .enumerate()
        .map(|(i, (k, e))| EntranceRow { entrance_id: 100 + i as i64, cluster_id: k.cluster_id, x: k.x, y: k.y, plane: 0, dir: k.dir, teleport_edge_id: Some(*e) })
        .collect();
    let links = teleport_links(&vec![edge], &ents);
    assert_eq!(links, vec![EdgeRow { from: 100, to: 101, cost: 500 }, EdgeRow { from: 101, to: 100, cost: 500 }]);
    let one_way = TeleportEdge { kind: TeleportKind::Npc, ..edge };
    assert_eq!(teleport_links(&vec![one_way], &ents).len(), 1);
    assert_eq!(TeleportKind::parse("door"), Some(TeleportKind::Door));
    assert_eq!(TeleportKind::parse("lodestone"), Some(TeleportKind::Lodestone));
    assert_eq!(TeleportKind::parse("Door"), None);
}

#[test]
fn teleport_entrance_falls_back_to_a_free_label() {
    let owners = OwnerMap::from_tiles(&vec![ClusterTile { cluster_id: 1, x: 10, y: 10 }]);
    let edge = TeleportEdge { edge_id: 5, kind: TeleportKind::Lodestone, src: None, dst: Some(TilePos { x: 10, y: 10, plane: 0 }), cost: 1 };
    let taken = vec![
        EntranceKey { cluster_id: 1, x: 10, y: 10, plane: 0, dir: Dir::TP },
        EntranceKey { cluster_id: 1, x: 10, y: 10, plane: 0, dir: Dir::N },
    ];
    let plan = plan_teleport_entrances(&owners, 0, &vec![edge], &taken);
    assert_eq!(plan, vec![(EntranceKey { cluster_id: 1, x: 10, y: 10, plane: 0, dir: Dir::E }, 5)]);
    let mut full = taken.clone();
    for d in [Dir::E, Dir::S, Dir::W] {
        full.push(EntranceKey { cluster_id: 1, x: 10, y: 10, plane: 0, dir: d });
    }
    assert!(plan_teleport_entrances(&owners, 0, &vec![edge], &full).is_empty());
}

#[test]
fn builds_basic_jps_for_simple_corridor() {
    let tiles = [(-1, 0), (0, 0), (1, 0)];
    let g = grid_of(&tiles, 1);
    let p = MovementPolicy::default();
    let (span, jumps) = jps_for_tile(&p, &g, 0, 0, 0);
    assert_eq!(span.left_block_at, Some(-2));
    assert_eq!(span.right_block_at, Some(2));
    let east = jumps.iter().find(|j| j.dir == 1).unwrap();
    assert_eq!((east.next_x, east.next_y), (1, 0));
    assert_eq!(next_jump(&g, 0, 0, 1, 0, &p), Some((1, 0, 0)));
    assert_eq!(next_jump(&g, 1, 0, 1, 0, &p), None);
    assert_eq!(scan_until_block(&g, 0, 0, 0, 1), Some(1));
}

#[test]
fn jps_finds_forced_neighbors() {
    let mut tiles = Vec::new();
    for x in 0..6 {
        tiles.push((x, 0));
    }
    tiles.push((3, 1));
    let g = grid_of(&tiles, 1);
    let p = MovementPolicy::default();
    assert_eq!(next_jump(&g, 0, 0, 1, 0, &p), Some((3, 0, 0)));
}

#[test]
fn force_plans_every_stage() {
    let opts = ExecOptions { resume: false, force: true };
    let done = vec![true; 8];
    assert_eq!(first_stage(opts, &done), 0);
    let mut stats = ExecStats::default();
    for s in stages_to_run(opts, &done) {
        stats.record(s);
    }
    assert!(stats.ran_build && stats.ran_entrances && stats.ran_intra && stats.ran_inter && stats.ran_jps);
    assert_eq!(Stage::Build.key(), "cluster_stage_build");
    assert_eq!(Stage::Jps.key(), "cluster_stage_jps");
}

#[test]
fn resume_runs_everything_after_the_completed_prefix() {
    let opts = ExecOptions { resume: true, force: false };
    let done = vec![true; 8];
    assert_eq!(first_stage(opts, &done), 8);
    assert!(stages_to_run(opts, &done).is_empty());
    let partial = vec![true, true, false, true, false, false, false, true];
    assert_eq!(first_stage(opts, &partial), 2);
    assert_eq!(
        stages_to_run(opts, &partial),
        vec![Stage::TeleportEntrances, Stage::Intra, Stage::IntraTrim, Stage::Inter, Stage::TeleportEdges, Stage::Jps]
    );
    assert_eq!(stages_to_run(ExecOptions { resume: false, force: false }, &done).len(), 8);
    assert_eq!(Stage::all().len(), 8);
}

#[test]
fn walk_data_flags_shape_the_mask() {
    assert_eq!(tile_mask(true, Some(r#"{"left":false,"top":"x","right":true}"#)), 0xF6);
    assert_eq!(tile_mask(true, Some("not json")), 0xFF);
    assert_eq!(tile_mask(true, None), 0xFF);
    assert_eq!(tile_mask(false, Some(r#"{"left":true}"#)), 0);
    assert_eq!(walk_flags(r#"{"bottomright":true,"topleft":false}"#), vec![None, None, None, None, Some(false), None, Some(true), None]);
}

#[test]
fn dijkstra_stops_early_in_long_corridors() {
    let tiles: Vec<(i32, i32)> = (0..10).map(|x| (x, 0)).collect();
    let p = MovementPolicy::default();
    assert_eq!(shortest_path_in_set((0, 0), (1, 0), &tiles, &p, 1024, 1448).0, Some(1024));
    let (cost, path) = shortest_path_in_set((0, 0), (9, 0), &tiles, &p, 1024, 1448);
    assert_eq!(cost, Some(9 * 1024));
    assert_eq!(path.unwrap().len(), 10);
    assert_eq!(shortest_path_in_set((3, 0), (7, 0), &tiles, &p, 10, 14).0, Some(40));
}

#[test]
fn dijkstra_walks_around_gaps() {
    // A U-shaped set: the direct row is broken at (1, 0).
    let tiles = vec![(0, 0), (0, 1), (0, 2), (1, 2), (2, 2), (2, 1), (2, 0)];
    let p = MovementPolicy { allow_diagonals: false, allow_corner_cut: false, unit_radius_tiles: 1 };
    let (cost, path) = shortest_path_in_set((0, 0), (2, 0), &tiles, &p, 1, 1);
    assert_eq!(cost, Some(6));
    assert_eq!(path.unwrap(), tiles);
}

#[test]
fn intra_edges_on_a_longer_cluster() {
    let tiles: Vec<(i32, i32)> = (0..6).map(|x| (x, 0)).collect();
    let es = vec![entrance(1, 1, 0, 0, Dir::W), entrance(2, 1, 5, 0, Dir::E)];
    let owners = OwnerMap::from_tiles(&tiles.iter().map(|&(x, y)| ClusterTile { cluster_id: 1, x, y }).collect());
    let exits = exit_clusters(&owners, 1, &es);
    let rows = intra_edges_for_cluster(&MovementPolicy::default(), 0, &tiles, &es, &exits, 1024, 1448, true).unwrap();
    assert_eq!(rows.len(), 2);
    assert!(rows.iter().all(|r| r.cost == 5 * 1024 && r.path_blob.as_ref().map(|b| b.len()) == Some(24)));
}

#[test]
fn reconciled_grid_drops_one_way_moves() {
    let mut raw = grid_of(&[(0, 0), (1, 0), (0, 1)], ALL);
    raw.set_mask(1, 0, ALL & !(1 << 0));
    let g = reconcile_grid(&raw, &vec![(0, 0), (1, 0), (0, 1)]);
    assert_eq!(g.mask_at(0, 0) & (1 << 2), 0);
    assert_eq!(g.mask_at(0, 0) & (1 << 3), 1 << 3);
    assert_eq!(g.mask_at(5, 5), 0);
    let p = MovementPolicy::default();
    assert!(!can_step(&p, &g, 0, 0, 1, 0));
    assert!(can_step(&p, &g, 0, 0, 0, 1));
}

#[test]
fn cluster_tiles_each_have_a_step_partner() {
    let tiles = vec![(0, 0), (1, 0), (2, 0), (0, 1), (5, 5)];
    let g = grid_of(&tiles, ALL);
    let p = MovementPolicy::default();
    let comps = cluster_components(&p, &g, &tiles);
    assert_eq!(comps.len(), 2);
    for c in &comps {
        if c.len() > 1 {
            for &t in c {
                assert!(c.iter().any(|&u| u != t && can_step(&p, &g, t.0, t.1, u.0, u.1)));
            }
        }
    }
    assert_eq!(comps[1], vec![(5, 5)]);
}

#[test]
fn blocked_steps_split_clusters() {
    // (0,0) and (1,0) are adjacent, but (1,0) refuses moves to the left.
    let mut g = grid_of(&[(0, 0), (1, 0)], ALL);
    g.set_mask(1, 0, ALL & !(1 << 0));
    let comps = cluster_components(&MovementPolicy::default(), &g, &vec![(1, 0), (0, 0)]);
    assert_eq!(comps, vec![vec![(0, 0)], vec![(1, 0)]]);
}

#[test]
fn dijkstra_breaks_ties_towards_the_smaller_predecessor() {
    let p = MovementPolicy { allow_diagonals: false, allow_corner_cut: false, unit_radius_tiles: 1 };
    let tiles = vec![(0, 0), (1, 0), (0, 1), (1, 1)];
    let (cost, path) = shortest_path_in_set((0, 0), (1, 1), &tiles, &p, 1024, 1448);
    assert_eq!(cost, Some(2048));
    assert_eq!(path.unwrap(), vec![(0, 0), (0, 1), (1, 1)]);
    let mut shuffled = tiles.clone();
    shuffled.reverse();
    assert_eq!(shortest_path_in_set((0, 0), (1, 1), &shuffled, &p, 1024, 1448), (Some(2048), Some(vec![(0, 0), (0, 1), (1, 1)])));
    let (_, back) = shortest_path_in_set((1, 1), (0, 0), &tiles, &p, 1024, 1448);
    assert_eq!(back.unwrap(), vec![(1, 1), (0, 1), (0, 0)]);
}

#[test]
fn dijkstra_path_to_itself_is_the_tile() {
    let tiles = vec![(3, 3)];
    assert_eq!(shortest_path_in_set((3, 3), (3, 3), &tiles, &MovementPolicy::default(), 1024, 1448), (Some(0), Some(vec![(3, 3)])));
}
