use ant_mania::{
    Ants, Coord, DestructionEvent, HiveLine, HiveMap, LoadError, MOVES, Node, PlacementError,
    direction_slot, generate_hive_name, generate_spiral_coords, live_neighbors, load_lines,
    place_ants, simulate, step, surviving_lines,
};

fn line(name: &str, conns: &[(&str, &str)]) -> HiveLine {
    HiveLine {
        name: name.to_string(),
        connections: conns.iter().map(|(d, t)| (d.to_string(), t.to_string())).collect(),
    }
}

fn map_of(lines: Vec<HiveLine>) -> HiveMap {
    match load_lines(&lines) {
        Ok(m) => m,
        Err(e) => panic!("load failed: {:?}", e),
    }
}

fn two_nodes() -> HiveMap {
    map_of(vec![line("A", &[("east", "B")]), line("B", &[("west", "A")])])
}

fn grid(side: i32) -> HiveMap {
    let name = |x: i32, y: i32| format!("N{}_{}", x, y);
    let mut lines = Vec::new();
    for x in 0..side {
        for y in 0..side {
            let mut conns = Vec::new();
            if y + 1 < side {
                conns.push(("north".to_string(), name(x, y + 1)));
            }
            if x > 0 {
                conns.push(("west".to_string(), name(x - 1, y)));
            }
            if y > 0 {
                conns.push(("south".to_string(), name(x, y - 1)));
            }
            if x + 1 < side {
                conns.push(("east".to_string(), name(x + 1, y)));
            }
            lines.push(HiveLine { name: name(x, y), connections: conns });
        }
    }
    map_of(lines)
}

fn live_refs_to(map: &HiveMap, t: usize) -> usize {
    map.graph
        .iter()
        .filter(|n| n.neighbor_count >= 0)
        .filter(|n| n.valid_neighbors.contains(&t) || n.neighbors.contains(&(t as isize)))
        .count()
}

#[test]
fn isolated_node_terminates_without_destruction() {
    let mut map = map_of(vec![line("Solo", &[])]);
    let mut ants = place_ants(&mut map, 1).unwrap();
    let events = simulate(&mut map, &mut ants);
    assert!(events.is_empty());
    assert_eq!(ants.finished_or_dead_ants, 1);
    assert!(ants.nodes_with_ants.is_empty());
}

#[test]
fn two_nodes_collide_exactly_once() {
    let mut map = two_nodes();
    assert!(map.is_consistent());
    let mut ants = place_ants(&mut map, 2).unwrap();
    let events = simulate(&mut map, &mut ants);
    assert_eq!(events.len(), 1);
    let ev: &DestructionEvent = &events[0];
    let mut ids = vec![ev.ant1, ev.ant2];
    ids.sort();
    assert_eq!(ids, vec![0, 1]);
    assert_eq!(map.graph[ev.hive_index].neighbor_count, -1);
    assert_eq!(map.graph[ev.hive_index].present_ant, -1);
    assert_eq!(live_refs_to(&map, ev.hive_index), 0);
    assert_eq!(ants.finished_or_dead_ants, 2);
    assert!(map.is_consistent());
}

#[test]
fn placement_puts_each_agent_on_its_own_node() {
    let mut map = grid(3);
    let ants = place_ants(&mut map, 5).unwrap();
    assert_eq!(ants.all_ants, 5);
    assert_eq!(ants.nodes_with_ants.len(), 5);
    let mut occupants: Vec<isize> = map.graph.iter().map(|n| n.present_ant).filter(|a| *a >= 0).collect();
    occupants.sort();
    assert_eq!(occupants, vec![0, 1, 2, 3, 4]);
    for (k, &node) in ants.nodes_with_ants.iter().enumerate() {
        assert_eq!(map.graph[node].present_ant, k as isize);
        assert!(ants.nodes_with_ants_set.contains(&node));
    }
    assert_eq!(ants.ant_to_moves, vec![0; 5]);
    assert_eq!(ants.finished_or_dead_ants, 0);
}

#[test]
fn placement_fills_every_node() {
    let mut map = grid(2);
    let ants = place_ants(&mut map, 4).unwrap();
    assert_eq!(map.graph.iter().filter(|n| n.present_ant >= 0).count(), 4);
    assert_eq!(ants.nodes_with_ants_set.len(), 4);
}

#[test]
fn placement_rejects_more_agents_than_nodes() {
    let mut map = two_nodes();
    match place_ants(&mut map, 3) {
        Err(e) => assert_eq!(e, PlacementError { requested: 3, available: 2 }),
        Ok(_) => panic!("expected an error"),
    }
    assert!(map.graph.iter().all(|n| n.present_ant == -1));
}

#[test]
fn agent_reaching_the_cap_stays_on_the_board() {
    let mut map = two_nodes();
    map.graph[0].present_ant = 0;
    let mut ants = Ants {
        nodes_with_ants: vec![0],
        nodes_with_ants_set: [0usize].into_iter().collect(),
        all_ants: 1,
        finished_or_dead_ants: 0,
        ant_to_moves: vec![MOVES - 1],
    };
    let r = step(&mut map, &mut ants, 0, 0);
    assert!(r.is_none());
    assert_eq!(ants.ant_to_moves[0], MOVES);
    assert_eq!(ants.finished_or_dead_ants, 1);
    assert_eq!(ants.nodes_with_ants, vec![1]);
    assert_eq!(map.graph[1].present_ant, 0);
    assert_eq!(map.graph[0].present_ant, -1);
    // still eligible: it keeps moving without being counted again
    let r = step(&mut map, &mut ants, 0, 0);
    assert!(r.is_none());
    assert_eq!(ants.ant_to_moves[0], MOVES + 1);
    assert_eq!(ants.finished_or_dead_ants, 1);
    assert_eq!(ants.nodes_with_ants, vec![0]);
}

#[test]
fn capped_agent_still_dies_in_a_collision() {
    let mut map = two_nodes();
    map.graph[0].present_ant = 0;
    map.graph[1].present_ant = 1;
    let mut ants = Ants {
        nodes_with_ants: vec![0, 1],
        nodes_with_ants_set: [0usize, 1].into_iter().collect(),
        all_ants: 2,
        finished_or_dead_ants: 1,
        ant_to_moves: vec![MOVES, 3],
    };
    let r = step(&mut map, &mut ants, 0, 0).unwrap();
    assert_eq!((r.hive_index, r.ant1, r.ant2), (1, 0, 1));
    assert_eq!(ants.finished_or_dead_ants, 2);
    assert_eq!(ants.nodes_with_ants, vec![1]);
    assert_eq!(map.graph[1].neighbor_count, -1);
    assert_eq!(map.graph[0].neighbor_count, 0);
    assert!(map.graph[0].valid_neighbors.is_empty());
    // the occupant's stale entry is dropped on its next pick
    assert!(step(&mut map, &mut ants, 0, 0).is_none());
    assert!(ants.nodes_with_ants.is_empty());
    assert_eq!(ants.finished_or_dead_ants, 2);
}

#[test]
fn stranded_agent_is_counted_and_removed() {
    let mut map = map_of(vec![line("A", &[]), line("B", &[])]);
    let mut ants = place_ants(&mut map, 2).unwrap();
    assert!(step(&mut map, &mut ants, 1, 0).is_none());
    assert_eq!(ants.finished_or_dead_ants, 1);
    assert_eq!(ants.nodes_with_ants.len(), 1);
}

#[test]
fn destroy_severs_back_edges() {
    let mut map = map_of(vec![
        line("A", &[("east", "B")]),
        line("B", &[("west", "A"), ("east", "C")]),
        line("C", &[("west", "B")]),
    ]);
    map.destroy(1);
    assert_eq!(map.graph[1].neighbor_count, -1);
    assert_eq!(map.graph[0].neighbors, [-1, -1, -1, -1]);
    assert_eq!(map.graph[0].neighbor_count, 0);
    assert_eq!(map.graph[2].neighbors, [-1, -1, -1, -1]);
    assert!(map.graph[2].valid_neighbors.is_empty());
    assert!(map.is_consistent());
}

#[test]
fn asymmetric_map_is_not_consistent() {
    let map = map_of(vec![line("A", &[("east", "B")]), line("B", &[])]);
    assert!(!map.is_consistent());
    assert!(two_nodes().is_consistent());
}

#[test]
fn grid_simulation_keeps_the_map_consistent() {
    let mut map = grid(6);
    let mut ants = place_ants(&mut map, 20).unwrap();
    let events = simulate(&mut map, &mut ants);
    assert_eq!(ants.finished_or_dead_ants, ants.all_ants);
    assert!(map.is_consistent());
    let mut seen = std::collections::HashSet::new();
    for ev in &events {
        assert!(seen.insert(ev.hive_index));
        assert_eq!(map.graph[ev.hive_index].neighbor_count, -1);
        assert_eq!(live_refs_to(&map, ev.hive_index), 0);
        assert_ne!(ev.ant1, ev.ant2);
    }
    for n in &map.graph {
        if n.neighbor_count >= 0 {
            assert_eq!(n.valid_neighbors.len(), n.neighbor_count as usize);
            for &v in &n.valid_neighbors {
                assert!(map.graph[v].neighbor_count >= 0);
            }
        }
    }
}

#[test]
fn load_reports_duplicate_names() {
    let lines = vec![line("A", &[]), line("B", &[]), line("A", &[])];
    match load_lines(&lines) {
        Err(LoadError::DuplicateName(n)) => assert_eq!(n, "A"),
        _ => panic!("expected a duplicate name"),
    }
}

#[test]
fn load_drops_unknown_directions_and_targets() {
    let map = map_of(vec![
        line("A", &[("up", "B"), ("north", "Nowhere"), ("south", "B"), ("east", "B")]),
        line("B", &[("north", "A")]),
    ]);
    assert_eq!(map.index_to_name, vec!["A".to_string(), "B".to_string()]);
    assert_eq!(map.name_to_index["B"], 1);
    assert_eq!(map.graph[0].neighbors, [-1, -1, 1, 1]);
    assert_eq!(map.graph[0].neighbor_count, 2);
    assert_eq!(map.graph[0].valid_neighbors, vec![1, 1]);
    assert_eq!(map.graph[1].neighbors, [0, -1, -1, -1]);
    assert_eq!(map.graph[1].present_ant, -1);
}

#[test]
fn direction_words_map_to_slots() {
    assert_eq!(direction_slot(&"north".to_string()), Some(0));
    assert_eq!(direction_slot(&"west".to_string()), Some(1));
    assert_eq!(direction_slot(&"south".to_string()), Some(2));
    assert_eq!(direction_slot(&"east".to_string()), Some(3));
    assert_eq!(direction_slot(&"North".to_string()), None);
}

#[test]
fn live_neighbors_keeps_slot_order() {
    assert_eq!(live_neighbors(&[3, -1, 0, 7]), vec![3, 0, 7]);
    assert_eq!(live_neighbors(&[-1, -1, -1, -1]), Vec::<usize>::new());
    let n = Node { neighbor_count: 1, neighbors: [-1, 2, -1, -1], valid_neighbors: vec![2], present_ant: -1 };
    assert!(n.is_consistent(3));
    assert!(!n.is_consistent(2));
}

#[test]
fn spiral_walks_rings_outward() {
    let c = generate_spiral_coords(10);
    let got: Vec<(i32, i32)> = c.iter().map(|p| (p.x, p.y)).collect();
    assert_eq!(
        got,
        vec![(0, 0), (1, 0), (0, 1), (-1, 0), (0, -1), (2, 0), (1, 1), (0, 2), (-1, 1), (-2, 0)]
    );
    assert!(generate_spiral_coords(0).is_empty());
    assert_eq!(generate_spiral_coords(1).len(), 1);
    let ring2 = generate_spiral_coords(13);
    assert_eq!((ring2[12].x, ring2[12].y), (1, -1));
    let next = generate_spiral_coords(14);
    assert_eq!((next[13].x, next[13].y), (3, 0));
}

#[test]
fn coord_steps() {
    let c = Coord::new(2, -3);
    assert_eq!(c.north(), Coord::new(2, -2));
    assert_eq!(c.south(), Coord::new(2, -4));
    assert_eq!(c.east(), Coord::new(3, -3));
    assert_eq!(c.west(), Coord::new(1, -3));
}

#[test]
fn hive_names_are_signed_and_padded() {
    assert_eq!(generate_hive_name(Coord::new(0, -1)), "Hive_+000_-001");
    assert_eq!(generate_hive_name(Coord::new(12, 345)), "Hive_+012_+345");
}

fn edges(map: &HiveMap) -> Vec<(String, usize, String)> {
    let mut out = Vec::new();
    for (i, n) in map.graph.iter().enumerate() {
        if n.neighbor_count >= 0 {
            for (k, &t) in n.neighbors.iter().enumerate() {
                if t >= 0 {
                    out.push((map.index_to_name[i].clone(), k, map.index_to_name[t as usize].clone()));
                }
            }
        }
    }
    out
}

#[test]
fn surviving_lines_write_live_nodes_in_slot_order() {
    let mut map = map_of(vec![
        line("A", &[("east", "B"), ("north", "C")]),
        line("B", &[("west", "A")]),
        line("C", &[("south", "A")]),
    ]);
    map.destroy(1);
    let lines = surviving_lines(&map);
    assert_eq!(lines.len(), 2);
    assert_eq!(lines[0].name, "A");
    assert_eq!(lines[0].connections, vec![("north".to_string(), "C".to_string())]);
    assert_eq!(lines[1].name, "C");
    assert_eq!(lines[1].connections, vec![("south".to_string(), "A".to_string())]);
}

#[test]
fn written_map_reloads_to_the_same_graph() {
    let mut map = grid(5);
    let mut ants = place_ants(&mut map, 12).unwrap();
    simulate(&mut map, &mut ants);
    let reloaded = map_of(surviving_lines(&map));
    let live: Vec<String> = map
        .graph
        .iter()
        .enumerate()
        .filter(|(_, n)| n.neighbor_count >= 0)
        .map(|(i, _)| map.index_to_name[i].clone())
        .collect();
    assert_eq!(reloaded.index_to_name, live);
    assert_eq!(edges(&reloaded), edges(&map));
    assert!(reloaded.is_consistent());
}

#[test]
fn later_connection_of_a_direction_wins() {
    let map = map_of(vec![
        line("A", &[("north", "B"), ("north", "C"), ("north", "Missing")]),
        line("B", &[]),
        line("C", &[]),
    ]);
    assert_eq!(map.graph[0].neighbors, [2, -1, -1, -1]);
    assert_eq!(map.graph[0].valid_neighbors, vec![2]);
    assert_eq!(map.graph[0].neighbor_count, 1);
    assert_eq!(map.name_to_index.len(), 3);
    assert_eq!(map.name_to_index["C"], 2);
}

#[test]
fn hive_names_of_wide_and_negative_values() {
    assert_eq!(generate_hive_name(Coord::new(-1234, 7)), "Hive_-1234_+007");
    assert_eq!(generate_hive_name(Coord::new(0, 0)), "Hive_+000_+000");
    assert_eq!(generate_hive_name(Coord::new(i32::MIN, 99)), "Hive_-2147483648_+099");
}

#[test]
fn stuck_agents_end_the_run_at_once() {
    let mut map = map_of(vec![line("A", &[]), line("B", &[]), line("C", &[])]);
    let mut ants = place_ants(&mut map, 3).unwrap();
    let events = simulate(&mut map, &mut ants);
    assert!(events.is_empty());
    assert_eq!(ants.finished_or_dead_ants, 3);
    assert_eq!(map.graph.iter().filter(|n| n.present_ant >= 0).count(), 3);
}
