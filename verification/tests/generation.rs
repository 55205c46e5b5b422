use worldgen::biome::{generate_biomes, node_type_for_biome, Biome, ResourceNodeType};
use worldgen::city::spawn_cities;
use worldgen::geom::{area, centroid, dist_sq_val, isqrt, Vec2i};
use worldgen::map::{generate_map, generate_sites, GenError, RawCell};
use worldgen::resource::{spawn_resource_nodes, Resource};
use worldgen::rng::RandomStream;
use worldgen::road::{bezier_path, pathfind, spawn_node_roads};
use worldgen::settings::MapGenSettings;
use worldgen::world::{generate_world, plan_sites};

fn square_cell(x0: i64, y0: i64, side: i64) -> RawCell {
    RawCell {
        site: Vec2i { x: x0 + side / 2, y: y0 + side / 2 },
        border: vec![
            Vec2i { x: x0, y: y0 },
            Vec2i { x: x0 + side, y: y0 },
            Vec2i { x: x0 + side, y: y0 + side },
            Vec2i { x: x0, y: y0 + side },
        ],
        height: 500,
    }
}

/// A 2x2 grid of unit-square cells with 4-neighbor adjacency.
fn grid_size() -> Vec2i {
    Vec2i { x: 2000, y: 2000 }
}

fn grid_cells() -> (Vec<RawCell>, Vec<Vec<usize>>) {
    let cells = vec![
        square_cell(0, 0, 1000),
        square_cell(1000, 0, 1000),
        square_cell(0, 1000, 1000),
        square_cell(1000, 1000, 1000),
    ];
    let adjacency = vec![vec![1, 2], vec![0, 3], vec![0, 3], vec![1, 2]];
    (cells, adjacency)
}

fn default_settings() -> MapGenSettings {
    MapGenSettings {
        size: Vec2i { x: 2000, y: 2000 },
        sector_num: 4,
        lloyd_iters: 0,
        generator_border: 0,
        altitude_perlin_scale: 4000,
        biome_seed_num: 2,
        city_num: 2,
        city_min_spacing: 100,
        city_start_pop_range: (10, 1000),
        city_deadzone: 100,
        nodes_per_city_range: (1, 3),
        node_city_max_dist: 4000,
        node_city_min_dist: 1,
        node_min_spacing: 1,
        node_deadzone: 100,
        seed: 7,
    }
}

#[test]
fn rng_matches_wyrand_reference() {
    let mut ours = RandomStream::new(0xDEADBEEF);
    let mut theirs = wyrand::WyRand::new(0xDEADBEEF);
    for _ in 0..64 {
        assert_eq!(ours.next_u64(), theirs.rand());
    }
}

#[test]
fn rng_is_reproducible() {
    let mut a = RandomStream::new(42);
    let mut b = RandomStream::new(42);
    for _ in 0..32 {
        assert_eq!(a.next_u64(), b.next_u64());
    }
}

#[test]
fn isqrt_exact_values() {
    assert_eq!(isqrt(0), 0);
    assert_eq!(isqrt(1), 1);
    assert_eq!(isqrt(3), 1);
    assert_eq!(isqrt(4), 2);
    assert_eq!(isqrt(999_999), 999);
    assert_eq!(isqrt(1_000_000), 1000);
    assert_eq!(isqrt(u64::MAX as u128), 0xFFFF_FFFF);
}

#[test]
fn square_area_and_centroid() {
    let border = vec![
        Vec2i { x: 0, y: 0 },
        Vec2i { x: 1000, y: 0 },
        Vec2i { x: 1000, y: 1000 },
        Vec2i { x: 0, y: 1000 },
    ];
    assert_eq!(area(&border), 2_000_000);
    let c = centroid(&border).unwrap();
    assert_eq!(c, Vec2i { x: 500, y: 500 });
}

#[test]
fn clockwise_square_same_centroid() {
    let border = vec![
        Vec2i { x: 0, y: 1000 },
        Vec2i { x: 1000, y: 1000 },
        Vec2i { x: 1000, y: 0 },
        Vec2i { x: 0, y: 0 },
    ];
    assert_eq!(area(&border), -2_000_000);
    let c = centroid(&border).unwrap();
    assert_eq!(c, Vec2i { x: 500, y: 500 });
}

#[test]
fn node_type_rule() {
    assert_eq!(node_type_for_biome(Biome::Plains), Some(ResourceNodeType::Farm));
    assert_eq!(node_type_for_biome(Biome::Forest), Some(ResourceNodeType::Lumbermill));
    assert_eq!(node_type_for_biome(Biome::Mountains), Some(ResourceNodeType::Mine));
    assert_eq!(node_type_for_biome(Biome::Desert), None);
    assert_eq!(node_type_for_biome(Biome::Water), None);
}

#[test]
fn generate_map_builds_symmetric_graph() {
    let (cells, adjacency) = grid_cells();
    let g = generate_map(&cells, &adjacency, grid_size()).unwrap();
    assert_eq!(g.sectors.len(), 4);
    for (i, s) in g.sectors.iter().enumerate() {
        for &j in &s.neighbors {
            assert!(g.sectors[j].neighbors.contains(&i), "neighbors not symmetric");
        }
        assert!(s.biome.is_none());
        assert_eq!(s.cost, 1000);
    }
    // One-sided input adjacency still yields both directions.
    let one_sided = vec![vec![1, 2], vec![3], vec![3], vec![]];
    let g2 = generate_map(&cells, &one_sided, grid_size()).unwrap();
    for (i, s) in g2.sectors.iter().enumerate() {
        for &j in &s.neighbors {
            assert!(g2.sectors[j].neighbors.contains(&i));
        }
    }
    assert!(g2.sectors[3].neighbors.contains(&1));
    assert!(g2.sectors[3].neighbors.contains(&2));
}

#[test]
fn generate_map_rejects_too_few_cells() {
    let cells = vec![square_cell(0, 0, 1000), square_cell(1000, 0, 1000)];
    let adjacency = vec![vec![1], vec![0]];
    assert_eq!(generate_map(&cells, &adjacency, grid_size()).unwrap_err(), GenError::TooFewSites);
}

#[test]
fn generate_map_rejects_degenerate_cell() {
    let (mut cells, adjacency) = grid_cells();
    cells[1].border = vec![Vec2i { x: 0, y: 0 }, Vec2i { x: 1000, y: 0 }];
    assert_eq!(generate_map(&cells, &adjacency, grid_size()).unwrap_err(), GenError::DegenerateCell);
}

#[test]
fn sector_lookup_rejects_stale_key() {
    let (cells, adjacency) = grid_cells();
    let g = generate_map(&cells, &adjacency, grid_size()).unwrap();
    assert!(g.sector(3).is_ok());
    assert_eq!(g.sector(4).unwrap_err(), GenError::UnknownSector);
}

#[test]
fn biomes_cover_connected_graph() {
    let (cells, adjacency) = grid_cells();
    let mut g = generate_map(&cells, &adjacency, grid_size()).unwrap();
    let mut rng = RandomStream::new(11);
    let seeds = generate_biomes(&mut g, &mut rng, 2);
    for s in &g.sectors {
        let b = s.biome.expect("every sector must get a biome");
        assert!(matches!(b, Biome::Plains | Biome::Forest | Biome::Desert));
    }
    // Every chosen seed sector keeps exactly its own seed's biome.
    assert!(!seeds.is_empty() && seeds.len() <= 2);
    for sd in &seeds {
        assert_eq!(g.sectors[sd.sector].biome, Some(sd.biome));
    }
}

#[test]
fn zero_biome_seeds_leave_all_none() {
    let (cells, adjacency) = grid_cells();
    let mut g = generate_map(&cells, &adjacency, grid_size()).unwrap();
    let mut rng = RandomStream::new(11);
    generate_biomes(&mut g, &mut rng, 0);
    for s in &g.sectors {
        assert!(s.biome.is_none());
    }
}

fn name_pool() -> Vec<String> {
    vec![
        "Aldford".to_string(),
        "Briarton".to_string(),
        "Caldwell".to_string(),
        "Dunmore".to_string(),
        "Eastvale".to_string(),
        "Fernley".to_string(),
    ]
}

/// A settled 2x2 world used by the placement tests.
fn settled_world() -> worldgen::map::SectorGraph {
    let (cells, adjacency) = grid_cells();
    let mut g = generate_map(&cells, &adjacency, grid_size()).unwrap();
    let mut rng = RandomStream::new(3);
    generate_biomes(&mut g, &mut rng, 3);
    g
}

#[test]
fn cities_respect_constraints() {
    let g = settled_world();
    let settings = default_settings();
    let mut rng = RandomStream::new(5);
    let mut names = name_pool();
    let cities = spawn_cities(&g, &mut rng, &settings, &mut names);
    assert!(cities.len() <= settings.city_num as usize);
    for (i, c) in cities.iter().enumerate() {
        let host = &g.sectors[c.sector];
        assert_eq!(c.position, host.centroid);
        assert!(c.position.x > settings.city_deadzone);
        assert!(c.position.x < settings.size.x - settings.city_deadzone);
        assert!(c.position.y > settings.city_deadzone);
        assert!(c.position.y < settings.size.y - settings.city_deadzone);
        assert!(matches!(host.biome, Some(Biome::Plains) | Some(Biome::Desert)));
        assert!(c.population >= 10 && c.population < 1000);
        for (j, d) in cities.iter().enumerate() {
            if i != j {
                let min_sq =
                    settings.city_min_spacing as i128 * settings.city_min_spacing as i128;
                assert!(dist_sq_val(c.position, d.position) >= min_sq);
                assert_ne!(c.sector, d.sector);
                assert_ne!(c.name, d.name);
            }
        }
    }
}

#[test]
fn zero_cities_requested_yields_empty_list() {
    let g = settled_world();
    let mut settings = default_settings();
    settings.city_num = 0;
    let mut rng = RandomStream::new(5);
    let mut names = name_pool();
    let cities = spawn_cities(&g, &mut rng, &settings, &mut names);
    assert!(cities.is_empty());
    assert_eq!(names.len(), name_pool().len());
}

#[test]
fn resource_nodes_match_biome_rule() {
    let g = settled_world();
    let settings = default_settings();
    let mut rng = RandomStream::new(5);
    let mut names = name_pool();
    let mut cities = spawn_cities(&g, &mut rng, &settings, &mut names);
    let nodes = spawn_resource_nodes(&g, &mut cities, &mut rng, &settings);
    for nd in &nodes {
        let host = &g.sectors[nd.sector];
        let expected = node_type_for_biome(host.biome.unwrap());
        assert_eq!(expected, Some(nd.node_type));
        let kind = match nd.node_type {
            ResourceNodeType::Farm => Resource::Wheat,
            ResourceNodeType::Mine => Resource::Ore,
            ResourceNodeType::Lumbermill => Resource::Lumber,
        };
        assert_eq!(nd.produces, kind);
        assert!(!matches!(host.biome.unwrap(), Biome::Desert | Biome::Water));
        let own = &cities[nd.city];
        let d_own = dist_sq_val(nd.position, own.position);
        let max_sq = settings.node_city_max_dist as i128 * settings.node_city_max_dist as i128;
        assert!(d_own <= max_sq);
        for (j, other) in cities.iter().enumerate() {
            if j != nd.city {
                assert!(d_own < dist_sq_val(nd.position, other.position));
            }
        }
    }
    for (ci, c) in cities.iter().enumerate() {
        for &idx in &c.resource_nodes {
            assert_eq!(nodes[idx].city, ci);
        }
        assert!(c.resource_nodes.len() < settings.nodes_per_city_range.1 as usize);
        assert!(c.resource_nodes.windows(2).all(|w| w[0] < w[1]));
    }
    for (k, nd) in nodes.iter().enumerate() {
        assert!(cities[nd.city].resource_nodes.contains(&k));
    }
}

/// A 1x4 strip where the middle sectors can be made expensive, to check
/// that the path search optimises total cost, not hop count.
#[test]
fn pathfind_returns_cheapest_route() {
    // Square ring of four sectors: 0-1-3-2-0.
    let (cells, adjacency) = grid_cells();
    let mut g = generate_map(&cells, &adjacency, grid_size()).unwrap();
    // Make sector 1 very expensive: the best 0 -> 3 route goes through 2.
    g.sectors[1].cost = 1_000_000;
    let path = pathfind(&g, 0, 3).unwrap();
    assert_eq!(path.first(), Some(&0));
    assert_eq!(path.last(), Some(&3));
    assert_eq!(path, vec![0, 2, 3]);
    let mut seen = path.clone();
    seen.sort();
    seen.dedup();
    assert_eq!(seen.len(), path.len(), "path repeats a sector");
}

#[test]
fn pathfind_rejects_stale_keys_and_unreachable_pairs() {
    let (cells, _) = grid_cells();
    // Two disconnected pairs: 0-1 and 2-3.
    let adjacency = vec![vec![1], vec![0], vec![3], vec![2]];
    let g = generate_map(&cells, &adjacency, grid_size()).unwrap();
    assert_eq!(pathfind(&g, 0, 9).unwrap_err(), GenError::UnknownSector);
    assert_eq!(pathfind(&g, 0, 3).unwrap_err(), GenError::NoPathFound);
    assert!(pathfind(&g, 0, 1).is_ok());
}

#[test]
fn two_point_curve_is_straight_segment() {
    let a = Vec2i { x: 1000, y: 2000 };
    let b = Vec2i { x: 4000, y: 2000 };
    let curve = bezier_path(&vec![a, b], 8);
    assert_eq!(curve.len(), (2 + 1) * 8 + 1);
    assert_eq!(*curve.first().unwrap(), a);
    assert_eq!(*curve.last().unwrap(), b);
    for p in &curve {
        // Collinear with the horizontal segment and between its endpoints.
        assert_eq!(p.y, 2000);
        assert!(p.x >= a.x && p.x <= b.x);
    }
    let mut prev = curve[0].x;
    for p in &curve[1..] {
        assert!(p.x >= prev, "curve doubles back");
        prev = p.x;
    }
}

#[test]
fn roads_connect_cities_to_their_nodes() {
    let g = settled_world();
    let settings = default_settings();
    let mut rng = RandomStream::new(5);
    let mut names = name_pool();
    let mut cities = spawn_cities(&g, &mut rng, &settings, &mut names);
    let nodes = spawn_resource_nodes(&g, &mut cities, &mut rng, &settings);
    let roads = spawn_node_roads(&g, &cities, &nodes, 8);
    // The ring graph is connected, so every node gets its road.
    assert_eq!(roads.len(), nodes.len());
    for (t, road) in roads.iter().enumerate() {
        assert_eq!(road.node, t);
        assert_eq!(road.start_sector, cities[nodes[t].city].sector);
        assert_eq!(road.end_sector, nodes[t].sector);
        assert_eq!(*road.path.first().unwrap(), road.start_sector);
        assert_eq!(*road.path.last().unwrap(), road.end_sector);
        assert_eq!(road.curve.len(), (road.path.len() + 1) * 8 + 1);
        assert_eq!(road.speed_multiplier, 1000);
    }
}

/// Run voronoice on planned sites and convert its cells to builder input.
fn tessellate(
    plan_sites: &[Vec2i],
    size: Vec2i,
    lloyd_iters: usize,
) -> (Vec<RawCell>, Vec<Vec<usize>>) {
    let to_f = |v: i64| v as f64 / 1000.0;
    let boundary = voronoice::BoundingBox::new(
        voronoice::Point { x: to_f(size.x) / 2.0, y: to_f(size.y) / 2.0 },
        to_f(size.x),
        to_f(size.y),
    );
    let voronoi = voronoice::VoronoiBuilder::default()
        .set_sites(
            plan_sites
                .iter()
                .map(|p| voronoice::Point { x: to_f(p.x), y: to_f(p.y) })
                .collect(),
        )
        .set_bounding_box(boundary)
        .set_clip_behavior(voronoice::ClipBehavior::Clip)
        .set_lloyd_relaxation_iterations(lloyd_iters)
        .build()
        .unwrap();
    let clamp = |v: f64, hi: i64| -> i64 {
        let milli = (v * 1000.0).round() as i64;
        milli.max(0).min(hi)
    };
    let mut cells = Vec::new();
    let mut adjacency = Vec::new();
    for cell in voronoi.iter_cells() {
        let site = cell.site_position();
        cells.push(RawCell {
            site: Vec2i {
                x: (site.x * 1000.0).round() as i64,
                y: (site.y * 1000.0).round() as i64,
            },
            border: cell
                .iter_vertices()
                .map(|p| Vec2i { x: clamp(p.x, size.x), y: clamp(p.y, size.y) })
                .collect(),
            height: 500,
        });
        adjacency.push(cell.iter_neighbors().collect());
    }
    (cells, adjacency)
}

#[test]
fn tessellation_yields_one_connected_graph_with_full_area() {
    let mut settings = default_settings();
    settings.seed = 1;
    settings.size = Vec2i { x: 100_000, y: 100_000 };
    settings.sector_num = 50;
    settings.generator_border = 5_000;
    let plan = plan_sites(&settings).unwrap();
    assert!(plan.sites.len() >= 3);
    let (cells, adjacency) = tessellate(&plan.sites, settings.size, 2);
    let g = generate_map(&cells, &adjacency, settings.size).unwrap();
    // Every sector is reachable from sector zero, so the graph is one
    // connected component.
    for v in 0..g.sectors.len() {
        assert!(pathfind(&g, 0, v).is_ok(), "sector {} unreachable", v);
    }
    // The clipped cell areas sum to the area of the map rectangle.
    let total: f64 = g
        .sectors
        .iter()
        .map(|s| (area(&s.border).abs() as f64) / 2.0 / 1_000_000.0)
        .sum();
    let expected = 100.0 * 100.0;
    assert!(
        (total - expected).abs() < expected * 0.001,
        "area sum {} differs from {}",
        total,
        expected
    );
}

fn run_full_generation(seed: u64) -> (Vec<u64>, Vec<String>, Vec<usize>, Vec<Vec<usize>>) {
    let mut settings = default_settings();
    settings.seed = seed;
    settings.size = Vec2i { x: 100_000, y: 100_000 };
    settings.sector_num = 40;
    settings.generator_border = 5_000;
    settings.biome_seed_num = 6;
    settings.city_num = 3;
    settings.city_min_spacing = 10_000;
    settings.city_deadzone = 2_000;
    settings.node_city_max_dist = 60_000;
    settings.node_city_min_dist = 500;
    settings.node_min_spacing = 500;
    settings.node_deadzone = 1_000;
    let plan = plan_sites(&settings).unwrap();
    let (cells, adjacency) = tessellate(&plan.sites, settings.size, 2);
    let mut rng = plan.rng;
    let mut names = name_pool();
    let w = generate_world(&settings, &mut rng, &cells, &adjacency, &mut names).unwrap();
    let biome_fingerprint: Vec<u64> = w
        .graph
        .sectors
        .iter()
        .map(|s| match s.biome {
            None => 0,
            Some(Biome::Plains) => 1,
            Some(Biome::Forest) => 2,
            Some(Biome::Desert) => 3,
            Some(Biome::Mountains) => 4,
            Some(Biome::Water) => 5,
        })
        .collect();
    let names_out: Vec<String> = w.cities.iter().map(|c| c.name.clone()).collect();
    let city_sectors: Vec<usize> = w.cities.iter().map(|c| c.sector).collect();
    let road_paths: Vec<Vec<usize>> = w.roads.iter().map(|r| r.path.clone()).collect();
    (biome_fingerprint, names_out, city_sectors, road_paths)
}

#[test]
fn generation_is_deterministic_for_a_fixed_seed() {
    let first = run_full_generation(1);
    let second = run_full_generation(1);
    assert_eq!(first, second);
}

#[test]
fn world_lookups_report_stale_keys() {
    let mut settings = default_settings();
    settings.size = Vec2i { x: 100_000, y: 100_000 };
    settings.sector_num = 30;
    settings.generator_border = 5_000;
    settings.city_num = 2;
    settings.city_deadzone = 2_000;
    settings.node_deadzone = 1_000;
    settings.node_city_min_dist = 500;
    settings.node_min_spacing = 500;
    settings.node_city_max_dist = 80_000;
    let plan = plan_sites(&settings).unwrap();
    let (cells, adjacency) = tessellate(&plan.sites, settings.size, 1);
    let mut rng = plan.rng;
    let mut names = name_pool();
    let w = generate_world(&settings, &mut rng, &cells, &adjacency, &mut names).unwrap();
    assert_eq!(w.city(w.cities.len()).unwrap_err(), GenError::UnknownSector);
    assert_eq!(w.node(w.nodes.len()).unwrap_err(), GenError::UnknownSector);
    if !w.nodes.is_empty() {
        assert!(w.road_for_node(0).is_ok());
    }
}

#[test]
fn degenerate_settings_are_rejected() {
    let mut settings = default_settings();
    settings.size = Vec2i { x: 0, y: 1000 };
    let e = match plan_sites(&settings) {
        Ok(_) => panic!("degenerate size accepted"),
        Err(e) => e,
    };
    assert_eq!(e, GenError::DegenerateSize);
}

#[test]
fn too_small_name_pool_is_rejected() {
    let (cells, adjacency) = grid_cells();
    let mut settings = default_settings();
    settings.city_num = 10;
    let mut rng = RandomStream::new(1);
    let mut names = vec!["Solo".to_string()];
    let err = match generate_world(&settings, &mut rng, &cells, &adjacency, &mut names) {
        Ok(_) => panic!("undersized name pool accepted"),
        Err(e) => e,
    };
    assert_eq!(err, GenError::TooFewNames);
}

#[test]
fn site_sampler_keeps_minimum_gap() {
    let mut rng = RandomStream::new(9);
    let size = Vec2i { x: 50_000, y: 50_000 };
    let sites = generate_sites(&mut rng, size, 2_000, 40);
    assert!(sites.len() <= 40);
    for (i, a) in sites.iter().enumerate() {
        assert!(a.x >= -2_000 && a.x < size.x + 2_000);
        assert!(a.y >= -2_000 && a.y < size.y + 2_000);
        for (j, b) in sites.iter().enumerate() {
            if i != j {
                assert!(dist_sq_val(*a, *b) >= 1_000_000);
            }
        }
    }
}
