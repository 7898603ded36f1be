use integer_programming::city::{City, Euclidean};

fn city(name: &str, long: (u32, u32), lat: (u32, u32)) -> City {
    City {
        name: name.to_string(),
        long,
        lat,
        x: 0,
        y: 0,
    }
}

/// Five cities, placed on the grid.
fn cities() -> Vec<City> {
    vec![
        city("Moscow", (37, 37), (55, 45)),
        city("Saint Petersburg", (30, 19), (59, 57)),
        city("Kazan", (49, 7), (55, 47)),
        city("Novosibirsk", (82, 55), (55, 2)),
        city("Sochi", (39, 43), (43, 35)),
    ]
    .into_iter()
    .map(City::calculate_coordinates)
    .collect()
}

fn euclidean(a: &City, b: &City) -> f32 {
    (Euclidean::squared_distance(a, b) as f32).sqrt()
}

fn archaversine(a: &City, b: &City) -> f32 {
    let radians = |angle: (u32, u32)| (angle.0 as f32 + angle.1 as f32 / 60.0).to_radians();
    let (lat_a, lat_b) = (radians(a.lat), radians(b.lat));
    let (long_a, long_b) = (radians(a.long), radians(b.long));
    2.0 * 6371.0
        * (((1.0 - (lat_a - lat_b).cos()) + lat_a.cos() * lat_b.cos() * (1.0 - (long_a - long_b).cos()))
            / 2.0)
            .sqrt()
            .asin()
}

/// A minimum spanning tree of the cities, grown from the first city, and the
/// distances it was built on.
fn mst(distance: fn(&City, &City) -> f32) -> ((Vec<(usize, usize)>, Vec<Vec<f32>>), Vec<City>) {
    let cities = cities();
    let n = cities.len();
    let distances: Vec<Vec<f32>> = cities
        .iter()
        .map(|a| cities.iter().map(|b| distance(a, b)).collect())
        .collect();
    let mut reached = vec![false; n];
    reached[0] = true;
    let mut edges = Vec::new();
    for _ in 1..n {
        let mut best: Option<(usize, usize)> = None;
        for a in (0..n).filter(|a| reached[*a]) {
            for b in (0..n).filter(|b| !reached[*b]) {
                if best.map_or(true, |(p, q)| distances[a][b] < distances[p][q]) {
                    best = Some((a, b));
                }
            }
        }
        let (a, b) = best.expect("a city is left to reach");
        reached[b] = true;
        edges.push((a, b));
    }
    ((edges, distances), cities)
}

fn check_mst(distance: fn(&City, &City) -> f32) {
    let ((edges, distances), cities) = mst(distance);

    let mut covered: Vec<usize> = edges.iter().flat_map(|x| [x.0, x.1]).collect();
    covered.sort();
    covered.dedup();
    assert_eq!(
        covered,
        (0..cities.len()).collect::<Vec<_>>(),
        "Spanning tree does not cover the whole graph"
    );

    println!("Number of cities: {}", cities.len());
    println!("Number of edges in MST: {}", edges.len());
    println!(
        "Total weight sum: {}",
        edges.iter().map(|x| distances[x.0][x.1]).sum::<f32>()
    );
}

struct PlotData {
    target: String,
    edges: Vec<((u32, u32), (u32, u32))>,
    cities: (Vec<u32>, Vec<u32>),
}

fn plot_mst(distance: fn(&City, &City) -> f32, name: &str) -> PlotData {
    let ((edges, _), cities) = mst(distance);
    PlotData {
        target: format!("{}.png", name),
        edges: edges
            .into_iter()
            .map(|(a, b)| ((cities[a].x, cities[b].x), (cities[a].y, cities[b].y)))
            .collect(),
        cities: (
            cities.iter().map(|c| c.x).collect(),
            cities.iter().map(|c| c.y).collect(),
        ),
    }
}

#[test]
fn tests_mst_euclidean() {
    check_mst(euclidean);
}

#[test]
fn tests_mst_archaversine() {
    check_mst(archaversine);
}

#[test]
fn mst_plot_euclidean() {
    let plot = plot_mst(euclidean, "Euclidean");
    assert_eq!(plot.target, "Euclidean.png");
    assert_eq!(plot.edges.len(), 4);
    assert_eq!(plot.cities.0, vec![2257, 1819, 2947, 4975, 2383]);
    assert_eq!(plot.cities.1, vec![3345, 3597, 3347, 3302, 2615]);
}

#[test]
fn mst_plot_archaversine() {
    let plot = plot_mst(archaversine, "Archaversine");
    assert_eq!(plot.target, "Archaversine.png");
    assert_eq!(plot.edges.len(), 4);
    for ((x_from, x_to), (y_from, y_to)) in plot.edges {
        assert!(plot.cities.0.contains(&x_from) && plot.cities.0.contains(&x_to));
        assert!(plot.cities.1.contains(&y_from) && plot.cities.1.contains(&y_to));
    }
}

#[test]
fn coordinates_are_minutes() {
    let placed = city("Moscow", (37, 37), (55, 45)).calculate_coordinates();
    assert_eq!(placed.x, 60 * 37 + 37);
    assert_eq!(placed.y, 60 * 55 + 45);
    assert_eq!(placed.name, "Moscow");
    assert_eq!(placed.long, (37, 37));
    assert_eq!(placed.lat, (55, 45));

    let origin = city("Origin", (0, 0), (0, 0)).calculate_coordinates();
    assert_eq!((origin.x, origin.y), (0, 0));
}

#[test]
fn squared_distance_is_symmetric_and_exact() {
    let a = city("A", (0, 3), (0, 0)).calculate_coordinates();
    let b = city("B", (0, 0), (0, 4)).calculate_coordinates();
    assert_eq!(Euclidean::squared_distance(&a, &b), 25);
    assert_eq!(Euclidean::squared_distance(&b, &a), 25);
    assert_eq!(Euclidean::squared_distance(&a, &a), 0);

    let far = City {
        name: "Far".to_string(),
        long: (0, 0),
        lat: (0, 0),
        x: u32::MAX,
        y: u32::MAX,
    };
    let near = City {
        name: "Near".to_string(),
        long: (0, 0),
        lat: (0, 0),
        x: 0,
        y: 0,
    };
    let side = u32::MAX as u128;
    assert_eq!(Euclidean::squared_distance(&far, &near), 2 * side * side);
}
