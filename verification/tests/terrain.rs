use noise::NoiseFn;
use noise::Perlin;
use terrain::HEIGHT_ONE;
use terrain::heightmap::TerrainError;
use terrain::heightmap::isqrt;
use terrain::heightmap::sample_grid;
use terrain::mesh::SurfaceMesh;
use terrain::mesh::SurfaceNormal;
use terrain::mesh::Vertex;
use terrain::mesh::build;
use terrain::raster::rasterize;

/// Sample a Perlin noise field over the grid the library plans, in the
/// planned order, converting each value to fixed-point ticks.
fn generate(width: usize, height: usize, scale: f64, seed: u32) -> Result<Vec<i64>, TerrainError> {
    let scale_milli = (scale * 1000.0) as u64;
    let grid = sample_grid(width, height, scale_milli)?;
    let perlin = Perlin::new(seed);
    Ok(grid
        .into_iter()
        .map(|(x, y)| {
            let v = perlin.get([(x as f64) / scale, (y as f64) / scale]);
            (v * (HEIGHT_ONE as f64)) as i64
        })
        .collect())
}

#[test]
fn generate_length_is_square() {
    for n in [2usize, 3, 5, 10] {
        let hm = generate(n, n, 50.0, 1337).unwrap();
        assert_eq!(hm.len(), n * n);
    }
}

#[test]
fn generate_is_deterministic() {
    let a = generate(8, 8, 25.0, 42).unwrap();
    let b = generate(8, 8, 25.0, 42).unwrap();
    assert_eq!(a, b);
}

#[test]
fn generate_rejects_zero_parameters() {
    assert_eq!(sample_grid(0, 4, 50_000), Err(TerrainError::InvalidParameter));
    assert_eq!(sample_grid(4, 0, 50_000), Err(TerrainError::InvalidParameter));
    assert_eq!(sample_grid(4, 4, 0), Err(TerrainError::InvalidParameter));
}

#[test]
fn sample_grid_is_row_major() {
    let grid = sample_grid(3, 2, 1_000).unwrap();
    assert_eq!(grid, vec![(0, 0), (1, 0), (2, 0), (0, 1), (1, 1), (2, 1)]);
}

#[test]
fn generated_values_are_in_range_and_not_flat() {
    let hm = generate(16, 16, 3.0, 7).unwrap();
    assert!(hm.iter().all(|&h| -HEIGHT_ONE <= h && h <= HEIGHT_ONE));
    let lo = hm.iter().min().unwrap();
    let hi = hm.iter().max().unwrap();
    assert!(lo < hi, "a coherent noise field over many cells is not flat");
}

#[test]
fn smaller_frequency_means_smoother_field() {
    let smooth = generate(32, 32, 100.0, 7).unwrap();
    let rough = generate(32, 32, 2.0, 7).unwrap();
    let mean_delta = |hm: &Vec<i64>| -> f64 {
        let mut total = 0.0;
        let mut count = 0.0;
        for y in 0..32usize {
            for x in 0..31usize {
                let a = hm[y * 32 + x];
                let b = hm[y * 32 + x + 1];
                total += (a - b).abs() as f64;
                count += 1.0;
            }
        }
        total / count
    };
    assert!(mean_delta(&smooth) < mean_delta(&rough));
}

#[test]
fn isqrt_rounds_down() {
    assert_eq!(isqrt(0), 0);
    assert_eq!(isqrt(1), 1);
    assert_eq!(isqrt(3), 1);
    assert_eq!(isqrt(4), 2);
    assert_eq!(isqrt(24), 4);
    assert_eq!(isqrt(25), 5);
    assert_eq!(isqrt(u64::MAX), 4_294_967_295);
}

fn check_mesh_invariants(m: &SurfaceMesh, n: usize) {
    assert_eq!(m.size, n);
    assert_eq!(m.positions.len(), n * n);
    assert_eq!(m.normals.len(), n * n);
    let quads = if n == 0 { 0 } else { 6 * (n - 1) * (n - 1) };
    assert_eq!(m.indices.len(), quads);
    assert!(m.indices.iter().all(|&i| (i as usize) < n * n));
}

#[test]
fn mesh_invariants_hold_for_many_sizes() {
    for n in [1usize, 2, 3, 5, 8] {
        let hm = generate(n, n, 50.0, 1337).unwrap();
        let m = build(&hm);
        check_mesh_invariants(&m, n);
    }
}

#[test]
fn mesh_truncates_non_square_input() {
    let hm: Vec<i64> = vec![0, 0, 0, 0, 0];
    let m = build(&hm);
    check_mesh_invariants(&m, 2);
}

#[test]
fn mesh_positions_and_indices_are_exact() {
    let hm: Vec<i64> = vec![0, HEIGHT_ONE, -HEIGHT_ONE, 0];
    let m = build(&hm);
    assert_eq!(m.positions[0], Vertex { x: 0, y: 0, z: 0 });
    assert_eq!(m.positions[1], Vertex { x: 1, y: 655_360, z: 0 });
    assert_eq!(m.positions[2], Vertex { x: 0, y: -655_360, z: 1 });
    assert_eq!(m.positions[3], Vertex { x: 1, y: 0, z: 1 });
    assert_eq!(m.indices, vec![0, 2, 1, 1, 2, 3]);
}

#[test]
fn interior_normal_is_exact() {
    let mut hm: Vec<i64> = vec![0; 9];
    hm[3] = HEIGHT_ONE;
    hm[1] = 0;
    hm[7] = HEIGHT_ONE;
    let m = build(&hm);
    assert_eq!(m.normals[4], SurfaceNormal { x: 26_755, y: 53_510, z: -26_755 });
}

#[test]
fn boundary_normals_are_zero_and_interior_normals_are_unit() {
    let hm = generate(4, 4, 50.0, 1337).unwrap();
    let m = build(&hm);
    let zero = SurfaceNormal { x: 0, y: 0, z: 0 };
    let mut interior = 0;
    for y in 0..4usize {
        for x in 0..4usize {
            let n = &m.normals[y * 4 + x];
            if x == 0 || y == 0 || x == 3 || y == 3 {
                assert_eq!(*n, zero);
            } else {
                interior += 1;
                let one = HEIGHT_ONE as f64;
                let (nx, ny, nz) = (n.x as f64 / one, n.y as f64 / one, n.z as f64 / one);
                let length = (nx * nx + ny * ny + nz * nz).sqrt();
                assert!((length - 1.0).abs() < 1e-3, "normal length {length}");
            }
        }
    }
    assert_eq!(interior, 4);
}

#[test]
fn rasterize_pins_extreme_and_out_of_range_heights() {
    let hm: Vec<i64> = vec![
        -HEIGHT_ONE,
        HEIGHT_ONE,
        0,
        2 * HEIGHT_ONE,
        -2 * HEIGHT_ONE,
        HEIGHT_ONE / 2,
        -HEIGHT_ONE / 2,
        0,
        0,
    ];
    let img = rasterize(&hm);
    assert_eq!(img.size, 3);
    assert_eq!(img.pixels, vec![0, 255, 127, 255, 0, 191, 63, 127, 127]);
}

#[test]
fn rasterize_is_monotone_in_height() {
    let mut heights: Vec<i64> = Vec::new();
    let mut h = -3 * HEIGHT_ONE;
    while h <= 3 * HEIGHT_ONE {
        heights.push(h);
        h += 777;
    }
    let mut last = 0u8;
    for &v in &heights {
        let img = rasterize(&vec![v]);
        assert_eq!(img.pixels.len(), 1);
        assert!(img.pixels[0] >= last);
        last = img.pixels[0];
    }
}

#[test]
fn zero_heightmap_rasterizes_uniform_mid_gray() {
    let hm: Vec<i64> = vec![0; 49];
    let img = rasterize(&hm);
    assert_eq!(img.size, 7);
    assert!(img.pixels.iter().all(|&p| p == 127));
}

#[test]
fn png_encoding_succeeds_for_any_nonzero_raster() {
    for n in [1usize, 2, 9, 100] {
        let hm: Vec<i64> = vec![0; n];
        let img = rasterize(&hm);
        assert!(img.size > 0);
        assert!(img.to_png().is_some());
    }
}

#[test]
fn png_bytes_decode_back_to_the_raster() {
    let hm: Vec<i64> = vec![0; 16];
    let img = rasterize(&hm);
    let png = img.to_png().unwrap();
    assert_eq!(&png[..8], &[137, 80, 78, 71, 13, 10, 26, 10]);
    assert_ne!(png, img.pixels);
    let decoded = image::load_from_memory(&png).unwrap().to_luma8();
    assert_eq!(decoded.dimensions(), (4, 4));
    assert!(decoded.pixels().all(|p| p.0[0] == 127));
}

#[test]
fn end_to_end_four_by_four_scenario() {
    let hm = generate(4, 4, 50.0, 1337).unwrap();
    assert_eq!(hm.len(), 16);
    assert!(hm.iter().all(|&h| -HEIGHT_ONE <= h && h <= HEIGHT_ONE));
    assert_eq!(hm, generate(4, 4, 50.0, 1337).unwrap());

    let m = build(&hm);
    assert_eq!(m.positions.len(), 16);
    assert_eq!(m.indices.len(), 54);
    assert!(m.indices.iter().all(|&i| i < 16));
    for (i, p) in m.positions.iter().enumerate() {
        assert_eq!(p.x as usize, i % 4);
        assert_eq!(p.z as usize, i / 4);
        assert_eq!(p.y, hm[i] * 10);
    }

    let img = rasterize(&hm);
    assert_eq!(img.size, 4);
    assert_eq!(img.pixels.len(), 16);
}
