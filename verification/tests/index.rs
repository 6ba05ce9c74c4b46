use hnsw_rs::api::AnnT;
use hnsw_rs::error::HnswError;
use hnsw_rs::hnsw::Hnsw;
use hnsw_rs::metric::{DistL1, DistL2, Metric};
use hnsw_rs::search::Neighbour;

fn next(state: &mut u64) -> u64 {
    *state = state
        .wrapping_mul(6364136223846793005)
        .wrapping_add(1442695040888963407);
    *state >> 33
}

fn random_vectors(n: usize, dim: usize, seed: u64) -> Vec<Vec<i32>> {
    let mut state: u64 = seed;
    let mut all: Vec<Vec<i32>> = Vec::new();
    for _ in 0..n {
        let mut v: Vec<i32> = Vec::new();
        for _ in 0..dim {
            v.push((next(&mut state) % 1000) as i32);
        }
        all.push(v);
    }
    all
}

fn build(points: &[Vec<i32>], m: usize, ef_c: usize) -> Hnsw<'static, i32, DistL2> {
    let dim: usize = points[0].len();
    let mut h: Hnsw<i32, DistL2> = Hnsw::new(dim, m, points.len() + 1, 16, ef_c, DistL2);
    for (i, p) in points.iter().enumerate() {
        assert_eq!(h.insert(p, i), Ok(i));
    }
    h
}

fn brute_force(points: &[Vec<i32>], q: &[i32], k: usize) -> Vec<usize> {
    let mut all: Vec<(u32, usize)> = Vec::new();
    for (i, p) in points.iter().enumerate() {
        all.push((DistL2.eval(q, p), i));
    }
    all.sort();
    all.truncate(k);
    all.iter().map(|x| x.1).collect()
}

fn overlap(found: &[Neighbour], truth: &[usize]) -> usize {
    found.iter().filter(|n| truth.contains(&n.p_id)).count()
}

fn assert_symmetric_and_bounded<T, D>(h: &Hnsw<T, D>) {
    for a in 0..h.links.len() {
        for l in 0..h.links[a].len() {
            let bound: usize = if l == 0 { h.params.m_max0 } else { h.params.m_max };
            assert!(h.links[a][l].len() <= bound);
            for e in h.links[a][l].iter() {
                assert_ne!(e.id, a);
                assert!(l < h.links[e.id].len());
                assert!(h.links[e.id][l].iter().any(|r| r.id == a));
            }
        }
    }
}

#[test]
fn thousand_points_exact_match_first() {
    let points = random_vectors(1000, 16, 7);
    let h = build(&points, 16, 200);
    let r = h.search(&points[42], 5, 50).unwrap();
    assert_eq!(r.len(), 5);
    assert_eq!(r[0].d_id, 42);
    assert_eq!(f32::from_bits(r[0].distance), 0.0);
    for i in 1..5 {
        assert!(f32::from_bits(r[i - 1].distance) <= f32::from_bits(r[i].distance));
    }
}

#[test]
fn edges_run_both_ways_after_insertions() {
    let points = random_vectors(400, 8, 11);
    let h = build(&points, 6, 40);
    assert_symmetric_and_bounded(&h);
}

#[test]
fn degrees_stay_bounded_with_backfill() {
    let points = random_vectors(300, 4, 3);
    let mut h: Hnsw<i32, DistL2> = Hnsw::new(4, 4, 300, 16, 30, DistL2);
    h.set_keeping_pruned(true);
    for (i, p) in points.iter().enumerate() {
        assert_eq!(h.insert(p, i), Ok(i));
    }
    assert_eq!(h.params.m_max0, 8);
    assert_eq!(h.params.m_max, 4);
    assert_symmetric_and_bounded(&h);
}

#[test]
fn wider_beam_does_not_lose_recall() {
    let points = random_vectors(600, 8, 23);
    let h = build(&points, 8, 60);
    let queries = random_vectors(20, 8, 99);
    let mut narrow: usize = 0;
    let mut wide: usize = 0;
    for q in queries.iter() {
        let truth = brute_force(&points, q, 10);
        narrow += overlap(&h.search(q, 10, 10).unwrap(), &truth);
        wide += overlap(&h.search(q, 10, 200).unwrap(), &truth);
    }
    assert!(wide >= narrow);
    assert!(wide >= 180);
}

#[test]
fn exact_match_after_insert() {
    let points = random_vectors(200, 6, 5);
    let mut h = build(&points, 8, 50);
    let v: Vec<i32> = vec![1, 2, 3, 4, 5, 6];
    assert_eq!(h.insert(&v, 777), Ok(200));
    let r = h.search(&v, 1, 201).unwrap();
    assert_eq!(r.len(), 1);
    assert_eq!(r[0].d_id, 777);
    assert_eq!(r[0].p_id, 200);
    assert_eq!(r[0].distance, 0);
}

#[test]
fn full_width_search_is_exact() {
    let points = random_vectors(150, 5, 17);
    let h = build(&points, 8, 50);
    let queries = random_vectors(10, 5, 2);
    for q in queries.iter() {
        let truth = brute_force(&points, q, 7);
        let r = h.search(q, 7, 150).unwrap();
        let ids: Vec<usize> = r.iter().map(|n| n.p_id).collect();
        assert_eq!(ids, truth);
    }
}

#[test]
fn batch_search_equals_single_searches() {
    let points = random_vectors(300, 8, 31);
    let h = build(&points, 8, 60);
    let queries = random_vectors(12, 8, 77);
    let batch = h.parallel_search_neighbours(&queries, 5, 30);
    assert_eq!(batch.len(), queries.len());
    for (i, q) in queries.iter().enumerate() {
        assert_eq!(batch[i], h.search_neighbours(q, 5, 30));
    }
}

#[test]
fn batch_insert_reports_each_item() {
    let mut h: Hnsw<i32, DistL1> = Hnsw::new(2, 4, 3, 16, 10, DistL1);
    let a: Vec<i32> = vec![0, 0];
    let b: Vec<i32> = vec![1, 2, 3];
    let c: Vec<i32> = vec![5, 5];
    let d: Vec<i32> = vec![9, 9];
    let e: Vec<i32> = vec![7, 7];
    let batch = vec![(&a, 10), (&b, 11), (&c, 12), (&d, 13), (&e, 14)];
    let r = h.parallel_insert_data(&batch);
    assert_eq!(
        r,
        vec![
            Ok(0),
            Err(HnswError::DimensionMismatch),
            Ok(1),
            Ok(2),
            Err(HnswError::CapacityExceeded)
        ]
    );
    assert_eq!(h.get_nb_point(), 3);
    assert_eq!(h.ext_ids, vec![10, 12, 13]);
    assert_eq!(h.get_point_data(0), Some(a.clone()));
    assert_eq!(h.get_point_data(1), Some(c.clone()));
    assert_eq!(h.get_point_data(2), Some(d.clone()));
    assert_eq!(h.get_point_data(3), None);
}

#[test]
fn search_on_empty_index_is_empty() {
    let h: Hnsw<i32, DistL2> = Hnsw::new(3, 8, 10, 16, 20, DistL2);
    assert_eq!(h.search(&[1, 2, 3], 4, 10), Ok(vec![]));
    assert_eq!(h.entry_point(), None);
}

#[test]
fn search_for_no_neighbour_is_empty() {
    let points = random_vectors(20, 3, 1);
    let h = build(&points, 4, 10);
    assert_eq!(h.search(&points[0], 0, 10), Ok(vec![]));
}

#[test]
fn search_refuses_wrong_dimension() {
    let points = random_vectors(20, 3, 1);
    let h = build(&points, 4, 10);
    assert_eq!(h.search(&[1, 2], 3, 10), Err(HnswError::DimensionMismatch));
    assert_eq!(h.search_neighbours(&[1, 2, 3, 4], 3, 10), Err(HnswError::DimensionMismatch));
}

#[test]
fn narrow_beam_counts_as_k() {
    let points = random_vectors(100, 4, 8);
    let h = build(&points, 8, 40);
    let q: Vec<i32> = vec![500, 500, 500, 500];
    assert_eq!(h.search(&q, 10, 1), h.search(&q, 10, 10));
    assert_eq!(h.search(&q, 10, 1).unwrap().len(), 10);
}

#[test]
fn first_insertion_is_entry_point_without_neighbours() {
    let mut h: Hnsw<i32, DistL2> = Hnsw::new(2, 8, 10, 16, 20, DistL2);
    assert_eq!(h.insert_at_layer(&[3, 4], 99, 2), Ok(0));
    assert_eq!(h.entry_point(), Some((0, 2)));
    assert_eq!(h.links[0].len(), 3);
    assert!(h.links[0].iter().all(|l| l.is_empty()));
    let r = h.search(&[0, 0], 3, 10).unwrap();
    assert_eq!(r.len(), 1);
    assert_eq!(r[0], Neighbour { d_id: 99, distance: 5.0f32.to_bits(), p_id: 0 });
}

#[test]
fn higher_node_becomes_entry_point() {
    let mut h: Hnsw<i32, DistL2> = Hnsw::new(1, 8, 10, 16, 20, DistL2);
    assert_eq!(h.insert_at_layer(&[0], 0, 1), Ok(0));
    assert_eq!(h.insert_at_layer(&[10], 1, 1), Ok(1));
    assert_eq!(h.entry_point(), Some((0, 1)));
    assert_eq!(h.insert_at_layer(&[20], 2, 3), Ok(2));
    assert_eq!(h.entry_point(), Some((2, 3)));
    // node 0 is farther from the new node than from node 1, so it is not selected
    let at_one: Vec<usize> = h.links[2][1].iter().map(|e| e.id).collect();
    assert_eq!(at_one, vec![1]);
    assert!(h.links[2][2].is_empty());
    assert_eq!(h.insert_at_layer(&[30], 3, 40), Ok(3));
    assert_eq!(h.entry_point(), Some((3, 15)));
    assert_symmetric_and_bounded(&h);
}

#[test]
fn equal_distances_rank_by_internal_id() {
    let mut h: Hnsw<i32, DistL1> = Hnsw::new(1, 8, 10, 16, 20, DistL1);
    assert_eq!(h.insert(&[5], 30), Ok(0));
    assert_eq!(h.insert(&[-5], 20), Ok(1));
    assert_eq!(h.insert(&[5], 10), Ok(2));
    let r = h.search(&[0], 3, 10).unwrap();
    let ids: Vec<usize> = r.iter().map(|n| n.p_id).collect();
    assert_eq!(ids, vec![0, 1, 2]);
    let tags: Vec<usize> = r.iter().map(|n| n.get_origin_id()).collect();
    assert_eq!(tags, vec![30, 20, 10]);
    assert!(r.iter().all(|n| n.get_distance() == 5.0f32.to_bits()));
}

#[test]
fn insert_refuses_wrong_dimension_and_overflow() {
    let mut h: Hnsw<i32, DistL2> = Hnsw::new(2, 8, 1, 16, 20, DistL2);
    assert_eq!(h.insert(&[1], 0), Err(HnswError::DimensionMismatch));
    assert_eq!(h.get_nb_point(), 0);
    assert_eq!(h.insert(&[1, 1], 0), Ok(0));
    assert_eq!(h.insert(&[2, 2], 1), Err(HnswError::CapacityExceeded));
    assert_eq!(h.insert_data(&[2, 2, 2], 1), Err(HnswError::DimensionMismatch));
    assert_eq!(h.get_nb_point(), 1);
}

#[test]
fn parameters_are_brought_into_range() {
    let h: Hnsw<u8, DistL2> = Hnsw::new(4, 0, 10, 0, 0, DistL2);
    assert_eq!(h.params.m, 1);
    assert_eq!(h.params.m_max0, 2);
    assert_eq!(h.params.max_layers, 1);
    assert_eq!(h.params.ef_construction, 1);
    assert_eq!(h.params.level_base, 2);
    let g: Hnsw<u8, DistL2> = Hnsw::new(4, 1000, 10, 100, 7, DistL2);
    assert_eq!(h.get_datamap_opt(), false);
    assert_eq!(g.params.m, 256);
    assert_eq!(g.params.m_max0, 512);
    assert_eq!(g.params.max_layers, 16);
    assert_eq!(g.params.ef_construction, 7);
    assert_eq!(g.params.level_base, 256);
}

#[test]
fn same_seed_gives_same_graph() {
    let points = random_vectors(120, 4, 13);
    let mut a: Hnsw<i32, DistL2> = Hnsw::new(4, 6, 120, 16, 30, DistL2);
    let mut b: Hnsw<i32, DistL2> = Hnsw::new(4, 6, 120, 16, 30, DistL2);
    a.set_seed(12345);
    b.set_seed(12345);
    for (i, p) in points.iter().enumerate() {
        a.insert(p, i).unwrap();
        b.insert(p, i).unwrap();
    }
    assert_eq!(a.links, b.links);
    assert_eq!(a.entry, b.entry);
}

#[test]
fn error_names() {
    assert_eq!(HnswError::DimensionMismatch.as_str(), "dimension mismatch");
    assert_eq!(HnswError::CapacityExceeded.as_str(), "capacity exceeded");
    assert_eq!(HnswError::FormatError.as_str(), "format error");
}

#[test]
fn a_node_that_its_only_neighbour_drops_is_not_reached() {
    let mut h: Hnsw<i32, DistL2> = Hnsw::new(2, 1, 10, 16, 10, DistL2);
    assert_eq!(h.insert_at_layer(&[0, 0], 0, 0), Ok(0));
    assert_eq!(h.insert_at_layer(&[10, 0], 1, 0), Ok(1));
    assert_eq!(h.insert_at_layer(&[-10, 0], 2, 0), Ok(2));
    // the nearest node has its two neighbours already, both nearer to it
    assert_eq!(h.insert_at_layer(&[0, 15], 3, 0), Ok(3));
    assert!(h.links[3][0].is_empty());
    let ids: Vec<usize> = h.links[0][0].iter().map(|e| e.id).collect();
    assert_eq!(ids, vec![1, 2]);
    assert_symmetric_and_bounded(&h);
    let r = h.search(&[0, 15], 1, 4).unwrap();
    assert_eq!(r[0].p_id, 0);
    assert_eq!(f32::from_bits(r[0].distance), 15.0);
}

fn fill_and_find<A: AnnT<Val = i32>>(index: &mut A) -> Vec<usize> {
    assert_eq!(index.insert_data(&[0, 0], 5), Ok(0));
    assert_eq!(index.insert_data(&[4, 3], 6), Ok(1));
    assert_eq!(index.insert_data(&[8, 6], 7), Ok(2));
    let r = index.search_neighbours(&[1, 1], 2, 10).unwrap();
    r.iter().map(|n| n.d_id).collect()
}

#[test]
fn index_behind_the_capability() {
    let mut h: Hnsw<i32, DistL2> = Hnsw::new(2, 4, 10, 16, 10, DistL2);
    assert_eq!(fill_and_find(&mut h), vec![5, 6]);
    assert_eq!(h.get_nb_point(), 3);
}

#[test]
fn getters() {
    let mut h: Hnsw<i32, DistL2> = Hnsw::new(2, 4, 10, 16, 10, DistL2);
    assert_eq!(h.get_max_nb_connection(), 4);
    assert_eq!(h.get_ef_construction(), 10);
    assert_eq!(h.get_max_level(), 16);
    assert_eq!(h.get_max_level_observed(), 0);
    assert_eq!(h.get_point_data(0), None);
    assert_eq!(h.insert_at_layer(&[7, 8], 1, 2), Ok(0));
    assert_eq!(h.get_max_level_observed(), 3);
    assert_eq!(h.get_point_data(0), Some(vec![7, 8]));
    assert_eq!(h.get_point_data(1), None);
}

#[test]
fn a_repeated_caller_id_names_two_points() {
    let mut h: Hnsw<i32, DistL1> = Hnsw::new(1, 4, 10, 16, 10, DistL1);
    assert_eq!(h.insert(&[1], 9), Ok(0));
    assert_eq!(h.insert(&[2], 9), Ok(1));
    let r = h.search(&[1], 2, 10).unwrap();
    assert_eq!(r.len(), 2);
    assert_eq!((r[0].d_id, r[0].p_id), (9, 0));
    assert_eq!((r[1].d_id, r[1].p_id), (9, 1));
}

#[test]
fn selection_keeps_a_candidate_only_if_no_kept_one_is_nearer_to_it() {
    // on a line: 0, 10, and the new point 20
    let mut h: Hnsw<i32, DistL2> = Hnsw::new(1, 8, 10, 16, 20, DistL2);
    assert_eq!(h.insert_at_layer(&[0], 0, 0), Ok(0));
    assert_eq!(h.insert_at_layer(&[10], 1, 0), Ok(1));
    assert_eq!(h.insert_at_layer(&[20], 2, 0), Ok(2));
    // 10 is kept; 0 is at 20 from the new point but at 10 from 10
    let kept: Vec<(usize, f32)> =
        h.links[2][0].iter().map(|e| (e.id, f32::from_bits(e.dist))).collect();
    assert_eq!(kept, vec![(1, 10.0)]);
    // a point on the other side of 0 is nearer to 0 than to any kept one
    assert_eq!(h.insert_at_layer(&[-7], 3, 0), Ok(3));
    let kept: Vec<usize> = h.links[3][0].iter().map(|e| e.id).collect();
    assert_eq!(kept, vec![0]);
    let of_zero: Vec<(usize, f32)> =
        h.links[0][0].iter().map(|e| (e.id, f32::from_bits(e.dist))).collect();
    assert_eq!(of_zero, vec![(3, 7.0), (1, 10.0)]);
}

#[test]
fn selection_fills_up_with_rejected_candidates_when_asked() {
    let mut h: Hnsw<i32, DistL2> = Hnsw::new(1, 8, 10, 16, 20, DistL2);
    h.set_keeping_pruned(true);
    assert_eq!(h.insert_at_layer(&[0], 0, 0), Ok(0));
    assert_eq!(h.insert_at_layer(&[10], 1, 0), Ok(1));
    assert_eq!(h.insert_at_layer(&[20], 2, 0), Ok(2));
    let kept: Vec<(usize, f32)> =
        h.links[2][0].iter().map(|e| (e.id, f32::from_bits(e.dist))).collect();
    assert_eq!(kept, vec![(1, 10.0), (0, 20.0)]);
    assert_symmetric_and_bounded(&h);
}

#[test]
fn a_node_over_its_bound_drops_what_selection_does_not_keep() {
    // one neighbour above the lowest layer, two at the lowest
    let mut h: Hnsw<i32, DistL1> = Hnsw::new(1, 1, 10, 16, 10, DistL1);
    assert_eq!(h.insert_at_layer(&[0], 0, 1), Ok(0));
    assert_eq!(h.insert_at_layer(&[10], 1, 1), Ok(1));
    assert_eq!(h.insert_at_layer(&[4], 2, 1), Ok(2));
    // at layer 1 node 0 had node 1 and got node 2, which is nearer: it keeps node 2
    let at_one: Vec<Vec<usize>> =
        (0..3).map(|a| h.links[a][1].iter().map(|e| e.id).collect()).collect();
    assert_eq!(at_one, vec![vec![2], vec![], vec![0]]);
    let at_zero: Vec<Vec<usize>> =
        (0..3).map(|a| h.links[a][0].iter().map(|e| e.id).collect()).collect();
    // at layer 0 two neighbours are allowed, and 10 is nearer to 4 than to 0
    assert_eq!(at_zero, vec![vec![2, 1], vec![2, 0], vec![0, 1]]);
    assert_symmetric_and_bounded(&h);
}

#[test]
fn full_width_keeps_every_true_neighbour_that_a_narrow_beam_finds() {
    let points = random_vectors(250, 6, 61);
    let h = build(&points, 4, 20);
    for q in random_vectors(25, 6, 62).iter() {
        let truth = brute_force(&points, q, 8);
        let full: Vec<usize> = h.search(q, 8, 250).unwrap().iter().map(|n| n.p_id).collect();
        for ef in [1usize, 8, 9, 20, 100] {
            for n in h.search(q, 8, ef).unwrap().iter() {
                if truth.contains(&n.p_id) {
                    assert!(full.contains(&n.p_id));
                }
            }
        }
        assert_eq!(h.search(q, 8, 3), h.search(q, 8, 8));
    }
}
