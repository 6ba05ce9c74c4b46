use hnsw_rs::api::AnnT;
use hnsw_rs::codec::{FORMAT_VERSION, GRAPH_MAGIC};
use hnsw_rs::data_stream::{read_vec_at, DATA_MAGIC};
use hnsw_rs::store::PointStore;
use hnsw_rs::dump::{choose_basename, data_file_name, decimal, graph_file_name, DumpMode};
use hnsw_rs::element::Element;
use hnsw_rs::error::HnswError;
use hnsw_rs::hnsw::{Hnsw, DEFAULT_SEED};
use hnsw_rs::metric::{DistL1, DistL2};
use hnsw_rs::words::{from_bytes, to_bytes};

fn next(state: &mut u64) -> u64 {
    *state = state
        .wrapping_mul(6364136223846793005)
        .wrapping_add(1442695040888963407);
    *state >> 33
}

fn random_vectors(n: usize, dim: usize, seed: u64) -> Vec<Vec<u16>> {
    let mut state: u64 = seed;
    let mut all: Vec<Vec<u16>> = Vec::new();
    for _ in 0..n {
        let mut v: Vec<u16> = Vec::new();
        for _ in 0..dim {
            v.push((next(&mut state) % 500) as u16);
        }
        all.push(v);
    }
    all
}

fn build(points: &[Vec<u16>]) -> Hnsw<'static, u16, DistL2> {
    let mut h: Hnsw<u16, DistL2> = Hnsw::new(points[0].len(), 6, 10_000, 16, 40, DistL2);
    for (i, p) in points.iter().enumerate() {
        assert_eq!(h.insert(p, 1000 + i), Ok(i));
    }
    h
}

fn small() -> Hnsw<'static, i32, DistL1> {
    let mut h: Hnsw<i32, DistL1> = Hnsw::new(2, 3, 50, 4, 9, DistL1);
    assert_eq!(h.insert_at_layer(&[1, 2], 70, 1), Ok(0));
    assert_eq!(h.insert_at_layer(&[3, -1], 71, 0), Ok(1));
    h
}

fn words(w: &[u64]) -> Vec<u8> {
    to_bytes(&w.to_vec())
}

#[test]
fn dump_then_load_gives_same_searches() {
    let points = random_vectors(300, 6, 4);
    let h = build(&points);
    let graph = h.dump_graph();
    let data = h.dump_data();
    for mapped in [false, true] {
        let back: Hnsw<u16, DistL2> = if mapped {
            Hnsw::load_mapped(&graph, &data, DistL2).unwrap()
        } else {
            Hnsw::load(&graph, &data, DistL2).unwrap()
        };
        assert_eq!(back.get_datamap_opt(), mapped);
        assert_eq!(back.store.points.len(), if mapped { 0 } else { 300 });
        assert!(back.validate());
        assert_eq!(back.params, h.params);
        for (i, p) in points.iter().enumerate() {
            assert_eq!(back.get_point_data(i).as_ref(), Some(p));
        }
        assert_eq!(back.get_point_data(300), None);
        assert_eq!(back.ext_ids, h.ext_ids);
        assert_eq!(back.links, h.links);
        assert_eq!(back.entry, h.entry);
        assert_eq!(back.rng, h.rng);
        for q in random_vectors(15, 6, 8).iter() {
            assert_eq!(back.search(q, 8, 40), h.search(q, 8, 40));
        }
    }
}

#[test]
fn loaded_index_takes_further_points_like_the_dumped_one() {
    let points = random_vectors(80, 4, 6);
    let mut h = build(&points);
    let mut back: Hnsw<u16, DistL2> =
        Hnsw::load(&h.dump_graph(), &h.dump_data(), DistL2).unwrap();
    for (i, p) in random_vectors(20, 4, 10).iter().enumerate() {
        assert_eq!(h.insert(p, i), back.insert(p, i));
    }
    assert_eq!(back.links, h.links);
}

#[test]
fn empty_index_round_trip() {
    let h: Hnsw<u8, DistL2> = Hnsw::new(3, 8, 10, 16, 20, DistL2);
    let graph = h.dump_graph();
    let data = h.dump_data();
    assert_eq!(graph.len(), 15 * 8);
    assert_eq!(data, words(&[DATA_MAGIC, 0, 3, 1]));
    let back: Hnsw<u8, DistL2> = Hnsw::load(&graph, &data, DistL2).unwrap();
    let lazy: Hnsw<u8, DistL2> = Hnsw::load_mapped(&graph, &data, DistL2).unwrap();
    assert_eq!(lazy.get_nb_point(), 0);
    assert!(lazy.get_datamap_opt());
    assert_eq!(back.get_nb_point(), 0);
    assert_eq!(back.entry_point(), None);
    assert_eq!(back.search(&[1, 2, 3], 2, 5), Ok(vec![]));
}

#[test]
fn graph_stream_layout() {
    let h = small();
    let expected: Vec<u64> = vec![
        GRAPH_MAGIC,
        FORMAT_VERSION,
        2,
        1,
        3,
        3,
        6,
        9,
        3,
        4,
        50,
        0,
        DEFAULT_SEED,
        2,
        1,
        // node 0: caller's id, two layers, one neighbour below, none above
        70,
        2,
        1,
        1,
        0,
        // node 1: caller's id, one layer, one neighbour
        71,
        1,
        1,
        0,
    ];
    assert_eq!(h.dump_graph(), to_bytes(&expected));
}

#[test]
fn data_stream_layout() {
    let h = small();
    let mut expected: Vec<u8> = words(&[DATA_MAGIC, 2, 2, 3]);
    expected.extend_from_slice(&[1, 0, 0, 0, 2, 0, 0, 0, 3, 0, 0, 0, 0xff, 0xff, 0xff, 0xff]);
    assert_eq!(h.dump_data(), expected);
    let at: usize = 32 + 1 * 2 * 4;
    assert_eq!(<i32 as Element>::get(&expected, at), 3);
    assert_eq!(<i32 as Element>::get(&expected, at + 4), -1);
}

#[test]
fn load_refuses_streams_cut_short() {
    let h = small();
    let graph = h.dump_graph();
    let data = h.dump_data();
    assert!(Hnsw::<i32, DistL1>::load(&graph, &data, DistL1).is_ok());
    for cut in [0usize, 7, 8, 119, 120, graph.len() - 8, graph.len() - 1] {
        let r = Hnsw::<i32, DistL1>::load(&graph[..cut], &data, DistL1);
        assert_eq!(r.err(), Some(HnswError::FormatError));
    }
    for cut in [0usize, 31, 32, data.len() - 4, data.len() - 1] {
        let r = Hnsw::<i32, DistL1>::load(&graph, &data[..cut], DistL1);
        assert_eq!(r.err(), Some(HnswError::FormatError));
    }
}

#[test]
fn load_refuses_trailing_bytes() {
    let h = small();
    let mut graph = h.dump_graph();
    let mut data = h.dump_data();
    data.push(0);
    assert_eq!(
        Hnsw::<i32, DistL1>::load(&graph, &data, DistL1).err(),
        Some(HnswError::FormatError)
    );
    data.pop();
    graph.extend_from_slice(&[0; 8]);
    assert_eq!(
        Hnsw::<i32, DistL1>::load(&graph, &data, DistL1).err(),
        Some(HnswError::FormatError)
    );
}

#[test]
fn load_refuses_other_format_metric_or_element() {
    let h = small();
    let graph = h.dump_graph();
    let data = h.dump_data();
    let mut w: Vec<u64> = from_bytes(&graph).unwrap();
    w[0] = GRAPH_MAGIC + 1;
    assert!(Hnsw::<i32, DistL1>::load(&to_bytes(&w), &data, DistL1).is_err());
    w[0] = GRAPH_MAGIC;
    w[1] = FORMAT_VERSION + 1;
    assert!(Hnsw::<i32, DistL1>::load(&to_bytes(&w), &data, DistL1).is_err());
    assert_eq!(
        Hnsw::<i32, DistL2>::load(&graph, &data, DistL2).err(),
        Some(HnswError::FormatError)
    );
    assert_eq!(
        Hnsw::<u16, DistL1>::load(&graph, &data, DistL1).err(),
        Some(HnswError::FormatError)
    );
    let mut d: Vec<u8> = data.clone();
    d[0] ^= 1;
    assert!(Hnsw::<i32, DistL1>::load(&graph, &d, DistL1).is_err());
}

#[test]
fn load_refuses_a_graph_that_is_not_well_formed() {
    let h = small();
    let data = h.dump_data();
    let good: Vec<u64> = from_bytes(&h.dump_graph()).unwrap();
    // a neighbour that is no node
    let mut w = good.clone();
    w[18] = 2;
    assert!(Hnsw::<i32, DistL1>::load(&to_bytes(&w), &data, DistL1).is_err());
    // an edge that runs one way only
    let mut w = good.clone();
    w.truncate(23);
    w[22] = 0;
    assert!(Hnsw::<i32, DistL1>::load(&to_bytes(&w), &data, DistL1).is_err());
    // a node that is its own neighbour
    let mut w = good.clone();
    w[18] = 0;
    assert!(Hnsw::<i32, DistL1>::load(&to_bytes(&w), &data, DistL1).is_err());
    // an entry point that is not at the top
    let mut w = good.clone();
    w[14] = 2;
    assert!(Hnsw::<i32, DistL1>::load(&to_bytes(&w), &data, DistL1).is_err());
    // no entry point though there are nodes
    let mut w = good.clone();
    w[14] = 0;
    assert!(Hnsw::<i32, DistL1>::load(&to_bytes(&w), &data, DistL1).is_err());
    // more layers than the index has
    let mut w = good.clone();
    w[9] = 1;
    assert!(Hnsw::<i32, DistL1>::load(&to_bytes(&w), &data, DistL1).is_err());
    // fewer nodes than vectors
    let mut w = good.clone();
    w[13] = 1;
    w.truncate(20);
    assert!(Hnsw::<i32, DistL1>::load(&to_bytes(&w), &data, DistL1).is_err());
    assert!(Hnsw::<i32, DistL1>::load(&to_bytes(&good), &data, DistL1).is_ok());
}

#[test]
fn validate_finds_a_broken_graph() {
    let points = random_vectors(60, 3, 12);
    let mut h = build(&points);
    assert!(h.validate());
    let e = h.links[5][0][0];
    h.links[5][0][0].dist = e.dist + 1;
    assert!(!h.validate());
    h.links[5][0][0].dist = e.dist;
    assert!(h.validate());
    let gone = h.links[5][0].remove(0);
    assert!(!h.validate());
    h.links[5][0].insert(0, gone);
    assert!(h.validate());
    h.entry = None;
    assert!(!h.validate());
}

#[test]
fn name_is_kept_unless_the_mapped_file_would_be_hit() {
    assert_eq!(choose_basename("dump", false, false, 77), "dump");
    assert_eq!(choose_basename("dump", false, true, 77), "dump");
    assert_eq!(choose_basename("dump", true, false, 77), "dump");
    assert_eq!(choose_basename("dump", true, true, 77), "dump-77");
    assert_eq!(choose_basename("", true, true, 0), "-0");
    assert_eq!(choose_basename("a-1", true, true, u64::MAX), "a-1-18446744073709551615");
}

#[test]
fn decimal_digits() {
    assert_eq!(decimal(0), "0");
    assert_eq!(decimal(9), "9");
    assert_eq!(decimal(10), "10");
    assert_eq!(decimal(1234567890), "1234567890");
    assert_eq!(decimal(u64::MAX), "18446744073709551615");
}

#[test]
fn file_names() {
    assert_eq!(graph_file_name("dump"), "dump.hnsw.graph");
    assert_eq!(data_file_name("dump"), "dump.hnsw.data");
    assert_eq!(data_file_name("dump-77"), "dump-77.hnsw.data");
}

#[test]
fn dumping_twice_while_mapped_gives_two_names() {
    let points = random_vectors(40, 3, 21);
    let h = build(&points);
    // nothing is mapped: the name is kept, whatever lies under it
    let first = h.file_dump("base", false, 5);
    assert_eq!(first.basename, "base");
    assert_eq!(h.file_dump("base", true, 5).basename, "base");
    // the index now lives on the data file of the first dump
    let live: Hnsw<u16, DistL2> =
        Hnsw::load_mapped(&first.graph, first.data.as_ref().unwrap(), DistL2).unwrap();
    let second = live.file_dump("base", true, 5);
    assert_eq!(second.basename, "base-5");
    assert_ne!(second.basename, first.basename);
    assert_eq!(second.graph, first.graph);
    assert_eq!(second.data, first.data);
    let again: Hnsw<u16, DistL2> =
        Hnsw::load(&second.graph, second.data.as_ref().unwrap(), DistL2).unwrap();
    assert_eq!(again.links, h.links);
}

#[test]
fn a_mapped_index_dumps_over_a_file_it_does_not_use() {
    let points = random_vectors(30, 3, 22);
    let h = build(&points);
    let a = h.file_dump("a", false, 9);
    let live: Hnsw<u16, DistL2> =
        Hnsw::load_mapped(&a.graph, a.data.as_ref().unwrap(), DistL2).unwrap();
    assert!(live.get_datamap_opt());
    // the data file of the name "b" is not the one that `live` is mapped from
    let b = live.file_dump("b", false, 9);
    assert_eq!(b.basename, "b");
    assert_eq!(b.data, a.data);
    let full = live.dump(DumpMode::Full, "b", false, 9);
    assert_eq!(full.basename, "b");
    // the data file of the name "a" is
    assert_eq!(live.dump(DumpMode::Full, "a", true, 9).basename, "a-9");
}

#[test]
fn graph_only_dump_has_no_vectors() {
    let h = small();
    let d = h.dump(DumpMode::GraphOnly, "g", false, 0);
    assert_eq!(d.basename, "g");
    assert!(d.data.is_none());
    assert_eq!(d.graph, h.dump_graph());
    let full = h.dump(DumpMode::Full, "g", false, 0);
    assert_eq!(full.data, Some(h.dump_data()));
    let data = full.data.unwrap();
    let back: Hnsw<i32, DistL1> = Hnsw::load_mapped(&d.graph, &data, DistL1).unwrap();
    assert_eq!(back.links, h.links);
    // a dump without vectors writes no data file, so it keeps the name
    let light = back.dump(DumpMode::GraphOnly, "g", true, 3);
    assert_eq!(light.basename, "g");
    assert!(light.data.is_none());
    assert_eq!(back.dump(DumpMode::Full, "g", true, 3).basename, "g-3");
}

#[test]
fn words_and_bytes() {
    let w: Vec<u64> = vec![1, 0x0102030405060708, u64::MAX];
    let b = to_bytes(&w);
    assert_eq!(b.len(), 24);
    assert_eq!(&b[..8], &[1, 0, 0, 0, 0, 0, 0, 0]);
    assert_eq!(&b[8..16], &[8, 7, 6, 5, 4, 3, 2, 1]);
    assert_eq!(from_bytes(&b), Some(w));
    assert_eq!(from_bytes(&b[..23]), None);
    assert_eq!(from_bytes(&[]), Some(vec![]));
}

#[test]
fn elements_in_bytes() {
    let mut out: Vec<u8> = Vec::new();
    7u8.put(&mut out);
    0x1234u16.put(&mut out);
    (-2i32).put(&mut out);
    assert_eq!(out, vec![7, 0x34, 0x12, 0xfe, 0xff, 0xff, 0xff]);
    assert_eq!(<u8 as Element>::get(&out, 0), 7);
    assert_eq!(<u16 as Element>::get(&out, 1), 0x1234);
    assert_eq!(<i32 as Element>::get(&out, 3), -2);
    assert_eq!(<u8 as Element>::elem_width(), 1);
    assert_eq!(<u16 as Element>::elem_width(), 2);
    assert_eq!(<i32 as Element>::elem_width(), 4);
    assert_eq!(<u8 as Element>::elem_kind(), 1);
    assert_eq!(<u16 as Element>::elem_kind(), 2);
    assert_eq!(<i32 as Element>::elem_kind(), 3);
}

#[test]
fn mapped_index_answers_like_the_resident_one() {
    let points = random_vectors(200, 5, 33);
    let h = build(&points);
    let graph = h.dump_graph();
    let data = h.dump_data();
    let lazy: Hnsw<u16, DistL2> = Hnsw::load_mapped(&graph, &data, DistL2).unwrap();
    assert_eq!(lazy.store.mapped, 200);
    assert!(lazy.store.points.is_empty());
    for q in random_vectors(20, 5, 3).iter() {
        assert_eq!(lazy.search(q, 6, 30), h.search(q, 6, 30));
    }
    assert_eq!(lazy.dump_data(), data);
    assert_eq!(lazy.dump_graph(), graph);
}

#[test]
fn mapped_index_grows_in_memory() {
    let points = random_vectors(60, 4, 14);
    let mut h = build(&points);
    let graph = h.dump_graph();
    let data = h.dump_data();
    let mut lazy: Hnsw<u16, DistL2> = Hnsw::load_mapped(&graph, &data, DistL2).unwrap();
    for (i, p) in random_vectors(25, 4, 15).iter().enumerate() {
        assert_eq!(lazy.insert(p, 7000 + i), Ok(60 + i));
        assert_eq!(h.insert(p, 7000 + i), Ok(60 + i));
    }
    assert_eq!(lazy.store.mapped, 60);
    assert_eq!(lazy.store.points.len(), 25);
    assert_eq!(lazy.get_nb_point(), 85);
    assert!(lazy.get_datamap_opt());
    assert!(lazy.validate());
    assert_eq!(lazy.links, h.links);
    assert_eq!(lazy.get_point_data(3), h.get_point_data(3));
    assert_eq!(lazy.get_point_data(70), h.get_point_data(70));
    assert_eq!(lazy.dump_data(), h.dump_data());
    for q in random_vectors(10, 4, 16).iter() {
        assert_eq!(lazy.search(q, 5, 20), h.search(q, 5, 20));
    }
}

#[test]
fn a_vector_lies_at_its_id_times_the_row() {
    let points = random_vectors(9, 3, 41);
    let h = build(&points);
    let data = h.dump_data();
    assert_eq!(data.len(), 32 + 9 * 3 * 2);
    for (i, p) in points.iter().enumerate() {
        let v: Vec<u16> = read_vec_at(&data, 3, i);
        assert_eq!(&v, p);
        let at: usize = 32 + i * 3 * 2;
        assert_eq!(u16::from_le_bytes([data[at], data[at + 1]]), p[0]);
        assert_eq!(u16::from_le_bytes([data[at + 4], data[at + 5]]), p[2]);
    }
}

#[test]
fn a_store_opens_on_a_whole_data_stream_only() {
    let points = random_vectors(5, 2, 50);
    let h = build(&points);
    let data = h.dump_data();
    let store = PointStore::<u16>::open(&data, 5, 2).unwrap();
    assert_eq!(store.len(), 5);
    assert_eq!(store.vector(4), points[4]);
    assert_eq!(store.eval_between(&DistL2, 1, 1), 0);
    assert_eq!(store.eval_to(&DistL2, &points[2], 2), 0);
    assert!(PointStore::<u16>::open(&data, 4, 2).is_none());
    assert!(PointStore::<u16>::open(&data, 5, 3).is_none());
    assert!(PointStore::<u16>::open(&data[..data.len() - 1], 5, 2).is_none());
    assert!(PointStore::<u16>::open(&data[..31], 5, 2).is_none());
    assert!(PointStore::<u8>::open(&data, 5, 2).is_none());
    assert!(PointStore::<u16>::open(&data, usize::MAX, usize::MAX).is_none());
    let none = words(&[DATA_MAGIC, 0, usize::MAX as u64, 2]);
    assert!(PointStore::<u16>::open(&none, 0, usize::MAX).is_some());
    let mut grown = PointStore::<u16>::open(&data, 5, 2).unwrap();
    grown.push(vec![1, 2]);
    assert_eq!(grown.len(), 6);
    assert_eq!(grown.vector(5), vec![1, 2]);
    let held = PointStore::resident(2, points.clone());
    assert_eq!(held.len(), 5);
    assert_eq!(held.vector(3), points[3]);
}

#[test]
fn validate_finds_a_broken_store() {
    let points = random_vectors(10, 2, 51);
    let mut h = build(&points);
    assert!(h.store_valid());
    h.store.points[3].push(1);
    assert!(!h.store_valid());
    assert!(!h.validate());
    h.store.points[3].pop();
    assert!(h.validate());
    h.store.dim = 3;
    assert!(!h.validate());
    h.store.dim = 2;
    h.store.mapped = 1;
    assert!(!h.validate());
}
