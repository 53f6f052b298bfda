use ray_tracing_weekend::bvh::{BVHNode, Bvh, BvhChild};
use ray_tracing_weekend::hittable::{bits_of_order_key, hit_linear, order_key};
use ray_tracing_weekend::vec3::Dimension;

/// The primitives under node `i`, left to right, a doubled leaf counted once.
fn leaves(nodes: &[BVHNode], i: usize) -> Vec<usize> {
    let n = nodes[i];
    let side = |c: BvhChild| match c {
        BvhChild::Primitive(p) => vec![p],
        BvhChild::Node(j) => leaves(nodes, j),
    };
    let mut out = side(n.left);
    if n.left != n.right {
        out.extend(side(n.right));
    }
    out
}

fn keys_of(mins: &[[i32; 3]]) -> Vec<[i32; 3]> {
    mins.to_vec()
}

/// Every primitive of a scene of `n` sits under the root exactly once.
fn assert_covers(bvh: &Bvh, n: usize) {
    let mut found = leaves(bvh.nodes(), bvh.root());
    found.sort();
    assert_eq!(found, (0..n).collect::<Vec<usize>>());
}

#[test]
fn bvh_single_primitive_is_doubled_leaf() {
    let bvh = Bvh::new(&keys_of(&[[0, 0, 0]]));
    assert_eq!(bvh.nodes().len(), 1);
    let root = bvh.nodes()[bvh.root()];
    assert_eq!(root.left, BvhChild::Primitive(0));
    assert_eq!(root.right, BvhChild::Primitive(0));
}

#[test]
fn bvh_two_primitives_one_node() {
    let bvh = Bvh::new(&keys_of(&[[5, 1, 1], [0, 0, 0]]));
    assert_eq!(bvh.nodes().len(), 1);
    let root = bvh.nodes()[0];
    assert_eq!(root.left, BvhChild::Primitive(0));
    assert_eq!(root.right, BvhChild::Primitive(1));
}

#[test]
fn bvh_covers_every_primitive() {
    for n in 1..40usize {
        let keys: Vec<[i32; 3]> = (0..n)
            .map(|p| {
                let p = p as i32;
                [(p * 7) % 11, (p * 5) % 13 - 6, -p]
            })
            .collect();
        let bvh = Bvh::new(&keys);
        assert_covers(&bvh, n);
        assert_eq!(bvh.root(), bvh.nodes().len() - 1);
        // Children always come before their parents.
        for (i, node) in bvh.nodes().iter().enumerate() {
            for c in [node.left, node.right] {
                match c {
                    BvhChild::Node(j) => assert!(j < i),
                    BvhChild::Primitive(p) => assert!(p < n),
                }
            }
        }
    }
}

#[test]
fn bvh_splits_along_an_axis() {
    let keys: Vec<[i32; 3]> = (0..16).map(|p: i32| [p, 15 - p, (p * 3) % 16]).collect();
    let bvh = Bvh::new(&keys);
    let nodes = bvh.nodes();
    for node in nodes.iter() {
        if let (BvhChild::Node(l), BvhChild::Node(r)) = (node.left, node.right) {
            let ls = leaves(nodes, l);
            let rs = leaves(nodes, r);
            let ordered_on = |a: usize| {
                ls.iter().all(|&x| rs.iter().all(|&y| keys[x][a] <= keys[y][a]))
            };
            assert!(ordered_on(0) || ordered_on(1) || ordered_on(2));
            // Ranges are halved at their midpoint.
            assert_eq!(ls.len(), (ls.len() + rs.len()) / 2);
        }
    }
}

/// A scene where primitive `p` is met at the keys in `hits[p]`, and each box
/// test passes the window on unchanged.
fn nearest_in(hits: &[Vec<i32>], p: usize, lo: i32, hi: i32) -> Option<(i32, usize)> {
    hits[p].iter().copied().filter(|&t| lo < t && t < hi).min().map(|t| (t, p))
}

fn scene_hits() -> Vec<Vec<i32>> {
    vec![
        vec![50, 90],
        vec![],
        vec![30],
        vec![70, 10],
        vec![30, 45],
        vec![100],
        vec![5, 200],
    ]
}

#[test]
fn bvh_nearest_hit_matches_linear_scan() {
    let hits = scene_hits();
    let n = hits.len();
    let keys: Vec<[i32; 3]> = (0..n as i32).map(|p| [p * 3 % 7, p, -p]).collect();
    let bvh = Bvh::new(&keys);
    let prim = |p: usize, lo: i32, hi: i32| nearest_in(&hits, p, lo, hi);
    let boxf = |_i: usize, lo: i32, hi: i32| Some((lo, hi));
    for (lo, hi) in [(0, 1000), (5, 1000), (10, 30), (30, 46), (0, 5), (200, 300), (45, 51)] {
        let from_bvh = bvh.hit(&boxf, &prim, lo, hi).map(|h| h.0);
        let from_scan = hit_linear(n, &prim, lo, hi).map(|h| h.0);
        let expected = (0..n).filter_map(|p| nearest_in(&hits, p, lo, hi)).map(|h| h.0).min();
        assert_eq!(from_bvh, expected);
        assert_eq!(from_scan, expected);
    }
}

#[test]
fn bvh_nearest_hit_for_one_and_two_primitives() {
    for hits in [vec![vec![40]], vec![vec![40], vec![20, 60]], vec![vec![], vec![]]] {
        let n = hits.len();
        let keys: Vec<[i32; 3]> = (0..n as i32).map(|p| [p, p, p]).collect();
        let bvh = Bvh::new(&keys);
        let prim = |p: usize, lo: i32, hi: i32| nearest_in(&hits, p, lo, hi);
        let boxf = |_i: usize, lo: i32, hi: i32| Some((lo, hi));
        let from_bvh = bvh.hit(&boxf, &prim, 0, 100).map(|h| h.0);
        let from_scan = hit_linear(n, &prim, 0, 100).map(|h| h.0);
        assert_eq!(from_bvh, from_scan);
    }
}

#[test]
fn bvh_box_rejection_prunes_subtrees() {
    let hits = scene_hits();
    let n = hits.len();
    let keys: Vec<[i32; 3]> = (0..n as i32).map(|p| [p, p, p]).collect();
    let bvh = Bvh::new(&keys);
    let nodes = bvh.nodes().clone();
    let tested = std::cell::RefCell::new(Vec::new());
    let prim = |p: usize, lo: i32, hi: i32| {
        tested.borrow_mut().push(p);
        nearest_in(&hits, p, lo, hi)
    };
    // A box test that rejects exactly the nodes none of whose primitives is
    // met inside the window, and otherwise narrows the window to those hits.
    let boxf = |i: usize, lo: i32, hi: i32| {
        let under = leaves(&nodes, i);
        let ts: Vec<i32> =
            under.iter().flat_map(|&p| hits[p].iter().copied()).filter(|&t| lo < t && t < hi).collect();
        if ts.is_empty() {
            None
        } else {
            Some((*ts.iter().min().unwrap() - 1, *ts.iter().max().unwrap() + 1))
        }
    };
    assert_eq!(bvh.hit(&boxf, &prim, 0, 1000).map(|h| h.0), Some(5));
    assert_eq!(bvh.hit(&boxf, &prim, 150, 1000).map(|h| (h.0, h.1)), Some((200, 6)));
    assert_eq!(bvh.hit(&boxf, &prim, 300, 1000).map(|h| h.0), None);
}

#[test]
fn linear_scan_keeps_earlier_of_equal_hits() {
    let hits = scene_hits();
    let prim = |p: usize, lo: i32, hi: i32| nearest_in(&hits, p, lo, hi);
    // Primitives 2 and 4 are both met at 30.
    assert_eq!(hit_linear(5, &prim, 20, 40), Some((30, 2)));
    assert_eq!(hit_linear(0, &prim, 0, 1000), None);
    assert_eq!(hit_linear(7, &prim, 0, 1000), Some((5, 6)));
}

#[test]
fn order_keys_follow_float_order() {
    let floats = [
        f32::NEG_INFINITY,
        -3.0e38,
        -2.0,
        -1.0,
        -1e-40,
        -0.0,
        0.0,
        1e-40,
        0.001,
        1.0,
        2.0,
        3.0e38,
        f32::INFINITY,
    ];
    for w in floats.windows(2) {
        assert!(order_key(w[0].to_bits()) < order_key(w[1].to_bits()), "{} {}", w[0], w[1]);
    }
    assert_eq!(order_key(0.0f32.to_bits()), 0);
    assert_eq!(order_key((-0.0f32).to_bits()), -1);
    assert_eq!(order_key(1.0f32.to_bits()), 0x3f80_0000);
    assert_eq!(order_key((-1.0f32).to_bits()), -0x3f80_0000 - 1);
    for f in floats {
        assert_eq!(bits_of_order_key(order_key(f.to_bits())), f.to_bits());
    }
    assert_eq!(bits_of_order_key(i32::MIN), u32::MAX);
    assert_eq!(bits_of_order_key(i32::MAX), 0x7fff_ffff);
}

#[test]
fn bvh_split_axis_policy_is_followed() {
    let keys: Vec<[i32; 3]> = (0..23).map(|p: i32| [(p * 7) % 23, (p * 5) % 23, -p]).collect();
    for axis in [Dimension::X, Dimension::Y, Dimension::Z] {
        let calls = std::cell::Cell::new(0usize);
        let policy = |order: &Vec<usize>, lo: usize, hi: usize| {
            assert!(lo + 2 < hi && hi <= order.len());
            calls.set(calls.get() + 1);
            axis
        };
        let bvh = Bvh::with_split_axis(&keys, &policy);
        assert_covers(&bvh, keys.len());
        let nodes = bvh.nodes();
        let a = axis.index();
        let mut splits = 0;
        for node in nodes.iter() {
            if let (BvhChild::Node(l), BvhChild::Node(r)) = (node.left, node.right) {
                splits += 1;
                let ls = leaves(nodes, l);
                let rs = leaves(nodes, r);
                assert!(ls.iter().all(|&x| rs.iter().all(|&y| keys[x][a] <= keys[y][a])));
            }
        }
        assert_eq!(calls.get(), splits);
    }
}
