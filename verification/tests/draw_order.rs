use taco_pack::space::render_list::{depth_sort_key, RenderOrderBuilder};

#[test]
fn depth_keys_order_like_the_distances() {
    let values = [-1e30f32, -3.5, -1.0, -1e-30, -0.0, 0.0, 1e-30, 0.5, 1.0, 2.0, 1e30, f32::INFINITY, f32::NEG_INFINITY];
    for a in values {
        for b in values {
            let (ka, kb) = (depth_sort_key(a.to_bits()), depth_sort_key(b.to_bits()));
            if a < b {
                assert!(ka < kb, "{a} {b}");
            }
            if a.to_bits() == b.to_bits() {
                assert_eq!(ka, kb);
            }
        }
    }
    assert!(depth_sort_key((-0.0f32).to_bits()) < depth_sort_key(0.0f32.to_bits()));
    assert_eq!(depth_sort_key(0.0f32.to_bits()), 0);
    assert_eq!(depth_sort_key((-0.0f32).to_bits()), -1);
}

#[test]
fn opaque_first_then_farthest_translucent() {
    let mut b = RenderOrderBuilder::new();
    assert_eq!(b.offer(0, false, 5.0f32.to_bits()), Some(0));
    assert_eq!(b.offer(1, true, 2.0f32.to_bits()), None);
    assert_eq!(b.offer(2, true, 9.0f32.to_bits()), None);
    assert_eq!(b.offer(3, true, (-4.0f32).to_bits()), None);
    assert_eq!(b.offer(4, true, 2.0f32.to_bits()), None);
    let order: Vec<usize> = std::iter::from_fn(|| b.pop_farthest().map(|e| e.idx)).collect();
    assert_eq!(order, vec![2, 4, 1, 3]);
    assert!(b.pop_farthest().is_none());
    b.offer(5, true, 1.0f32.to_bits());
    b.clear();
    assert!(b.pop_farthest().is_none());
}

#[test]
fn a_frame_draws_opaque_then_farthest_and_keeps_nothing() {
    let mut b = RenderOrderBuilder::new();
    b.offer(9, true, 100.0f32.to_bits());
    let visible = vec![
        (0, true, 2.0f32.to_bits()),
        (1, false, 0),
        (2, true, 9.0f32.to_bits()),
        (3, false, 0),
        (4, true, (-4.0f32).to_bits()),
        (5, true, 2.0f32.to_bits()),
    ];
    assert_eq!(b.draw_frame(&visible), vec![1, 3, 2, 5, 0, 4]);
    assert!(b.pop_farthest().is_none());
    assert_eq!(b.draw_frame(&vec![(7, true, 1.0f32.to_bits())]), vec![7]);
    assert!(b.draw_frame(&vec![]).is_empty());
}
