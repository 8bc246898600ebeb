use imgap::vector::{plan_vector, INFINITE};

fn by_single_precision(w: f32, h: f32, max_w: u32, max_h: u32) -> (f32, u32, u32) {
    let scale = (max_w as f32 / w).min(max_h as f32 / h);
    let out_w = (w * scale).max(1.0).round() as u32;
    let out_h = (h * scale).max(1.0).round() as u32;
    (scale, out_w, out_h)
}

fn same_plan(w: f32, h: f32, max_w: u32, max_h: u32) {
    let plan = plan_vector(w.to_bits(), h.to_bits(), max_w, max_h).unwrap();
    let (scale, width, height) = by_single_precision(w, h, max_w, max_h);
    assert_eq!(plan.scale, scale.to_bits(), "{} {} {} {}", w, h, max_w, max_h);
    assert_eq!((plan.width, plan.height), (width, height), "{} {} {} {}", w, h, max_w, max_h);
}

fn next(seed: &mut u64) -> u64 {
    *seed = seed.wrapping_mul(6364136223846793005).wrapping_add(1442695040888963407);
    *seed >> 33
}

#[test]
fn plans_worked_out_by_hand() {
    let plan = plan_vector(100f32.to_bits(), 50f32.to_bits(), 200, 200).unwrap();
    assert_eq!((plan.width, plan.height, f32::from_bits(plan.scale)), (200, 100, 2.0));
    let plan = plan_vector(3f32.to_bits(), 1f32.to_bits(), 10, 10).unwrap();
    assert_eq!((plan.width, plan.height), (10, 3));
    let plan = plan_vector(1000f32.to_bits(), 1f32.to_bits(), 10, 10).unwrap();
    assert_eq!((plan.width, plan.height), (10, 1));
    let plan = plan_vector(5f32.to_bits(), 5f32.to_bits(), 0, 7).unwrap();
    assert_eq!((plan.width, plan.height, plan.scale), (1, 1, 0));
}

#[test]
fn plans_follow_single_precision() {
    let mut seed: u64 = 11;
    for _ in 0..300_000 {
        let w = f32::from_bits(1 + (next(&mut seed) as u32) % (INFINITE - 1));
        let h = f32::from_bits(1 + (next(&mut seed) as u32) % (INFINITE - 1));
        let max_w = (next(&mut seed) >> (next(&mut seed) % 31)) as u32;
        let max_h = (next(&mut seed) >> (next(&mut seed) % 31)) as u32;
        same_plan(w, h, max_w, max_h);
    }
}

#[test]
fn plans_of_ordinary_pictures_follow_single_precision() {
    let mut seed: u64 = 12;
    for _ in 0..300_000 {
        let w = (1 + next(&mut seed) % 1_000_000) as f32 / 128.0;
        let h = (1 + next(&mut seed) % 1_000_000) as f32 / 100.0;
        let max_w = (next(&mut seed) % 5000) as u32;
        let max_h = (next(&mut seed) % 5000) as u32;
        same_plan(w, h, max_w, max_h);
        let plan = plan_vector(w.to_bits(), h.to_bits(), max_w, max_h).unwrap();
        assert!(plan.width <= max_w.max(1) && plan.height <= max_h.max(1));
        let scale = f32::from_bits(plan.scale) as f64;
        for (side, drawn) in [(w, plan.width), (h, plan.height)] {
            let exact = side as f64 * scale;
            assert!((exact - drawn as f64).abs() <= 1.0 || drawn == 1);
        }
    }
}

#[test]
fn plans_at_the_limits_follow_single_precision() {
    let sides = [
        f32::from_bits(1),
        f32::from_bits(0x7f_ffff),
        f32::MIN_POSITIVE,
        1.0e-30,
        0.5,
        1.0,
        1.5,
        3.0,
        16_777_215.0,
        16_777_216.0,
        1.0e30,
        f32::MAX,
    ];
    let boxes = [0u32, 1, 2, 3, 255, 16_777_217, 2_097_151, u32::MAX - 1, u32::MAX];
    for w in sides {
        for h in sides {
            for max_w in boxes {
                for max_h in boxes {
                    same_plan(w, h, max_w, max_h);
                }
            }
        }
    }
}

#[test]
fn sides_must_be_positive() {
    let one = 1f32.to_bits();
    for bad in [0.0f32, -0.0, -1.0, f32::MIN] {
        assert!(plan_vector(bad.to_bits(), one, 10, 10).is_none());
        assert!(plan_vector(one, bad.to_bits(), 10, 10).is_none());
    }
}

#[test]
fn pictures_reach_one_side_of_their_box() {
    let mut seed = 99u64;
    for _ in 0..2000 {
        let w = (next(&mut seed) % 1_000_000 + 1) as f32 / 37.0;
        let h = (next(&mut seed) % 1_000_000 + 1) as f32 / 91.0;
        let max_w = (next(&mut seed) % 4_194_304) as u32;
        let max_h = (next(&mut seed) % 4_194_304) as u32;
        let plan = plan_vector(w.to_bits(), h.to_bits(), max_w, max_h).unwrap();
        assert!(plan.width <= max_w.max(1) && plan.height <= max_h.max(1));
        assert!(plan.width == max_w.max(1) || plan.height == max_h.max(1));
    }
}
