use genetic_logic::life::{life_census, life_color, life_initial_layers, life_move, LifeSchedule, LIFE_CENTER};
use genetic_logic::universe::{
    bottom_zeros, initial_layers, is_census_frame, step_name, top_mass, wiggle, SurvivalRun, UniverseSchedule,
    STEP_NAND, STEP_NOR, STEP_XNOR, STEP_XOR, VOLUME,
};

fn reference_state(frame: u32) -> u32 {
    let mut state = frame.wrapping_add(123456789);
    state ^= state << 13;
    state ^= state >> 17;
    state ^= state << 5;
    state
}

#[test]
fn wiggle_is_the_xorshift_of_the_frame() {
    for frame in [0u32, 1, 2, 99, 4_000_000_000, u32::MAX] {
        assert_eq!(wiggle(frame), reference_state(frame));
    }
}

#[test]
fn plans_follow_the_schedule() {
    let mut s = UniverseSchedule::new(3, 1);
    let (mut top, mut bottom) = (0u32, 0u32);
    for frame in 0..200u32 {
        let state = reference_state(frame);
        let p = s.plan_frame(frame);
        assert_eq!(p.offset_x, (state % 3) as i32 - 1);
        assert_eq!(p.offset_y, ((state >> 2) % 3) as i32 - 1);
        assert_eq!(p.offset_z, ((state >> 4) % 3) as i32 - 1);
        let is_top = (state >> 6) % 2 == 0;
        assert_eq!(p.top_layer, is_top);
        if is_top {
            assert_eq!(p.step_type, if top % 3 < 1 { STEP_XNOR } else { STEP_NOR });
            top += 1;
        } else {
            assert_eq!(p.step_type, if bottom % 3 < 1 { STEP_XOR } else { STEP_NAND });
            bottom += 1;
        }
        assert_eq!((s.top_ops, s.bottom_ops), (top, bottom));
    }
}

#[test]
fn one_sustain_per_cycle() {
    // Threshold 10 of 170: the first ten operations of each cycle sustain.
    let mut s = UniverseSchedule::new(170, 10);
    let mut sustain_top = 0;
    let mut total_top = 0;
    for frame in 0..5000u32 {
        let p = s.plan_frame(frame);
        if p.top_layer {
            if total_top % 170 < 10 {
                assert_eq!(p.step_type, STEP_XNOR);
                sustain_top += 1;
            } else {
                assert_eq!(p.step_type, STEP_NOR);
            }
            total_top += 1;
        }
    }
    assert!(sustain_top > 0);
}

#[test]
fn step_names() {
    assert_eq!(step_name(STEP_XNOR), "XNOR");
    assert_eq!(step_name(STEP_NOR), "NOR");
    assert_eq!(step_name(STEP_XOR), "XOR");
    assert_eq!(step_name(STEP_NAND), "NAND");
}

#[test]
fn initial_universe_has_two_seeds() {
    let (top, bottom) = initial_layers();
    assert_eq!(top.len(), VOLUME);
    assert_eq!(bottom.len(), VOLUME);
    assert_eq!(top[64 * 128 * 128 + 64 * 128 + 64], 1);
    assert_eq!(top[7 * 128 * 128 + 42 * 128 + 12], 1);
    assert_eq!(top_mass(&top), 2);
    assert_eq!(bottom_zeros(&bottom), 0);
}

#[test]
fn census_counts() {
    assert_eq!(top_mass(&vec![0, 1, 5, 0]), 6);
    assert_eq!(top_mass(&vec![]), 0);
    assert_eq!(bottom_zeros(&vec![1, 0, 0, 1, 0]), 3);
    assert!(is_census_frame(0));
    assert!(is_census_frame(15));
    assert!(!is_census_frame(16));
}

#[test]
fn a_run_ends_at_death_or_budget() {
    let mut run = SurvivalRun::new(64, 1, 12);
    let mut frames = Vec::new();
    while let Some((frame, _plan)) = run.next_frame() {
        frames.push(frame);
        if is_census_frame(frame) {
            let total = run.record_census(frame, if frame < 10 { 3 } else { 0 }, 0);
            assert_eq!(total, if frame < 10 { 3 } else { 0 });
        }
    }
    assert_eq!(frames, (0..=10).collect::<Vec<u32>>());
    assert!(run.dead);
    assert_eq!(run.survival_frame, 10);

    let mut run = SurvivalRun::new(64, 1, 7);
    let mut count = 0;
    while let Some((frame, _)) = run.next_frame() {
        run.record_census(frame, 1, 1);
        count += 1;
    }
    assert_eq!(count, 7);
    assert!(!run.dead);
    assert_eq!(run.survival_frame, 7);
    assert_eq!(run.schedule.top_ops + run.schedule.bottom_ops, 7);
}

#[test]
fn life_moves_and_ops() {
    assert_eq!(life_move(0), (0, 1, 0));
    assert_eq!(life_move(3), (2, 2, 1));
    assert_eq!(life_move(7), (0, 0, 1));
    let mut s = LifeSchedule::new();
    let mut plans = Vec::new();
    for frame in 0..16u32 {
        plans.push(s.plan_frame(frame));
    }
    let tops: Vec<u32> = plans.iter().filter(|p| p.top_layer).map(|p| p.step_type).collect();
    let bottoms: Vec<u32> = plans.iter().filter(|p| !p.top_layer).map(|p| p.step_type).collect();
    assert_eq!(tops, vec![0, 2, 5, 0, 2, 5, 0, 2]);
    assert_eq!(bottoms, vec![1, 3, 4, 1, 3, 4, 1, 3]);
    for k in 0..8 {
        assert_eq!(plans[k].offset_x, plans[k + 8].offset_x);
        assert_eq!(plans[k].offset_y, plans[k + 8].offset_y);
        assert_eq!(plans[k].top_layer, plans[k + 8].top_layer);
    }
    assert_eq!((s.top_ops, s.bottom_ops), (8, 8));
}

#[test]
fn life_colours_and_seeds() {
    assert_eq!(life_color(0, 0), (0, 0, 0));
    assert_eq!(life_color(1, 0), (0, 0, 139));
    assert_eq!(life_color(0, 1), (30, 144, 255));
    assert_eq!(life_color(1, 1), (255, 255, 255));
    assert_eq!(life_color(2, 1), (255, 0, 0));
    let (top, bottom) = life_initial_layers();
    assert_eq!(top.len(), 1024 * 1024);
    assert_eq!(top[LIFE_CENTER], 1);
    assert_eq!(bottom[LIFE_CENTER], 0);
    assert_eq!(top.iter().sum::<u32>(), 1);
    assert_eq!(bottom.iter().filter(|&&b| b == 0).count(), 1);
    assert_eq!(LIFE_CENTER, 512 * 1024 + 512);
}

#[test]
fn the_vacuum_is_dead() {
    let top = vec![0u32; 1000];
    let bottom = vec![1u32; 1000];
    let mut run = SurvivalRun::new(10, 1, 100);
    let (frame, _) = run.next_frame().unwrap();
    assert_eq!(run.record_census(frame, top_mass(&top), bottom_zeros(&bottom)), 0);
    assert!(run.dead);
    assert_eq!(run.survival_frame, 0);
    assert!(run.next_frame().is_none());
}

#[test]
fn life_census_counts_and_locates() {
    let (top, bottom) = life_initial_layers();
    let c = life_census(&top, &bottom);
    assert_eq!(c.top_ones, 1);
    assert_eq!(c.bottom_ones, 1048575);
    assert_eq!(c.top_points, vec![(512, 512)]);
    let mut many = vec![0u32; 2048];
    for i in 0..25 {
        many[i * 3] = 1;
    }
    let c = life_census(&many, &vec![1, 0, 1]);
    assert_eq!((c.top_ones, c.bottom_ones), (25, 2));
    assert!(c.top_points.is_empty());
    let mut few = vec![0u32; 2048];
    few[3] = 1;
    few[1025] = 1;
    let c = life_census(&few, &vec![]);
    assert_eq!(c.top_points, vec![(3, 0), (1, 1)]);
    assert_eq!(life_census(&vec![0; 10], &vec![]).top_points, vec![]);
}
