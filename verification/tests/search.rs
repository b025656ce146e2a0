use code_optimizer::annealing::{
    final_warmup_steps, heaviest_groups, latch_activation, refine, report_interval, AnnealPlan, Annealer,
    STOP_CHECK_STRIDE,
};
use code_optimizer::climb::{climb_step, draw_step, draw_two, enhanced_hill_climb, swap_pair, take_step, StepDraw};
use code_optimizer::conflicts::{build_code_to_chars, find_collision_groups, find_groups_on_key};
use code_optimizer::context::OptContext;
use code_optimizer::descent::coordinate_descent;
use code_optimizer::evaluator::Evaluator;
use code_optimizer::multistart::{multi_start_init, start_count, start_kind, warmup_steps, StartKind};
use code_optimizer::neighbours::{
    draw_off, draw_pair, draw_three, move_off, offer_key, other_keys, resolve_pair, rotate_three,
    try_key_reorganization, try_resolve_conflict, try_triple_swap, PairDraw,
};
use code_optimizer::operators::{
    draw_points, draw_swaps, AmhbOperator, ExchangeOperator, OperatorResult, PointDraw, PointwiseOperator, SwapDraw,
    MAX_RETRY,
};
use code_optimizer::scheme::Scheme;
use code_optimizer::starts::{
    greedy_balance_init, groups_by_size, highest_allowed, least_used, random_valid_init, spread_greedy_init, spread_over,
};
use code_optimizer::types::{
    CharSimpleInfo, Hand, KeyLayout, LogicalRoot, RootGroup, SimpleAssignMode, SimpleCodeConfig, SimpleCodeLevel,
    SimpleCodeStep, EQUIV_TABLE_SIZE, GROUP_MARKER,
};
use rand::thread_rng;

const FREQS: [u64; 5] = [100, 90, 80, 70, 60];
const ALLOWED: [u8; 3] = [0, 1, 2];

fn layout() -> KeyLayout {
    let mut chars: Vec<(char, usize)> = Vec::new();
    for (i, c) in ('a'..='z').enumerate() {
        chars.push((c, i));
    }
    chars.push(('_', 30));
    KeyLayout { chars, space: 30, hands: vec![Hand::Left; EQUIV_TABLE_SIZE] }
}

/// A context with one group for each list of allowed keys; each character has a root of the first
/// group given for it, then of the next.
fn build(chars: &[(u64, Vec<usize>)], allowed: &[Vec<u8>], simple: bool) -> OptContext {
    let groups: Vec<RootGroup> = allowed
        .iter()
        .enumerate()
        .map(|(g, keys)| RootGroup { roots: vec![format!("r{g}")], allowed_keys: keys.clone() })
        .collect();
    let levels = if simple {
        vec![SimpleCodeLevel {
            level: 1,
            code_num: 1,
            rule_candidates: vec![vec![SimpleCodeStep { root_selector: 'A', code_selector: 'a' }]],
            commit_keys: Vec::new(),
            commit_pref_last_left: Vec::new(),
            commit_pref_last_right: Vec::new(),
            commit_alt_hand_only: false,
        }]
    } else {
        Vec::new()
    };
    let mut splits = Vec::new();
    let mut infos = Vec::new();
    let mut rules = Vec::new();
    for (i, (f, gs)) in chars.iter().enumerate() {
        splits.push((
            char::from_u32(0x4e00 + i as u32).unwrap(),
            gs.iter().map(|g| format!("r{g}")).collect::<Vec<String>>(),
            *f,
        ));
        infos.push(CharSimpleInfo {
            logical_roots: gs
                .iter()
                .map(|g| LogicalRoot { full_code_parts: vec![GROUP_MARKER + *g as u16] })
                .collect(),
            level_instructions: if simple { vec![Some(vec![(0, 0)])] } else { Vec::new() },
        });
        rules.push(if simple { vec![vec![(0, 0)]] } else { Vec::new() });
    }
    OptContext::new(Scheme {
        splits,
        fixed_roots: Vec::new(),
        groups,
        layout: layout(),
        simple_config: SimpleCodeConfig { levels },
        char_simple_infos: infos,
        resolved_rules: rules,
        enable_simple_code: simple,
        simple_assign_mode: SimpleAssignMode::Efficiency,
        simple_protect_top_n: 0,
        output_coverage: None,
        active_coverage: None,
    })
}

/// One group and one character of one part for each frequency.
fn make_ctx(freqs: &[u64], allowed: &[u8]) -> OptContext {
    let chars: Vec<(u64, Vec<usize>)> = freqs.iter().enumerate().map(|(i, &f)| (f, vec![i])).collect();
    build(&chars, &vec![allowed.to_vec(); freqs.len()], false)
}

/// Six groups, characters of two parts.
fn wide_ctx(simple: bool) -> OptContext {
    let chars: Vec<(u64, Vec<usize>)> =
        (0..12).map(|i| (100 - 7 * i as u64, vec![i % 6, (i * 5 + 1) % 6])).collect();
    build(&chars, &vec![vec![0u8, 1, 2, 3]; 6], simple)
}

fn hidden(e: &Evaluator, _a: &Vec<u8>) -> u64 {
    e.full.collision_frequency
}

fn always(_before: &u64, _after: &u64) -> bool {
    true
}

fn never(_before: &u64, _after: &u64) -> bool {
    false
}

fn no_worse(before: &u64, after: &u64) -> bool {
    after <= before
}

fn lower(before: &u64, after: &u64) -> bool {
    after < before
}

fn permitted(ctx: &OptContext, a: &[u8]) -> bool {
    a.len() == ctx.groups.len() && a.iter().zip(&ctx.groups).all(|(k, g)| g.allowed_keys.contains(k))
}

#[test]
fn test_window_zero_and_empty_return_false() {
    let ctx = make_ctx(&FREQS, &ALLOWED);
    let mut rng = thread_rng();
    let mut a = vec![0u8; FREQS.len()];
    let before = a.clone();
    let mut ev = Evaluator::new(&ctx, &a);
    assert!(!try_resolve_conflict(&ctx, &mut a, &mut ev, &Vec::new(), 5, &mut rng, &hidden, &always));
    assert_eq!(a, before);
    let cols = find_collision_groups(&ctx, &a, false);
    assert!(!cols.is_empty());
    assert!(!try_resolve_conflict(&ctx, &mut a, &mut ev, &cols, 0, &mut rng, &hidden, &always));
    assert_eq!(a, before);
}

#[test]
fn test_weight_semantics_all_same_key() {
    let ctx = make_ctx(&FREQS, &ALLOWED);
    let a = vec![0u8; FREQS.len()];
    let cnt = find_collision_groups(&ctx, &a, false);
    let frq = find_collision_groups(&ctx, &a, true);
    assert!(cnt.iter().all(|t| t.2 == FREQS.len() as u64));
    let sum: u64 = FREQS.iter().sum();
    assert!(frq.iter().all(|t| t.2 == sum));
    assert_eq!(cnt.len(), 10);
    assert_eq!(sum, 400);
}

#[test]
fn already_activated_stays_true_regardless() {
    assert!(latch_activation(true, 0.0 >= 0.9, false));
    assert!(latch_activation(true, 0.01 >= 0.99, false));
    assert!(latch_activation(true, 0.5 >= 0.6, true));
}

#[test]
fn hard_activate_true_from_first_step() {
    assert!(latch_activation(false, 0.0 >= 0.6, true));
}

#[test]
fn activates_when_progress_reaches_start() {
    assert!(!latch_activation(false, 0.59 >= 0.6, false));
    assert!(latch_activation(false, 0.6 >= 0.6, false));
    assert!(latch_activation(false, 0.95 >= 0.6, false));
}

#[test]
fn non_monotonic_sequence_latches_and_holds() {
    let p_start = 0.5;
    let seq = [0.2, 0.4, 0.6, 0.3, 0.1, 0.55];
    let mut latched = false;
    let mut states = Vec::new();
    for &p in &seq {
        latched = latch_activation(latched, p >= p_start, false);
        states.push(latched);
    }
    assert_eq!(states, vec![false, false, true, true, true, true]);
}

#[test]
fn collisions_are_sorted_and_the_same_pairs_for_both_weights() {
    let ctx = make_ctx(&FREQS, &ALLOWED);
    for code in 0..243usize {
        let a: Vec<u8> = (0..5).map(|g| ((code / 3usize.pow(g)) % 3) as u8).collect();
        let by_count = find_collision_groups(&ctx, &a, false);
        let by_freq = find_collision_groups(&ctx, &a, true);
        for list in [&by_count, &by_freq] {
            for w in list.windows(2) {
                assert!(w[0].2 > w[1].2 || (w[0].2 == w[1].2 && (w[0].0, w[0].1) <= (w[1].0, w[1].1)));
            }
        }
        assert_eq!(by_count, find_collision_groups(&ctx, &a, false));
        let mut p: Vec<(usize, usize)> = by_count.iter().map(|t| (t.0, t.1)).collect();
        let mut q: Vec<(usize, usize)> = by_freq.iter().map(|t| (t.0, t.1)).collect();
        p.sort_unstable();
        q.sort_unstable();
        assert_eq!(p, q);
    }
}

#[test]
fn collisions_of_a_mixed_assignment() {
    let ctx = make_ctx(&FREQS, &ALLOWED);
    let a = vec![0u8, 1, 0, 1, 1];
    assert_eq!(find_collision_groups(&ctx, &a, false), vec![(1, 3, 3), (1, 4, 3), (3, 4, 3), (0, 2, 2)]);
    assert_eq!(find_collision_groups(&ctx, &a, true), vec![(1, 3, 220), (1, 4, 220), (3, 4, 220), (0, 2, 180)]);
    assert_eq!(find_groups_on_key(&ctx, &a, 1), vec![1, 3, 4]);
    assert_eq!(find_groups_on_key(&ctx, &a, 2), Vec::<usize>::new());
    assert_eq!(build_code_to_chars(&ctx, &a), vec![(1, vec![0, 2]), (2, vec![1, 3, 4])]);
}

#[test]
fn other_keys_leave_one_out() {
    assert_eq!(other_keys(&vec![3, 1, 3, 2], 3), vec![1, 2]);
    assert_eq!(other_keys(&vec![3], 3), Vec::<u8>::new());
    let ctx = make_ctx(&[5, 4], &[2, 0, 1]);
    let mut a = vec![0u8, 0];
    let mut ev = Evaluator::new(&ctx, &a);
    assert!(move_off(&ctx, &mut a, &mut ev, 1, 1, &hidden, &always));
    assert_eq!(a, vec![0, 1]);
    assert!(!move_off(&ctx, &mut a, &mut ev, 1, 0, &hidden, &never));
    assert_eq!(a, vec![0, 1]);
}

#[test]
fn conflicts_are_resolved_by_moving_one_group() {
    let ctx = make_ctx(&FREQS, &ALLOWED);
    let mut rng = thread_rng();
    for window in 1..13usize {
        let mut a = vec![0u8, 1, 0, 1, 1];
        let start = a.clone();
        let mut ev = Evaluator::new(&ctx, &a);
        let cols = find_collision_groups(&ctx, &a, true);
        assert!(try_resolve_conflict(&ctx, &mut a, &mut ev, &cols, window, &mut rng, &hidden, &always));
        let moved: Vec<usize> = (0..5).filter(|&g| a[g] != start[g]).collect();
        assert_eq!(moved.len(), 1);
        assert!(cols.iter().take(window).any(|t| t.0 == moved[0] || t.1 == moved[0]));
        assert!(permitted(&ctx, &a));
        assert!(!try_resolve_conflict(&ctx, &mut a, &mut ev, &cols, window, &mut rng, &hidden, &never));
    }
}

#[test]
fn small_cases_have_no_such_neighbours() {
    let mut rng = thread_rng();
    let one = make_ctx(&[5], &ALLOWED);
    let mut a = vec![0u8];
    let mut ev = Evaluator::new(&one, &a);
    assert!(!try_key_reorganization(&one, &mut a, &mut ev, &mut rng, &hidden, &always));
    let two = make_ctx(&[5, 4], &ALLOWED);
    let mut b = vec![0u8, 1];
    let mut ev = Evaluator::new(&two, &b);
    assert!(!try_triple_swap(&two, &mut b, &mut ev, &mut rng, &hidden, &always));
    assert!(try_key_reorganization(&two, &mut b, &mut ev, &mut rng, &hidden, &always));
    assert_ne!(b, vec![0, 1]);
}

#[test]
fn three_groups_pass_their_keys_on() {
    let ctx = make_ctx(&[5, 4, 3], &ALLOWED);
    let mut rng = thread_rng();
    let mut a = vec![0u8, 1, 2];
    let mut ev = Evaluator::new(&ctx, &a);
    assert!(try_triple_swap(&ctx, &mut a, &mut ev, &mut rng, &hidden, &always));
    assert!(a == vec![1, 2, 0] || a == vec![2, 0, 1]);
    let mut b = vec![0u8, 1, 2];
    let mut ev = Evaluator::new(&ctx, &b);
    assert!(ev.try_rotation(&ctx, &mut b, 0, 1, 2, &hidden, &always));
    assert_eq!(b, vec![1, 2, 0]);
    let mut c = vec![1u8, 1, 1];
    let mut ev = Evaluator::new(&ctx, &c);
    assert!(!try_triple_swap(&ctx, &mut c, &mut ev, &mut rng, &hidden, &always));
    let narrow = build(&[(5, vec![0]), (4, vec![1]), (3, vec![2])], &[vec![0], vec![1], vec![2]], false);
    let mut d = vec![0u8, 1, 2];
    let mut ev = Evaluator::new(&narrow, &d);
    assert!(!try_triple_swap(&narrow, &mut d, &mut ev, &mut rng, &hidden, &always));
}

#[test]
fn first_assignments_are_permitted() {
    let chars: Vec<(u64, Vec<usize>)> = vec![(9, vec![0, 1]), (8, vec![1, 2]), (7, vec![1]), (6, vec![3])];
    let ctx = build(&chars, &[vec![0, 1], vec![1, 2], vec![0, 2], vec![2]], false);
    let mut rng = thread_rng();
    assert_eq!(groups_by_size(&ctx), vec![1, 0, 2, 3]);
    assert_eq!(highest_allowed(&ctx.layout, &vec!['a', 'c', 'b']), 2);
    assert_eq!(highest_allowed(&ctx.layout, &vec!['1']), 25);
    for _ in 0..50 {
        let g = greedy_balance_init(&ctx, &vec!['a', 'b', 'c'], &mut rng);
        assert!(permitted(&ctx, &g));
        // Group 1 comes first and takes either key, group 0 then avoids it if it can.
        assert!(g[0] == 0 || g[1] != 1);
        assert!(permitted(&ctx, &spread_greedy_init(&ctx, &mut rng)));
        assert!(permitted(&ctx, &random_valid_init(&ctx, &mut rng)));
    }
    assert_eq!(spread_over(&ctx, &vec![1, 0, 2, 3]), vec![0, 1, 2, 2]);
    assert_eq!(spread_over(&ctx, &vec![3, 2, 1, 0]), vec![0, 1, 0, 2]);
    assert_eq!(least_used(&vec![4, 0, 2], &vec![1, 0, 1, 0, 2]), vec![0, 2]);
}

#[test]
fn random_draws_do_vary() {
    let ctx = wide_ctx(false);
    let mut rng = thread_rng();
    let drawn: Vec<Vec<u8>> = (0..60).map(|_| random_valid_init(&ctx, &mut rng)).collect();
    assert!(drawn.iter().any(|a| *a != drawn[0]));
    let spread: Vec<Vec<u8>> = (0..60).map(|_| spread_greedy_init(&ctx, &mut rng)).collect();
    assert!(spread.iter().any(|a| *a != spread[0]));
}

#[test]
fn climbs_end_no_higher() {
    let mut rng = thread_rng();
    for simple in [false, true] {
        let ctx = wide_ctx(simple);
        let start = vec![0u8; 6];
        let before = Evaluator::new(&ctx, &start).full.collision_frequency;
        let (a, ev) = enhanced_hill_climb(&ctx, start.clone(), &mut rng, 400, !simple, &hidden, &no_worse);
        assert!(permitted(&ctx, &a));
        assert!(ev.full.collision_frequency <= before);
        assert_eq!(ev.simple_active, simple);
        assert_eq!(ev.full.collision_frequency, Evaluator::new(&ctx, &a).full.collision_frequency);
        let (b, _) = enhanced_hill_climb(&ctx, start.clone(), &mut rng, 0, true, &hidden, &no_worse);
        assert_eq!(b, start);
        let (c, _) = enhanced_hill_climb(&ctx, start.clone(), &mut rng, 400, true, &hidden, &never);
        assert_eq!(c, start);
    }
}

#[test]
fn descents_end_where_no_group_has_a_better_key() {
    let ctx = wide_ctx(true);
    let (a, ev) = coordinate_descent(&ctx, vec![0u8; 6], false, &hidden, &lower);
    let best = ev.full.collision_frequency;
    assert!(best < Evaluator::new(&ctx, &vec![0u8; 6]).full.collision_frequency);
    for g in 0..6 {
        for k in 0..4u8 {
            let mut b = a.clone();
            b[g] = k;
            assert!(Evaluator::new(&ctx, &b).full.collision_frequency >= best);
        }
    }
    let (same, _) = coordinate_descent(&ctx, vec![1u8; 6], true, &hidden, &never);
    assert_eq!(same, vec![1u8; 6]);
}

#[test]
fn starts_are_planned_by_size() {
    assert_eq!((start_count(10), start_count(999), start_count(1000)), (50, 50, 30));
    assert_eq!((warmup_steps(1), warmup_steps(100), warmup_steps(5000)), (2000, 3000, 50_000));
    let kinds: Vec<StartKind> = (0..6).map(start_kind).collect();
    assert_eq!(
        kinds,
        vec![
            StartKind::Balanced,
            StartKind::Frequent,
            StartKind::Frequent,
            StartKind::Spread,
            StartKind::Random,
            StartKind::Balanced
        ]
    );
    assert_eq!((final_warmup_steps(10), final_warmup_steps(200), final_warmup_steps(9000)), (5000, 10_000, 100_000));
    assert_eq!((report_interval(0), report_interval(39), report_interval(2000)), (1, 1, 100));
}

#[test]
fn the_best_start_is_a_local_optimum() {
    let ctx = wide_ctx(false);
    let mut rng = thread_rng();
    let frequent = || vec![3u8; 6];
    let a = multi_start_init(&ctx, &vec!['a', 'd'], &mut rng, &frequent, &hidden, &no_worse, &lower, &lower);
    assert!(permitted(&ctx, &a));
    let s = Evaluator::new(&ctx, &a).full.collision_frequency;
    for g in 0..6 {
        for k in 0..4u8 {
            let mut b = a.clone();
            b[g] = k;
            assert!(Evaluator::new(&ctx, &b).full.collision_frequency >= s);
        }
    }
    let none = build(&[], &[], false);
    let empty = multi_start_init(&none, &Vec::new(), &mut rng, &Vec::new, &hidden, &no_worse, &lower, &lower);
    assert_eq!(empty, Vec::<u8>::new());
}

fn run_plan(total_steps: usize) -> AnnealPlan {
    AnnealPlan {
        total_steps,
        writes_checkpoints: true,
        checkpoint_interval: 7,
        reconcile_interval: 5,
        perturb_interval: 4,
        min_improve_steps: 3,
        conflict_enabled: true,
        conflict_refresh: 2,
        conflict_window: 3,
        conflict_weight_by_freq: true,
    }
}

#[test]
fn a_run_does_what_is_due() {
    let ctx = wide_ctx(true);
    let p = run_plan(40);
    let mut r = Annealer::fresh(&ctx, &p, vec![0u8; 6]);
    assert!(!r.evaluator.simple_active && !r.simple_activated);
    assert_eq!(r.collisions, find_collision_groups(&ctx, &vec![0u8; 6], true));
    let d = r.due(&p);
    assert!(!d.stop_check && !d.checkpoint);
    let e = r.due_after(&p);
    assert!(!e.perturb && !e.report && !e.reconcile);
    r.step = 20;
    let e = r.due_after(&p);
    assert!(e.perturb && e.report && !e.reconcile);
    assert!(!r.activate(&ctx, false, false));
    assert!(r.activate(&ctx, true, false));
    assert!(!r.activate(&ctx, true, true));
    assert!(r.simple_activated && r.evaluator.simple_active);
    assert!(r.due_after(&p).reconcile);
    r.step = 21;
    let d = r.due(&p);
    assert!(d.checkpoint && !d.stop_check);
    r.step = STOP_CHECK_STRIDE;
    assert!(r.due(&p).stop_check);
}

#[test]
fn a_run_remembers_its_best_and_reheats_after_a_while() {
    let ctx = wide_ctx(false);
    let p = run_plan(40);
    let mut rng = thread_rng();
    let mut r = Annealer::fresh(&ctx, &p, vec![0u8; 6]);
    assert!(!r.record(&ctx, &p, false));
    assert!(!r.record(&ctx, &p, false));
    assert!(!r.record(&ctx, &p, false));
    assert!(r.record(&ctx, &p, false));
    assert_eq!(r.steps_since_improve, 0);
    assert_eq!(r.best_assignment, vec![0u8; 6]);
    while !r.propose_neighbour(&ctx, true, &mut rng, &hidden, &always) {}
    assert!(r.assignment != vec![0u8; 6]);
    assert!(!r.record(&ctx, &p, true));
    assert_eq!(r.best_assignment, r.assignment);
    r.refresh_collisions(&ctx, &p);
    r.refresh_collisions(&ctx, &p);
    assert_eq!(r.steps_since_refresh, 2);
    r.refresh_collisions(&ctx, &p);
    assert_eq!(r.steps_since_refresh, 0);
    assert_eq!(r.collisions, find_collision_groups(&ctx, &r.assignment, true));
    let (steps, proposed, accepted) = r.close_window(&ctx);
    assert!(steps == 0 && accepted == 1 && proposed >= 1);
    assert_eq!((r.win_proposed, r.win_accepted), (0, 0));
}

#[test]
fn a_drawn_conflict_is_taken_on_where_there_is_one() {
    let ctx = wide_ctx(false);
    let p = run_plan(40);
    let mut rng = thread_rng();
    let mut r = Annealer::fresh(&ctx, &p, vec![0u8; 6]);
    assert!(!r.collisions.is_empty());
    let known = r.collisions.clone();
    assert!(r.propose(&ctx, &p, true, true, &mut rng, &hidden, &always));
    let moved: Vec<usize> = (0..6).filter(|&g| r.assignment[g] != 0).collect();
    assert_eq!(moved.len(), 1);
    assert!(known.iter().take(p.conflict_window).any(|c| c.0 == moved[0] || c.1 == moved[0]));
    let before = r.assignment.clone();
    let mut none = p.clone();
    none.conflict_window = 0;
    assert!(!r.propose(&ctx, &none, true, false, &mut rng, &hidden, &always));
    assert_eq!(r.assignment, before);
    r.collisions.clear();
    while !r.propose(&ctx, &p, true, false, &mut rng, &hidden, &always) {}
    assert_eq!((0..6).filter(|&g| r.assignment[g] != before[g]).count(), 1);
}

#[test]
fn a_whole_run_stays_in_step() {
    let ctx = wide_ctx(true);
    let p = run_plan(60);
    let mut rng = thread_rng();
    let mut r = Annealer::fresh(&ctx, &p, vec![0u8; 6]);
    let mut best = hidden(&r.evaluator, &r.assignment);
    let calls = r.evaluator.full_rebuild_calls();
    while r.step < p.total_steps {
        let step = r.step;
        assert_eq!(r.begin_step(&ctx, &p, step >= 20, false), step == 20);
        r.propose(&ctx, &p, step % 3 == 0, step % 2 == 0, &mut rng, &hidden, &always);
        let now = hidden(&r.evaluator, &r.assignment);
        let improved = now < best;
        if improved {
            best = now;
        }
        let end = r.end_step(&ctx, &p, improved, true, 3, &mut rng, &hidden, &always);
        assert_eq!(r.step, step + 1);
        assert_eq!(end.window.is_some(), step > 0 && step % 3 == 0);
        let fresh = Evaluator::new(&ctx, &r.assignment);
        assert_eq!(r.evaluator.full.current_codes, fresh.full.current_codes);
        if r.simple_activated {
            let (x, y) = (r.evaluator.simple_eval.as_ref().unwrap(), fresh.simple_eval.as_ref().unwrap());
            assert_eq!(x.sel.totals.cells, y.sel.totals.cells);
            assert_eq!(x.selected_ordered(&ctx), y.selected_ordered(&ctx));
        }
        assert!(permitted(&ctx, &r.assignment));
    }
    assert_eq!(r.evaluator.full_rebuild_calls(), calls);
    assert_eq!(hidden(&r.best_state(&ctx), &r.best_assignment), best);
    let (a, s) = refine(&ctx, r.best_assignment.clone(), best, &mut rng, &hidden, &no_worse, &lower, &lower);
    assert!(permitted(&ctx, &a) && s <= best);
    assert_eq!(s, Evaluator::new(&ctx, &a).full.collision_frequency);
}

#[test]
fn a_run_goes_on_where_it_was() {
    let ctx = wide_ctx(true);
    let p = run_plan(60);
    let now = vec![1u8, 0, 2, 0, 3, 1];
    let best = vec![2u8; 6];
    for activated in [false, true] {
        let r = Annealer::resume(&ctx, &p, now.clone(), best.clone(), 33, 2, activated);
        assert_eq!((r.step, r.start_step, r.window_start_step, r.steps_since_improve), (33, 33, 33, 2));
        assert_eq!(r.assignment, now);
        assert_eq!(r.best_assignment, best);
        assert_eq!(r.evaluator.simple_active, activated);
        assert!(!r.due(&p).checkpoint);
    }
}

#[test]
fn the_heaviest_groups_come_each_once() {
    let list: Vec<(usize, usize, u64)> = (0..12).map(|i| (i % 3, 5 + i, 9)).collect();
    let groups = heaviest_groups(&list);
    assert_eq!(groups, vec![0, 5, 1, 6, 2, 7, 8, 9, 10, 11, 12, 13, 14]);
    assert_eq!(heaviest_groups(&Vec::new()), Vec::<usize>::new());
}

#[test]
fn operators_look_and_leave_everything_as_it_was() {
    let ctx = wide_ctx(true);
    let mut rng = thread_rng();
    let mut a = vec![0u8, 1, 2, 3, 0, 1];
    let start = a.clone();
    let mut ev = Evaluator::new(&ctx, &a);
    let gap = |b: &u64, c: &u64| *c as i64 - *b as i64;
    let mut point = PointwiseOperator::new(6);
    let (none, wasted) = point.explore(&ctx, &mut ev, &mut a, 9, &mut rng, &hidden, &gap);
    assert!(none.is_none() && wasted == 0);
    point.init_distributions(0);
    assert!(point.radicals.is_none());
    point.init_distributions(6);
    let mut exchange = ExchangeOperator::new(6);
    exchange.init_distributions(1);
    assert!(exchange.radicals.is_none());
    exchange.init_distributions(6);
    for op in [AmhbOperator::Pointwise(point), AmhbOperator::Exchange(exchange)] {
        for _ in 0..40 {
            let (found, _) = op.explore(&ctx, &mut ev, &mut a, 9, &mut rng, &hidden, &gap);
            assert_eq!(a, start);
            if let Some((delta, result)) = found {
                assert_eq!(result.delta_score(), delta);
                assert_eq!(result.task_index(), 9);
                let before = ev.full.collision_frequency as i64;
                let mut b = a.clone();
                let mut there = Evaluator::new(&ctx, &b);
                result.apply(&ctx, &mut there, &mut b);
                assert!(b != a && permitted(&ctx, &b));
                assert_eq!(there.full.collision_frequency as i64 - before, delta);
                match (&op, &result) {
                    (AmhbOperator::Pointwise(_), OperatorResult::Pointwise(_)) => assert_eq!(op.name(), "Pointwise"),
                    (AmhbOperator::Exchange(_), OperatorResult::Exchange(_)) => assert_eq!(op.name(), "Exchange"),
                    _ => panic!("the operator found something else"),
                }
            }
        }
    }
}

#[test]
fn operators_give_up() {
    let stuck = make_ctx(&[5, 4, 3], &[1]);
    let mut rng = thread_rng();
    let mut a = vec![1u8; 3];
    let mut ev = Evaluator::new(&stuck, &a);
    let gap = |b: &u64, c: &u64| *c as i64 - *b as i64;
    let mut point = PointwiseOperator::new(3);
    point.init_distributions(3);
    let (found, wasted) = point.explore(&stuck, &mut ev, &mut a, 0, &mut rng, &hidden, &gap);
    assert!(found.is_none() && wasted == MAX_RETRY);
    let mut exchange = ExchangeOperator::new(3);
    exchange.init_distributions(3);
    let (found, wasted) = exchange.explore(&stuck, &mut ev, &mut a, 0, &mut rng, &hidden, &gap);
    assert!(found.is_none() && wasted == MAX_RETRY);
}

#[test]
fn reconciling_builds_simple_codes_even_before_they_count() {
    let ctx = wide_ctx(true);
    let p = run_plan(40);
    let mut r = Annealer::fresh(&ctx, &p, vec![0u8; 6]);
    assert!(r.evaluator.simple_eval.is_none());
    r.reconcile(&ctx);
    assert!(!r.evaluator.simple_active);
    let fresh = Evaluator::new(&ctx, &r.assignment);
    assert_eq!(r.evaluator.full.is_first_candidate, fresh.full.is_first_candidate);
    assert!(r.evaluator.full.simple_is_first_dirty.is_empty());
    let (x, y) = (r.evaluator.simple_eval.as_ref().unwrap(), fresh.simple_eval.as_ref().unwrap());
    assert_eq!(x.sel.totals.cells, y.sel.totals.cells);
    assert_eq!(x.selected_ordered(&ctx), y.selected_ordered(&ctx));
}

#[test]
fn a_move_that_is_settled_for_leaves_nothing_to_take_back() {
    let ctx = wide_ctx(true);
    let mut a = vec![0u8; 6];
    let mut e = Evaluator::new(&ctx, &a);
    let k = *ctx.groups[0].allowed_keys.iter().find(|&&k| k != 0).unwrap();
    assert!(e.try_move(&ctx, &mut a, 0, k, &hidden, &always));
    let se = e.simple_eval.as_ref().unwrap();
    assert!(!se.undo.has_selection);
    assert!(se.undo.codes.is_empty() && se.undo.protect.is_empty() && se.undo.shares.is_empty());
    assert!(se.sel.buckets_undo.snaps.is_empty() && se.sel.flags_undo.touched.is_empty());
    assert!(se.sel.entries_undo.codes.is_empty() && se.sel.entries_undo.selected.is_empty());
    assert!(se.sel.entries_undo.keys.is_empty() && se.sel.saved.levels.is_empty());
}

#[test]
fn a_pair_is_offered_keys_in_turn() {
    let ctx = build(&[(5, vec![0]), (4, vec![1]), (3, vec![2])], &[vec![0], vec![2, 0, 1], vec![0, 1]], false);
    let start = vec![0u8, 0, 0];
    let draw = PairDraw { first: 1, second: 2, pick_first: 1, pick_second: 0 };
    let mut a = start.clone();
    let mut ev = Evaluator::new(&ctx, &a);
    assert!(resolve_pair(&ctx, &mut a, &mut ev, draw, &hidden, &always));
    assert_eq!(a, vec![0, 1, 0]);
    // Group 0 has no other key, so that the second group is offered one.
    let mut a = start.clone();
    let mut ev = Evaluator::new(&ctx, &a);
    let draw = PairDraw { first: 0, second: 1, pick_first: 0, pick_second: 0 };
    assert!(resolve_pair(&ctx, &mut a, &mut ev, draw, &hidden, &always));
    assert_eq!(a, vec![0, 2, 0]);
    assert_eq!(ev.full.current_codes, Evaluator::new(&ctx, &a).full.current_codes);
    let mut a = start.clone();
    let mut ev = Evaluator::new(&ctx, &a);
    assert!(!resolve_pair(&ctx, &mut a, &mut ev, draw, &hidden, &never));
    assert!(!offer_key(&ctx, &mut a, &mut ev, 0, 9, &hidden, &always));
    assert_eq!(a, start);
    assert!(offer_key(&ctx, &mut a, &mut ev, 2, 0, &hidden, &always));
    assert_eq!(a, vec![0, 0, 1]);
}

#[test]
fn what_is_drawn_is_there() {
    let ctx = wide_ctx(false);
    let mut rng = thread_rng();
    let a = vec![0u8, 1, 0, 2, 0, 1];
    let cols = find_collision_groups(&ctx, &a, false);
    assert!(!cols.is_empty());
    for step in 0..200usize {
        let (r1, r2) = draw_two(6, &mut rng);
        assert!(r1 < 6 && r2 < 6 && r1 != r2);
        let (g1, g2, g3) = draw_three(4, &mut rng);
        assert!(g1 < 4 && g2 < 4 && g3 < 4 && g1 != g2 && g2 != g3 && g1 != g3);
        let (g, pick) = draw_off(&ctx, &a, &mut rng);
        assert!(g < 6 && pick < 3);
        let d = draw_pair(&ctx, &a, &cols, 2, &mut rng);
        assert!(cols.iter().take(2).any(|c| (c.0, c.1) == (d.first, d.second) || (c.1, c.0) == (d.first, d.second)));
        assert!(d.pick_first < 3 && d.pick_second < 3);
        let kind = match draw_step(&ctx, &a, &cols, step, &mut rng) {
            StepDraw::Nothing => 9,
            StepDraw::Collision { .. } => 0,
            StepDraw::Swap { r1, r2 } => {
                assert!(r1 < 6 && r2 < 6 && r1 != r2);
                1
            }
            StepDraw::Rotation { .. } => 2,
            StepDraw::Off { .. } => 3,
            StepDraw::Move { g, pick } => {
                assert!(g < 6 && pick < 4);
                4
            }
        };
        assert_eq!(kind, [0, 0, 0, 0, 1, 1, 1, 2, 3, 4][step % 10]);
        if step % 10 <= 3 {
            assert!(matches!(draw_step(&ctx, &a, &Vec::new(), step, &mut rng), StepDraw::Nothing));
        }
    }
}

#[test]
fn a_step_does_what_was_drawn() {
    let ctx = make_ctx(&FREQS, &ALLOWED);
    let start = vec![0u8, 1, 0, 2, 1];
    let pair = PairDraw { first: 0, second: 2, pick_first: 1, pick_second: 0 };
    let cases = [
        (StepDraw::Nothing, start.clone()),
        (StepDraw::Collision { pair }, vec![2, 1, 0, 2, 1]),
        (StepDraw::Swap { r1: 0, r2: 3 }, vec![2, 1, 0, 0, 1]),
        (StepDraw::Swap { r1: 0, r2: 2 }, start.clone()),
        (StepDraw::Rotation { g1: 0, g2: 1, g3: 3 }, vec![1, 2, 0, 0, 1]),
        (StepDraw::Off { g: 3, pick: 1 }, vec![0, 1, 0, 1, 1]),
        (StepDraw::Move { g: 4, pick: 0 }, vec![0, 1, 0, 2, 0]),
        (StepDraw::Move { g: 4, pick: 1 }, start.clone()),
    ];
    for (draw, there) in cases {
        let mut a = start.clone();
        let mut ev = Evaluator::new(&ctx, &a);
        assert_eq!(take_step(&ctx, &mut a, &mut ev, draw, &hidden, &always), there != start);
        assert_eq!(a, there);
        assert_eq!(ev.full.current_codes, Evaluator::new(&ctx, &there).full.current_codes);
        let mut a = start.clone();
        let mut ev = Evaluator::new(&ctx, &a);
        assert!(!take_step(&ctx, &mut a, &mut ev, draw, &hidden, &never));
        assert_eq!(a, start);
    }
    let mut a = start.clone();
    let mut ev = Evaluator::new(&ctx, &a);
    assert!(rotate_three(&ctx, &mut a, &mut ev, 0, 1, 3, &hidden, &always));
    assert_eq!(a, vec![1, 2, 0, 0, 1]);
    let narrow = build(&[(5, vec![0]), (4, vec![1])], &[vec![0, 1], vec![1]], false);
    let mut b = vec![0u8, 1];
    let mut ev = Evaluator::new(&narrow, &b);
    assert!(!swap_pair(&narrow, &mut b, &mut ev, 0, 1, &hidden, &always));
    assert!(!climb_step(&narrow, &mut b, &mut ev, &Vec::new(), 3, &mut thread_rng(), &hidden, &always));
    assert_eq!(b, vec![0, 1]);
}

#[test]
fn a_run_tries_the_neighbour_that_was_drawn() {
    let ctx = build(
        &[(5, vec![0]), (4, vec![1]), (3, vec![2])],
        &[vec![0, 1, 2], vec![1, 0], vec![2, 1]],
        false,
    );
    let p = run_plan(40);
    let start = vec![0u8, 1, 2];
    let cases = [
        (0usize, Some(1usize), 2usize, vec![1u8, 0, 2]),
        (0, Some(2), 1, vec![1, 1, 2]),
        (0, None, 2, vec![2, 1, 2]),
        (1, Some(2), 1, vec![0, 0, 2]),
        (2, Some(0), 0, start.clone()),
        (0, Some(2), 0, start.clone()),
    ];
    for (r, other, pick, there) in cases {
        let mut run = Annealer::fresh(&ctx, &p, start.clone());
        assert_eq!(run.propose_drawn(&ctx, r, other, pick, &hidden, &always), there != start);
        assert_eq!(run.assignment, there);
        assert_eq!((run.win_proposed, run.win_accepted), (1, (there != start) as usize));
        let mut run = Annealer::fresh(&ctx, &p, start.clone());
        assert!(!run.propose_drawn(&ctx, r, other, pick, &hidden, &never));
        assert_eq!(run.assignment, start);
    }
}

#[test]
fn a_shake_does_with_a_pair_what_it_may() {
    let ctx = build(&[(5, vec![0]), (4, vec![1]), (3, vec![2])], &[vec![0, 1], vec![1, 0], vec![2]], false);
    let p = run_plan(40);
    let mut run = Annealer::fresh(&ctx, &p, vec![0u8, 1, 2]);
    assert!(!run.jostle(&ctx, 1, 1, &hidden, &always));
    assert!(!run.jostle(&ctx, 0, 2, &hidden, &always));
    assert!(!run.jostle(&ctx, 0, 1, &hidden, &never));
    assert_eq!(run.assignment, vec![0, 1, 2]);
    assert!(run.jostle(&ctx, 0, 1, &hidden, &always));
    assert_eq!(run.assignment, vec![1, 0, 2]);
    assert!(!run.nudge(&ctx, 2, 0, &hidden, &always));
    assert!(!run.nudge(&ctx, 0, 1, &hidden, &always));
    assert!(!run.nudge(&ctx, 0, 0, &hidden, &never));
    assert!(run.nudge(&ctx, 0, 0, &hidden, &always));
    assert_eq!(run.assignment, vec![0, 0, 2]);
    assert_eq!((run.win_proposed, run.win_accepted), (0, 0));
}

#[test]
fn everything_is_built_anew_when_it_is_time() {
    let ctx = wide_ctx(true);
    let p = run_plan(40);
    let mut rng = thread_rng();
    let mut r = Annealer::fresh(&ctx, &p, vec![0u8; 6]);
    assert!(r.activate(&ctx, true, false));
    r.step = 10;
    r.propose_drawn(&ctx, 2, None, 3, &hidden, &always);
    r.end_step(&ctx, &p, false, false, 3, &mut rng, &hidden, &always);
    let fresh = Evaluator::new(&ctx, &r.assignment);
    assert!(r.evaluator.full.simple_is_first_dirty.is_empty());
    assert_eq!(r.evaluator.full.is_first_candidate, fresh.full.is_first_candidate);
    let (x, y) = (r.evaluator.simple_eval.as_ref().unwrap(), fresh.simple_eval.as_ref().unwrap());
    assert_eq!(x.selected_ordered(&ctx), y.selected_ordered(&ctx));
    assert_eq!(x.sel.totals.cells, y.sel.totals.cells);
    assert!(r.evaluator.simple_active);
}

#[test]
fn a_run_ends_no_higher_than_it_started() {
    let ctx = wide_ctx(false);
    let p = run_plan(60);
    let mut rng = thread_rng();
    for seed in 0..8u8 {
        let start: Vec<u8> = (0..6u8).map(|g| (g * seed + seed) % 4).collect();
        let first = Evaluator::new(&ctx, &start).full.collision_frequency;
        let mut r = Annealer::fresh(&ctx, &p, start.clone());
        let mut best = first;
        while r.step < p.total_steps {
            r.begin_step(&ctx, &p, false, false);
            r.propose(&ctx, &p, r.step % 2 == 0, true, &mut rng, &hidden, &always);
            let now = hidden(&r.evaluator, &r.assignment);
            let improved = now < best;
            if improved {
                best = now;
            }
            r.end_step(&ctx, &p, improved, true, 2, &mut rng, &hidden, &always);
            assert!(best <= first);
        }
        let (a, s) = refine(&ctx, r.best_assignment.clone(), best, &mut rng, &hidden, &no_worse, &lower, &lower);
        assert!(permitted(&ctx, &a));
        assert!(s <= best && best <= first);
        assert_eq!(s, Evaluator::new(&ctx, &a).full.collision_frequency);
    }
}

#[test]
fn operators_take_the_first_draw_that_will_do() {
    // Groups 0 and 2 have a choice, group 1 has none.
    let chars: Vec<(u64, Vec<usize>)> = vec![(50, vec![0]), (30, vec![1]), (20, vec![2])];
    let ctx = build(&chars, &[vec![0, 1, 2], vec![1], vec![0, 1]], false);
    let mut a = vec![0u8, 1, 0];
    let mut ev = Evaluator::new(&ctx, &a);
    let gap = |b: &u64, c: &u64| *c as i64 - *b as i64;
    let stuck = PointDraw { group: 1, pick: 0 };
    let draws = vec![stuck, stuck, PointDraw { group: 0, pick: 1 }, PointDraw { group: 2, pick: 0 }];
    let (found, wasted) = PointwiseOperator::look(&ctx, &mut ev, &mut a, &draws, 4, &hidden, &gap);
    assert_eq!(wasted, 2);
    match found {
        Some((delta, OperatorResult::Pointwise(p))) => {
            assert_eq!((p.radical_idx, p.new_key, p.task_index, delta), (0, 2, 4, -20));
            assert_eq!(p.delta_score, delta);
        }
        _ => panic!("a group could be moved"),
    }
    let (found, wasted) = PointwiseOperator::look(&ctx, &mut ev, &mut a, &vec![stuck; 3], 4, &hidden, &gap);
    assert!(found.is_none() && wasted == 3);

    // Groups 0 and 2 share a key; group 1 may not go to that of group 0.
    let same = SwapDraw { r1: 0, r2: 2 };
    let barred = SwapDraw { r1: 1, r2: 0 };
    let (found, wasted) = ExchangeOperator::look(&ctx, &mut ev, &mut a, &vec![same, barred], 5, &hidden, &gap);
    assert!(found.is_none() && wasted == 2);
    let mut b = vec![2u8, 1, 1];
    let free = build(&chars, &vec![vec![0, 1, 2]; 3], false);
    let mut ev_b = Evaluator::new(&free, &b);
    let draws = vec![SwapDraw { r1: 1, r2: 2 }, SwapDraw { r1: 2, r2: 0 }, SwapDraw { r1: 0, r2: 1 }];
    let (found, wasted) = ExchangeOperator::look(&free, &mut ev_b, &mut b, &draws, 5, &hidden, &gap);
    assert_eq!(wasted, 1);
    match found {
        // The one that shares its key is the most frequent from then on.
        Some((delta, OperatorResult::Exchange(x))) => {
            assert_eq!((x.radical_idx1, x.radical_idx2, x.task_index, delta), (2, 0, 5, 10));
            assert_eq!(x.delta_score, delta);
        }
        _ => panic!("two groups could be swapped"),
    }
    assert_eq!((a, b), (vec![0u8, 1, 0], vec![2u8, 1, 1]));
}

#[test]
fn operators_draw_until_something_will_do() {
    let chars: Vec<(u64, Vec<usize>)> = (0..4).map(|i| (9 - i as u64, vec![i])).collect();
    let ctx = build(&chars, &[vec![0], vec![0, 1], vec![1], vec![1, 0]], false);
    let a = vec![0u8, 0, 1, 1];
    let mut rng = thread_rng();
    let can_move = |g: usize| ctx.groups[g].allowed_keys.len() > 1;
    let can_swap = |d: &SwapDraw| {
        let (k1, k2) = (a[d.r1], a[d.r2]);
        k1 != k2
            && ctx.groups[d.r1].allowed_keys.contains(&k2)
            && ctx.groups[d.r2].allowed_keys.contains(&k1)
    };
    for _ in 0..60 {
        let points = draw_points(&ctx, &a, 4, &mut rng);
        assert!(points.len() <= MAX_RETRY as usize);
        let (last, before) = points.split_last().unwrap();
        assert!(before.iter().all(|d| !can_move(d.group)));
        assert!(points.len() == MAX_RETRY as usize || can_move(last.group));
        let swaps = draw_swaps(&ctx, &a, 4, &mut rng);
        let (last, before) = swaps.split_last().unwrap();
        assert!(before.iter().all(|d| d.r1 != d.r2 && !can_swap(d)));
        assert!(swaps.len() == MAX_RETRY as usize || can_swap(last));
    }
}
