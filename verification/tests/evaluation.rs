use code_optimizer::bucket_store::BackendKind;
use code_optimizer::context::OptContext;
use code_optimizer::evaluator::{differ_in_simple, Evaluator};
use code_optimizer::lists::sorted_distinct;
use code_optimizer::scheme::Scheme;
use code_optimizer::space_codes::find_misplaced_space;
use code_optimizer::types::{
    CharSimpleInfo, Hand, KeyLayout, LogicalRoot, RootGroup, SimpleAssignMode, SimpleCodeConfig, SimpleCodeLevel,
    SimpleCodeStep, EQUIV_TABLE_SIZE, GROUP_MARKER,
};

const SPACE: u8 = 30;

fn layout() -> KeyLayout {
    let mut chars: Vec<(char, usize)> = Vec::new();
    for (i, c) in ('a'..='z').enumerate() {
        chars.push((c, i));
    }
    for (i, c) in [';', ',', '.', '/'].iter().enumerate() {
        chars.push((*c, 26 + i));
    }
    chars.push(('_', SPACE as usize));
    KeyLayout { chars, space: SPACE, hands: vec![Hand::Left; EQUIV_TABLE_SIZE] }
}

fn level(number: usize, code_num: usize, letters: &str, space: bool) -> SimpleCodeLevel {
    let commit = if space { vec![SPACE] } else { Vec::new() };
    SimpleCodeLevel {
        level: number,
        code_num,
        rule_candidates: vec![letters
            .chars()
            .map(|c| SimpleCodeStep { root_selector: c, code_selector: 'a' })
            .collect()],
        commit_keys: commit.clone(),
        commit_pref_last_left: commit.clone(),
        commit_pref_last_right: commit,
        commit_alt_hand_only: false,
    }
}

fn three_levels(code_num: usize, space: [bool; 3]) -> Vec<SimpleCodeLevel> {
    vec![
        level(1, code_num, "A", space[0]),
        level(2, code_num, "AB", space[1]),
        level(3, code_num, "ABC", space[2]),
    ]
}

/// The steps that a rule takes for a character with so many roots, each of one part.
fn resolve(rule: &[SimpleCodeStep], n_roots: usize) -> Option<Vec<(usize, usize)>> {
    rule.iter()
        .map(|s| {
            let root = s.root_selector as usize - 'A' as usize;
            if root < n_roots { Some((root, 0)) } else { None }
        })
        .collect()
}

/// The least frequency that covers a share of the whole; none for everybody.
fn needed(freqs: &[u64], ratio: f64) -> Option<u64> {
    let total: u64 = freqs.iter().sum();
    if ratio >= 1.0 || total == 0 {
        None
    } else {
        (0..=total).find(|f| *f as f64 / total as f64 >= ratio)
    }
}

struct Plan {
    allowed: Vec<u8>,
    levels: Vec<SimpleCodeLevel>,
    enable: bool,
    mode: SimpleAssignMode,
    protect_top_n: usize,
    output_ratio: f64,
    active_ratio: f64,
    fixed: Vec<(char, String)>,
}

fn plan(levels: Vec<SimpleCodeLevel>) -> Plan {
    Plan {
        allowed: vec![0, 1],
        levels,
        enable: true,
        mode: SimpleAssignMode::Efficiency,
        protect_top_n: 0,
        output_ratio: 1.0,
        active_ratio: 1.0,
        fixed: Vec::new(),
    }
}

/// A scheme in which every character has roots of its own, each root in a group of its own.
fn scheme_of(specs: &[(u64, usize)], p: &Plan) -> Scheme {
    let mut groups: Vec<RootGroup> = Vec::new();
    let mut splits: Vec<(char, Vec<String>, u64)> = Vec::new();
    let mut infos: Vec<CharSimpleInfo> = Vec::new();
    let mut rules: Vec<Vec<Vec<(usize, usize)>>> = Vec::new();
    for (i, &(freq, n_roots)) in specs.iter().enumerate() {
        let mut roots = Vec::new();
        let mut logical = Vec::new();
        for j in 0..n_roots {
            let root = format!("r{i}_{j}");
            logical.push(LogicalRoot { full_code_parts: vec![GROUP_MARKER + groups.len() as u16] });
            groups.push(RootGroup { roots: vec![root.clone()], allowed_keys: p.allowed.clone() });
            roots.push(root);
        }
        let resolved: Vec<Option<Vec<(usize, usize)>>> =
            p.levels.iter().map(|l| l.rule_candidates.iter().find_map(|r| resolve(r, n_roots))).collect();
        rules.push(p.levels.iter().flat_map(|l| l.rule_candidates.iter().filter_map(|r| resolve(r, n_roots))).collect());
        infos.push(CharSimpleInfo { logical_roots: logical, level_instructions: resolved });
        splits.push((char::from_u32(0x4e00 + i as u32).unwrap(), roots, freq));
    }
    let freqs: Vec<u64> = specs.iter().map(|s| s.0).collect();
    Scheme {
        splits,
        fixed_roots: Vec::new(),
        groups,
        layout: layout(),
        simple_config: SimpleCodeConfig { levels: p.levels.clone() },
        char_simple_infos: infos,
        resolved_rules: rules,
        enable_simple_code: p.enable,
        simple_assign_mode: p.mode,
        simple_protect_top_n: p.protect_top_n,
        output_coverage: needed(&freqs, p.output_ratio),
        active_coverage: needed(&freqs, p.active_ratio),
    }
}

/// The context of such a scheme.
fn build(specs: &[(u64, usize)], p: Plan) -> OptContext {
    OptContext::new_with_fixed(scheme_of(specs, &p), &p.fixed)
}

fn single_roots(freqs: &[u64]) -> Vec<(u64, usize)> {
    freqs.iter().map(|&f| (f, 1)).collect()
}

fn hidden(e: &Evaluator, _a: &Vec<u8>) -> u64 {
    e.full.collision_frequency
}

fn always(_before: &u64, _after: &u64) -> bool {
    true
}

fn no_worse(before: &u64, after: &u64) -> bool {
    after <= before
}

fn new_activated(ctx: &OptContext, assignment: &Vec<u8>) -> Evaluator {
    let mut ev = Evaluator::new(ctx, assignment);
    ev.suspend_simple(ctx);
    ev.activate_simple(ctx, assignment);
    ev
}

#[test]
fn coverage_ratio_one_includes_zero_freq_chars() {
    let freqs = [100u64, 0, 50, 0, 10];
    let ctx = build(&single_roots(&freqs), plan(Vec::new()));
    assert_eq!(ctx.simple_candidate_chars.len(), freqs.len());
    for ci in 0..freqs.len() {
        assert!(ctx.simple_is_candidate[ci]);
    }
    assert_eq!(ctx.simple_active_frequency, ctx.total_frequency);
}

#[test]
fn coverage_ratio_below_one_excludes_zero_freq_chars() {
    let freqs = [100u64, 0, 50, 0, 10];
    let mut p = plan(Vec::new());
    p.output_ratio = 0.95;
    let ctx = build(&single_roots(&freqs), p);
    for &ci in &[1usize, 3] {
        assert!(!ctx.simple_is_candidate[ci]);
    }
}

#[test]
fn active_candidate_set_is_subset_of_output() {
    let freqs = [100u64, 90, 80, 70, 60, 50, 40, 30];
    let mut p = plan(Vec::new());
    p.active_ratio = 0.5;
    let ctx = build(&single_roots(&freqs), p);
    assert_eq!(ctx.simple_output_candidate_chars.len(), freqs.len());
    assert!(ctx.simple_candidate_chars.len() < ctx.simple_output_candidate_chars.len());
    for ci in &ctx.simple_candidate_chars {
        assert!(ctx.simple_output_candidate_chars.contains(ci));
        assert!(ctx.simple_is_candidate[*ci]);
    }
}

#[test]
fn active_coverage_clamped_to_output_ratio() {
    let freqs = [100u64, 50, 10];
    let mut p = plan(Vec::new());
    p.output_ratio = 0.9;
    let ctx = build(&single_roots(&freqs), p);
    assert_eq!(ctx.simple_candidate_chars, ctx.simple_output_candidate_chars);
    assert_eq!(ctx.simple_candidate_chars, vec![0, 1]);
}

fn coverage(ctx: &OptContext) -> f64 {
    ctx.simple_active_frequency as f64 / ctx.total_frequency as f64
}

#[test]
fn test_config_confirmation_logged_quantities() {
    let freqs = [100u64, 90, 80, 70, 60, 50];
    let total: u64 = freqs.iter().sum();
    let mut p = plan(vec![level(1, 1, "A", false)]);
    p.allowed = vec![0, 1, 2];
    p.output_ratio = 0.6;
    let ctx = build(&single_roots(&freqs), p);
    let candidates = &ctx.simple_candidate_chars;
    assert!(!candidates.is_empty() && candidates.len() <= freqs.len());
    assert!(coverage(&ctx) >= 0.0 && coverage(&ctx) <= 1.0 + 1e-9);
    let cand_freq_sum: u64 = candidates.iter().map(|&ci| ctx.char_infos[ci].frequency).sum();
    let expect_cov = cand_freq_sum as f64 / total as f64;
    assert!((coverage(&ctx) - expect_cov).abs() < 1e-12);
    assert!(coverage(&ctx) >= 0.6 - 1e-12);
}

#[test]
fn test_config_confirmation_full_coverage() {
    let freqs = [100u64, 90, 80];
    let mut p = plan(vec![level(1, 1, "A", false)]);
    p.allowed = vec![0, 1, 2];
    let ctx = build(&single_roots(&freqs), p);
    assert_eq!(ctx.simple_candidate_chars.len(), freqs.len());
    assert!((coverage(&ctx) - 1.0).abs() < 1e-12);
}

#[test]
fn disabled_simple_does_not_grow_resort_buffer() {
    let mut p = plan(Vec::new());
    p.allowed = vec![0, 1, 2, 3];
    p.enable = false;
    let ctx = build(&single_roots(&[5, 4, 3, 2, 1]), p);
    let n = 5usize;
    let mut assignment = vec![0u8; n];
    let mut ev = Evaluator::new(&ctx, &assignment);
    assert!(!ev.simple_active);
    assert!(ev.simple_eval.is_none());
    for step in 0..3000usize {
        let r = step % n;
        let nk = (step % 4) as u8;
        ev.try_move(&ctx, &mut assignment, r, nk, &hidden, &always);
    }
    assert_eq!(ev.full.simple_is_first_dirty.len(), 0);
}

fn sample_specs() -> Vec<(u64, usize)> {
    vec![(100, 1), (90, 2), (80, 3), (70, 2), (60, 1), (50, 3)]
}

fn sample_ctx() -> OptContext {
    let mut p = plan(three_levels(1, [false; 3]));
    p.allowed = vec![0, 1, 2];
    build(&sample_specs(), p)
}

#[test]
fn into_matches_allocating_across_levels_and_assignments() {
    let ctx = sample_ctx();
    let n_chars = ctx.char_infos.len();
    let n_levels = ctx.simple_config.levels.len();
    let n_groups = ctx.groups.len();
    let assignments: Vec<Vec<u8>> = vec![
        vec![0u8; n_groups],
        vec![1u8; n_groups],
        vec![2u8; n_groups],
        (0..n_groups).map(|g| (g % 3) as u8).collect(),
        (0..n_groups).map(|g| ((g + 1) % 3) as u8).collect(),
        (0..n_groups).map(|g| ((g * 2) % 3) as u8).collect(),
    ];
    let mut buf: Vec<u8> = Vec::new();
    let mut saw_some = false;
    let mut saw_none = false;
    for asg in &assignments {
        for ci in 0..n_chars {
            for li in 0..n_levels {
                let allocating = ctx.get_simple_keys(ci, li, asg);
                let ok = ctx.get_simple_keys_into(ci, li, asg, &mut buf);
                match allocating {
                    Some(expected) => {
                        saw_some = true;
                        assert!(ok);
                        assert_eq!(buf, expected);
                    }
                    None => {
                        saw_none = true;
                        assert!(!ok);
                    }
                }
            }
        }
    }
    assert!(saw_some);
    assert!(saw_none);
}

#[test]
fn reused_buffer_capacity_stable_no_per_call_realloc() {
    let ctx = sample_ctx();
    let n_chars = ctx.char_infos.len();
    let n_levels = ctx.simple_config.levels.len();
    let n_groups = ctx.groups.len();
    let asg = vec![0u8; n_groups];
    let mut buf: Vec<u8> = Vec::new();
    let mut max_len = 0usize;
    for ci in 0..n_chars {
        for li in 0..n_levels {
            if ctx.get_simple_keys_into(ci, li, &asg, &mut buf) {
                max_len = max_len.max(buf.len());
            }
        }
    }
    assert!(max_len >= 2);
    buf.clear();
    buf.reserve(max_len);
    let warmed_cap = buf.capacity();
    assert!(warmed_cap >= max_len);
    for round in 0..200usize {
        let asg: Vec<u8> = (0..n_groups).map(|g| ((g + round) % 3) as u8).collect();
        for ci in 0..n_chars {
            for li in 0..n_levels {
                ctx.get_simple_keys_into(ci, li, &asg, &mut buf);
                assert_eq!(buf.capacity(), warmed_cap);
            }
        }
    }
}

fn check_totals(ctx: &OptContext, ev: &Evaluator) {
    let se = ev.simple_eval.as_ref().unwrap();
    let mut expected: Vec<u128> = ctx.fixed_key_usage.clone();
    expected.push(ctx.fixed_key_presses);
    expected.push(ctx.fixed_covered_freq as u128);
    for lvl in &se.sel.levels {
        for (cell, v) in lvl.totals.cells.iter().enumerate() {
            expected[cell] += *v;
        }
    }
    assert_eq!(se.sel.totals.cells, expected);
}

#[test]
fn test_global_aggregates_equal_sum_of_levels_plus_fixed() {
    let ctx = build(
        &[(9, 2), (7, 2), (5, 2), (4, 1), (3, 2), (2, 1), (1, 2)],
        plan(three_levels(1, [false; 3])),
    );
    let n = ctx.groups.len();
    let mut assignment = vec![0u8; n];
    let mut ev = Evaluator::new(&ctx, &assignment);
    assert!(ev.simple_eval.is_some());
    check_totals(&ctx, &ev);
    for step in 0..2000usize {
        let r = step % n;
        let nk = (step % 2) as u8;
        ev.try_move(&ctx, &mut assignment, r, nk, &hidden, &always);
        if step % 50 == 0 {
            check_totals(&ctx, &ev);
        }
    }
    check_totals(&ctx, &ev);
}

#[test]
fn accept_branch_does_not_trigger_full_rebuild() {
    let ctx = build(&[(1000, 2), (800, 2), (600, 1), (5, 1)], plan(three_levels(2, [false; 3])));
    let n_groups = ctx.groups.len();
    let mut assignment = vec![0u8; n_groups];
    let mut ev = new_activated(&ctx, &assignment);
    assert!(ev.simple_eval.is_some() && ev.simple_active);
    let baseline = ev.full_rebuild_calls();
    let r = (0..n_groups).find(|&g| ev.has_simple_impact(&ctx, g)).expect("a group with simple codes");
    assert!(ev.has_simple_impact(&ctx, r));
    let accepted = ev.try_move(&ctx, &mut assignment, r, 1, &hidden, &always);
    assert!(accepted);
    assert_eq!(ev.full_rebuild_calls(), baseline);
    if let Some(rz) = (0..n_groups).find(|&g| assignment[g] == 0) {
        if rz != r && assignment[r] != assignment[rz] {
            let swapped = ev.try_swap(&ctx, &mut assignment, r, rz, &hidden, &always);
            assert!(swapped);
        }
    }
    assert_eq!(ev.full_rebuild_calls(), baseline);
}

#[test]
fn reject_branch_does_not_trigger_full_rebuild() {
    let ctx = build(&[(100_000, 1), (100_000, 1), (1, 1)], plan(three_levels(2, [false; 3])));
    let n_groups = ctx.groups.len();
    assert_eq!(n_groups, 3);
    let mut assignment = vec![0u8, 1u8, 1u8];
    let mut ev = new_activated(&ctx, &assignment);
    assert!(ev.simple_eval.is_some() && ev.simple_active);
    assert!(ev.has_simple_impact(&ctx, 0));
    let baseline = ev.full_rebuild_calls();
    let rejected = !ev.try_move(&ctx, &mut assignment, 0, 1, &hidden, &no_worse);
    assert!(rejected);
    assert_eq!(assignment, vec![0u8, 1u8, 1u8]);
    assert_eq!(ev.full_rebuild_calls(), baseline);
    let swap_rejected = !ev.try_swap(&ctx, &mut assignment, 0, 2, &hidden, &no_worse);
    assert!(swap_rejected);
    assert_eq!(assignment, vec![0u8, 1u8, 1u8]);
    assert_eq!(ev.full_rebuild_calls(), baseline);
}

fn with_fixed(specs: &[(u64, usize)], code_num: usize, space: [bool; 3], fixed: &[(char, &str)]) -> OptContext {
    let mut p = plan(three_levels(code_num, space));
    p.fixed = fixed.iter().map(|(c, s)| (*c, s.to_string())).collect();
    build(specs, p)
}

#[test]
fn fixed_code_level_assignment_by_core_length() {
    let specs = vec![(100u64, 4usize)];
    let ch = char::from_u32(0x4e00).unwrap();
    let ctx0 = with_fixed(&specs, 1, [false; 3], &[(ch, "a")]);
    assert_eq!(ctx0.simple_fixed_codes.len(), 1);
    assert_eq!(ctx0.simple_fixed_codes[0].li, Some(0));
    let ctx1 = with_fixed(&specs, 1, [false; 3], &[(ch, "ab")]);
    assert_eq!(ctx1.simple_fixed_codes.len(), 1);
    assert_eq!(ctx1.simple_fixed_codes[0].li, Some(1));
    let ctx2 = with_fixed(&specs, 1, [false; 3], &[(ch, "abc")]);
    assert_eq!(ctx2.simple_fixed_codes.len(), 1);
    assert_eq!(ctx2.simple_fixed_codes[0].li, Some(2));
}

#[test]
fn fixed_code_underscore_consistency() {
    let specs = vec![(100u64, 4usize)];
    let ch = char::from_u32(0x4e00).unwrap();
    let ctx = with_fixed(&specs, 1, [true, false, false], &[(ch, "a_")]);
    assert_eq!(ctx.simple_fixed_codes.len(), 1);
    assert_eq!(ctx.simple_fixed_codes[0].commit_key, Some(SPACE));
    assert_eq!(ctx.simple_fixed_codes[0].code_str, "a_");
    let ctx2 = with_fixed(&specs, 1, [true, false, false], &[(ch, "a")]);
    assert_eq!(ctx2.simple_fixed_codes.len(), 1);
    assert_eq!(ctx2.simple_fixed_codes[0].commit_key, None);
    assert_eq!(ctx2.simple_fixed_codes[0].code_str, "a");
}

#[test]
fn fixed_code_length_constraint_rejected() {
    let specs = vec![(100u64, 2usize)];
    let ch = char::from_u32(0x4e00).unwrap();
    let ctx = with_fixed(&specs, 1, [false; 3], &[(ch, "ab")]);
    assert_eq!(ctx.simple_fixed_codes.len(), 0);
    let ctx_ok = with_fixed(&specs, 1, [false; 3], &[(ch, "a")]);
    assert_eq!(ctx_ok.simple_fixed_codes.len(), 1);
}

#[test]
fn fixed_code_on_code_num_zero_level() {
    let specs = vec![(100u64, 4usize), (90, 4), (80, 4)];
    let ch = char::from_u32(0x4e00).unwrap();
    let ctx = with_fixed(&specs, 0, [false; 3], &[(ch, "a")]);
    assert_eq!(ctx.simple_fixed_codes.len(), 1);
    assert_eq!(ctx.simple_fixed_codes[0].li, Some(0));
    assert!(!ctx.simple_is_candidate[0]);
    assert!(ctx.fixed_covered_freq >= 100);
    let asg = vec![0u8; ctx.groups.len()];
    let ev = Evaluator::new(&ctx, &asg);
    let se = ev.simple_eval.as_ref().expect("simple_eval");
    let any_selected = se.sel.levels.iter().any(|lvl| lvl.selected.iter().any(|&s| s));
    assert!(!any_selected);
}

#[test]
fn fixed_code_invalid_char_or_unknown_hanzi_rejected() {
    let specs = vec![(100u64, 4usize)];
    let ch = char::from_u32(0x4e00).unwrap();
    let ctx_bad = with_fixed(&specs, 1, [false; 3], &[(ch, "1")]);
    assert_eq!(ctx_bad.simple_fixed_codes.len(), 0);
    let other = char::from_u32(0x9fa5).unwrap();
    let ctx_unknown = with_fixed(&specs, 1, [false; 3], &[(other, "a")]);
    assert_eq!(ctx_unknown.simple_fixed_codes.len(), 0);
}

fn assert_protection_holds(ctx: &OptContext, ev: &Evaluator, asg: &Vec<u8>, n: usize) {
    let se = ev.simple_eval.as_ref().expect("simple codes");
    let full: Vec<u32> = (0..ctx.char_infos.len()).map(|ci| ctx.calc_code_only(ci, asg)).collect();
    for (li, lvl) in se.sel.levels.iter().enumerate() {
        for ci in 0..ctx.char_infos.len() {
            if !lvl.selected[ci] {
                continue;
            }
            let code = ctx.calc_simple_code_eligible(ci, li, asg).expect("a simple code");
            for (owner, f) in full.iter().enumerate() {
                if *f == code {
                    assert!(n > 0 && !ctx.simple_is_topn[owner]);
                }
            }
        }
    }
}

#[test]
fn n0_blocks_bucket_and_propagates_upward() {
    let specs = [(100u64, 1usize), (50, 1), (30, 3)];
    let mut p = plan(three_levels(1, [false; 3]));
    p.mode = SimpleAssignMode::Frequency;
    let ctx = build(&specs, p);
    let asg = vec![0u8; ctx.groups.len()];
    let ev = Evaluator::new(&ctx, &asg);
    assert_protection_holds(&ctx, &ev, &asg, 0);
    let se = ev.simple_eval.as_ref().unwrap();
    assert!(!se.sel.levels[0].selected[2]);
    assert!(se.sel.levels[1].selected[2]);
}

fn selected_set(ev: &Evaluator) -> Vec<usize> {
    let se = ev.simple_eval.as_ref().expect("simple codes");
    (0..se.sel.levels[0].selected.len()).filter(|&ci| se.sel.levels[0].selected[ci]).collect()
}

#[test]
fn active_scope_excludes_passive_output_scope_includes() {
    let freqs = [100u64, 90, 80, 70, 60, 50, 40, 30];
    let specs: Vec<(u64, usize)> = freqs.iter().map(|&f| (f, 2)).collect();
    let mut p = plan(vec![level(1, 1000, "A", false)]);
    p.mode = SimpleAssignMode::Frequency;
    p.active_ratio = 0.5;
    let ctx = build(&specs, p);
    assert!(ctx.simple_candidate_chars.len() < ctx.simple_output_candidate_chars.len());
    let asg = vec![0u8; ctx.groups.len()];
    let sel_active = selected_set(&Evaluator::new(&ctx, &asg));
    for &ci in &sel_active {
        assert!(ctx.simple_is_candidate[ci]);
    }
    let sel_output = selected_set(&Evaluator::new_output_scope(&ctx, &asg));
    assert!(sel_output.len() > sel_active.len());
    assert!(sel_output.iter().any(|&ci| !ctx.simple_is_candidate[ci]));
}

/// Everything that a state decides, in a form that can be compared.
fn digest(ctx: &OptContext, ev: &Evaluator) -> Vec<Vec<u128>> {
    let mut d: Vec<Vec<u128>> = vec![
        ev.full.current_codes.iter().map(|&c| c as u128).collect(),
        vec![ev.full.total_collisions as u128, ev.full.collision_frequency as u128],
        ev.key_weighted_usage.cells.clone(),
    ];
    if let Some(se) = &ev.simple_eval {
        d.push(vec![se.simple_collision_count as u128, se.simple_collision_freq as u128]);
        d.push(se.sel.totals.cells.clone());
        d.push(se.sel.all_assigned_flags.iter().map(|&b| b as u128).collect());
        for lvl in &se.sel.levels {
            d.push(lvl.selected.iter().map(|&b| b as u128).collect());
            d.push(lvl.current_simple_code.iter().map(|c| c.map_or(0, |v| v as u128 + 1)).collect());
            for ci in 0..ctx.char_infos.len() {
                if lvl.selected[ci] {
                    d.push(lvl.sel_keys[ci].iter().map(|&k| k as u128).collect());
                }
            }
        }
        for (li, ci) in se.selected_ordered(ctx) {
            d.push(vec![li as u128, ci as u128]);
        }
    }
    d
}

/// Numbers that look random and are the same in every run.
fn next(state: &mut u64) -> usize {
    *state = state.wrapping_mul(6364136223846793005).wrapping_add(1442695040888963407);
    (*state >> 33) as usize
}

fn many_contexts() -> Vec<OptContext> {
    let specs = [(9u64, 2usize), (7, 3), (5, 2), (4, 1), (3, 3), (2, 1), (1, 2), (6, 3)];
    let mut all = Vec::new();
    for mode in [SimpleAssignMode::Efficiency, SimpleAssignMode::Frequency] {
        for (code_num, top_n, space) in
            [(1, 0, [false; 3]), (2, 0, [true, false, false]), (1, 3, [false; 3]), (2, 2, [true, true, true])]
        {
            for active in [1.0, 0.6] {
                let mut p = plan(three_levels(code_num, space));
                p.mode = mode;
                p.protect_top_n = top_n;
                p.active_ratio = active;
                p.fixed = vec![('\u{4e01}', "a".to_string())];
                all.push(build(&specs, p));
            }
        }
    }
    all
}

#[test]
fn moves_kept_up_to_date_equal_a_rebuild() {
    let mut seed = 7u64;
    for ctx in many_contexts() {
        let n = ctx.groups.len();
        let mut asg = vec![0u8; n];
        let mut ev = Evaluator::new(&ctx, &asg);
        for step in 0..30usize {
            let r = next(&mut seed) % n;
            let s = next(&mut seed) % n;
            if step % 3 == 0 && r != s {
                ev.try_swap(&ctx, &mut asg, r, s, &hidden, &always);
            } else {
                ev.try_move(&ctx, &mut asg, r, (next(&mut seed) % 2) as u8, &hidden, &always);
            }
            assert_eq!(digest(&ctx, &ev), digest(&ctx, &Evaluator::new(&ctx, &asg)));
            assert_protection_holds(&ctx, &ev, &asg, ctx.simple_protect_top_n);
        }
        let before = digest(&ctx, &ev);
        ev.reconcile(&ctx, &asg);
        assert_eq!(before, digest(&ctx, &ev));
        ev.rebuild_simple(&ctx, &asg);
        assert_eq!(before, digest(&ctx, &ev));
        assert_eq!(ev.full_rebuild_calls(), 2);
        assert_eq!(ev.full_rebuild_calls_breakdown(), (1, 1));
    }
}

#[test]
fn refused_moves_change_nothing() {
    let mut seed = 11u64;
    let never = |_b: &u64, _a: &u64| false;
    for ctx in many_contexts() {
        let n = ctx.groups.len();
        let mut asg: Vec<u8> = (0..n).map(|g| (g % 2) as u8).collect();
        let mut ev = Evaluator::new(&ctx, &asg);
        let before = digest(&ctx, &ev);
        let start = asg.clone();
        for _ in 0..12 {
            let (g1, g2, g3) = (next(&mut seed) % n, next(&mut seed) % n, next(&mut seed) % n);
            assert!(!ev.try_move(&ctx, &mut asg, g1, (next(&mut seed) % 2) as u8, &hidden, &never));
            assert!(!ev.try_swap(&ctx, &mut asg, g1, g2, &hidden, &never));
            if g1 != g2 && g2 != g3 && g1 != g3 {
                assert!(!ev.try_rotation(&ctx, &mut asg, g1, g2, g3, &hidden, &never));
            }
            let s = ev.probe_move(&ctx, &mut asg, g1, 1, &hidden);
            let mut there = start.clone();
            there[g1] = 1;
            assert_eq!(s, Evaluator::new(&ctx, &there).full.collision_frequency);
            assert_eq!(asg, start);
            assert_eq!(digest(&ctx, &ev), before);
        }
    }
}

#[test]
fn full_collisions_do_not_depend_on_simple_codes() {
    for ctx in many_contexts() {
        let n = ctx.groups.len();
        let asg: Vec<u8> = (0..n).map(|g| (g % 2) as u8).collect();
        let plain = Evaluator::new_full_only(&ctx, &asg);
        let simple = Evaluator::new(&ctx, &asg);
        let output = Evaluator::new_output_scope(&ctx, &asg);
        assert!(!plain.simple_active && simple.simple_active && output.simple_active);
        for e in [&simple, &output] {
            assert_eq!(plain.full.total_collisions, e.full.total_collisions);
            assert_eq!(plain.full.collision_frequency, e.full.collision_frequency);
        }
    }
}

#[test]
fn first_marks_are_those_of_a_rescan() {
    let mut seed = 5u64;
    for ctx in many_contexts() {
        let n = ctx.groups.len();
        let mut asg = vec![0u8; n];
        let mut ev = Evaluator::new(&ctx, &asg);
        for _ in 0..30 {
            let r = next(&mut seed) % n;
            ev.try_move(&ctx, &mut asg, r, (next(&mut seed) % 2) as u8, &hidden, &always);
            for ci in 0..ctx.char_infos.len() {
                let mine = ctx.calc_code_only(ci, &asg);
                let f = ctx.char_infos[ci].frequency;
                let best = (0..ctx.char_infos.len()).all(|cj| {
                    let g = ctx.char_infos[cj].frequency;
                    cj == ci || ctx.calc_code_only(cj, &asg) != mine || f > g || (f == g && ci < cj)
                });
                assert_eq!(ev.full.is_first_candidate[ci], best);
            }
        }
    }
}

#[test]
fn simple_codes_follow_the_rules() {
    for ctx in many_contexts() {
        let n = ctx.groups.len();
        let asg: Vec<u8> = (0..n).map(|g| ((g / 2) % 2) as u8).collect();
        let ev = Evaluator::new(&ctx, &asg);
        let se = ev.simple_eval.as_ref().unwrap();
        for ci in 0..ctx.char_infos.len() {
            let at: Vec<usize> = (0..se.sel.levels.len()).filter(|&li| se.sel.levels[li].selected[ci]).collect();
            assert!(at.len() <= 1);
            if ctx.simple_fixed_assigned[ci] {
                assert!(at.is_empty() && se.sel.all_assigned_flags[ci]);
            }
            for &li in &at {
                assert!(ctx.simple_is_eligible(ci, li));
                assert!(ctx.simple_is_candidate[ci]);
                assert!(se.sel.all_assigned_flags[ci]);
                let code = ctx.calc_simple_code_eligible(ci, li, &asg);
                assert_eq!(se.sel.levels[li].current_simple_code[ci], code);
                let sharing = (0..ctx.char_infos.len())
                    .filter(|&cj| se.sel.levels[li].selected[cj] && se.sel.levels[li].current_simple_code[cj] == code)
                    .count();
                assert!(sharing <= ctx.simple_annealing_slots(li, code.unwrap()));
            }
        }
        let list = se.selected_ordered(&ctx);
        let total: usize = se.sel.levels.iter().map(|l| l.selected.iter().filter(|b| **b).count()).sum();
        assert_eq!(list.len(), total);
        for pair in list.windows(2) {
            let key = |x: &(usize, usize)| (x.0, se.sel.levels[x.0].current_simple_code[x.1]);
            assert!(key(&pair[0]) <= key(&pair[1]));
        }
    }
}

#[test]
fn exact_numbers_of_a_small_case() {
    let mut p = plan(vec![level(1, 1, "A", false)]);
    p.allowed = vec![0, 1, 2];
    let ctx = build(&[(10, 2), (7, 2), (5, 1)], p);
    // Codes of base 32 with digits one above the keys: keys 0 0, 0 0 and 1.
    let asg = vec![0u8, 0, 0, 0, 1];
    assert_eq!(ctx.calc_code_only(0, &asg), 33);
    assert_eq!(ctx.calc_code_only(2, &asg), 2);
    let ev = Evaluator::new(&ctx, &asg);
    assert_eq!(ev.full.total_collisions, 1);
    assert_eq!(ev.full.collision_frequency, 7);
    assert_eq!(ev.full.full_buckets.backend_kind(), BackendKind::Dense);
    assert_eq!(ev.key_weighted_usage.cells[0], 34);
    assert_eq!(ev.key_weighted_usage.cells[1], 5);
    let se = ev.simple_eval.as_ref().unwrap();
    // The second has more to gain: it is not shown first.
    assert_eq!(se.selected_ordered(&ctx), vec![(0, 1)]);
    assert_eq!(se.sel.levels[0].sel_keys[1], vec![0]);
    assert_eq!(se.sel.totals.cells[32], 7);
    assert_eq!(se.simple_collision_count, 0);
    assert_eq!(ctx.simple_base_saving[0][0], 1);
}

#[test]
fn commit_keys_are_part_of_the_simple_code() {
    let mut p = plan(vec![level(1, 1, "A", true)]);
    p.mode = SimpleAssignMode::Frequency;
    let ctx = build(&[(10, 3), (7, 3)], p);
    let asg = vec![0u8; 6];
    let ev = Evaluator::new(&ctx, &asg);
    let se = ev.simple_eval.as_ref().unwrap();
    assert_eq!(se.selected_ordered(&ctx), vec![(0, 0)]);
    assert_eq!(se.sel.levels[0].sel_keys[0], vec![0, SPACE]);
    assert_eq!(ctx.simple_base_saving[0][0], 1);
    assert_eq!(ctx.commit_key_for_rank(0, 1, 0), Some(SPACE));
    assert_eq!(ctx.commit_key_for_rank(0, 1, 1), None);
}

#[test]
fn a_code_that_ends_in_an_underscore_belongs_where_space_commits() {
    let specs = vec![(100u64, 4usize)];
    let ch = '\u{4e00}';
    let misplaced = |space: [bool; 3], fixed: &[(char, &str)]| {
        let p = plan(three_levels(0, space));
        let list: Vec<(char, String)> = fixed.iter().map(|(c, s)| (*c, s.to_string())).collect();
        find_misplaced_space(&scheme_of(&specs, &p), &list)
    };
    assert_eq!(misplaced([false; 3], &[(ch, "a_")]), Some(0));
    assert_eq!(misplaced([false; 3], &[(ch, "a"), (ch, "b"), (ch, "ab_"), (ch, "a_")]), Some(2));
    assert_eq!(misplaced([false; 3], &[(ch, "abcdef_")]), Some(0));
    assert_eq!(misplaced([true, false, false], &[(ch, "a_")]), None);
    assert_eq!(misplaced([true, false, false], &[(ch, "ab_")]), Some(0));
    assert_eq!(misplaced([false, true, false], &[(ch, "a_")]), None);
    assert_eq!(misplaced([false; 3], &[(ch, "ab"), (ch, ""), (ch, "1_"), ('x', "a_")]), None);
    let mut off = plan(three_levels(0, [false; 3]));
    off.enable = false;
    assert_eq!(find_misplaced_space(&scheme_of(&specs, &off), &vec![(ch, "a_".to_string())]), None);
    let ctx = with_fixed(&specs, 1, [true, false, false], &[(ch, "a_")]);
    assert_eq!(ctx.simple_fixed_codes[0].li, Some(0));
    assert!(ctx.simple_config.levels[0].commit_keys.contains(&ctx.layout.space));
}

#[test]
fn there_is_nothing_at_a_level_that_is_not_there() {
    let ctx = with_fixed(&sample_specs(), 1, [true, false, false], &[('\u{4e02}', "a_")]);
    let asg = vec![0u8; ctx.groups.len()];
    for li in [3usize, 4, usize::MAX] {
        for ci in 0..ctx.char_infos.len() {
            let mut buf = vec![7u8, 7];
            assert!(!ctx.get_simple_keys_into(ci, li, &asg, &mut buf));
            assert!(buf.is_empty());
            assert_eq!(ctx.get_simple_keys(ci, li, &asg), None);
            assert_eq!(ctx.calc_simple_code(ci, li, &asg), None);
            assert_eq!(ctx.calc_simple_code_eligible(ci, li, &asg), None);
            assert!(!ctx.simple_is_eligible(ci, li));
        }
        assert_eq!(ctx.simple_fixed_occ_total(li, 1), 0);
        assert_eq!(ctx.simple_fixed_occ_key(li, 1, SPACE), 0);
        assert_eq!(ctx.simple_annealing_slots(li, 1), 0);
        assert_eq!(ctx.commit_key_for_rank(li, 1, 0), None);
    }
    assert!(!ctx.simple_is_eligible(ctx.char_infos.len(), 0));
    assert!(ctx.simple_is_eligible(1, 0) && !ctx.simple_is_eligible(0, 0));
    assert_eq!(ctx.simple_annealing_slots(0, 1), 0);
    assert_eq!(ctx.simple_annealing_slots(0, 2), 1);
    assert_eq!(ctx.commit_key_for_rank(0, 2, 0), Some(SPACE));
    assert_eq!((ctx.simple_fixed_occ_total(0, 1), ctx.simple_fixed_occ_key(0, 1, SPACE)), (1, 1));
}

#[test]
fn tables_are_filled_only_where_simple_codes_are_optimised() {
    let tables = |ctx: &OptContext| {
        (
            ctx.simple_level_capacity.len(),
            ctx.simple_eligible.len(),
            ctx.simple_base_saving.len(),
            ctx.simple_is_topn.len(),
            ctx.simple_fixed_occupancy.len(),
        )
    };
    let mut p = plan(three_levels(1, [false; 3]));
    p.protect_top_n = 2;
    p.fixed = vec![('\u{4e01}', "a".to_string())];
    let ctx = build(&sample_specs(), p);
    assert_eq!(tables(&ctx), (3, 6, 6, 6, 3));
    assert_eq!(ctx.simple_level_capacity, vec![32, 1024, 32768]);
    assert_eq!(ctx.simple_is_topn, vec![true, true, false, false, false, false]);
    let mut p = plan(three_levels(1, [false; 3]));
    p.protect_top_n = 2;
    p.fixed = vec![('\u{4e01}', "a".to_string())];
    p.enable = false;
    let ctx = build(&sample_specs(), p);
    assert_eq!(tables(&ctx), (0, 0, 0, 0, 0));
    assert!(ctx.simple_fixed_codes.is_empty() && ctx.simple_candidate_chars.is_empty());
    let asg = vec![0u8; ctx.groups.len()];
    for ci in 0..ctx.char_infos.len() {
        for li in 0..3usize {
            assert!(!ctx.simple_is_eligible(ci, li));
            assert_eq!(ctx.calc_simple_code_eligible(ci, li, &asg), None);
        }
    }
    assert_eq!(ctx.get_simple_keys(2, 1, &asg), Some(vec![0, 0]));
    assert_eq!(ctx.calc_simple_code(2, 1, &asg), Some(33));
}

#[test]
fn occupancy_is_kept_only_where_fixed_codes_are_given() {
    let specs = vec![(100u64, 4usize), (90, 4)];
    assert_eq!(with_fixed(&specs, 1, [false; 3], &[]).simple_fixed_occupancy.len(), 0);
    let rejected = with_fixed(&specs, 1, [false; 3], &[('x', "a")]);
    assert!(rejected.simple_fixed_codes.is_empty());
    assert_eq!(rejected.simple_fixed_occupancy.len(), 3);
    let ctx = with_fixed(&specs, 1, [false; 3], &[('\u{4e00}', "ab")]);
    assert_eq!(ctx.simple_fixed_occupancy.len(), 3);
    assert_eq!(ctx.simple_fixed_occ_total(1, 34), 1);
    assert_eq!(ctx.simple_fixed_occ_total(0, 1), 0);
}

#[test]
fn fixed_codes_take_their_characters_out_and_nothing_else() {
    let specs = [(9u64, 2usize), (7, 3), (5, 2), (9, 1), (3, 3), (2, 1), (1, 2), (6, 3)];
    for ratio in [1.0, 0.7, 0.4] {
        let make = |fixed: &[(char, &str)]| {
            let mut p = plan(three_levels(1, [false; 3]));
            p.active_ratio = ratio;
            p.output_ratio = 0.9;
            p.fixed = fixed.iter().map(|(c, s)| (*c, s.to_string())).collect();
            build(&specs, p)
        };
        let bare = make(&[]);
        let ctx = make(&[('\u{4e01}', "a"), ('\u{4e04}', "ab"), ('\u{4e07}', "b"), ('\u{4e03}', "a")]);
        let fixed: Vec<usize> = ctx.simple_fixed_codes.iter().map(|c| c.ci).collect();
        assert_eq!(fixed, vec![1, 4, 7]);
        let less = |list: &Vec<usize>| -> Vec<usize> {
            list.iter().copied().filter(|ci| !fixed.contains(ci)).collect()
        };
        assert_eq!(ctx.simple_candidate_chars, less(&bare.simple_candidate_chars));
        assert_eq!(ctx.simple_output_candidate_chars, less(&bare.simple_output_candidate_chars));
        assert_eq!(ctx.simple_active_frequency, bare.simple_active_frequency);
        assert_eq!(ctx.fixed_covered_freq, 7 + 3 + 6);
        assert_eq!(bare.fixed_covered_freq, 0);
    }
    let bare = build(&specs, plan(three_levels(1, [false; 3])));
    assert_eq!(bare.simple_candidate_chars, vec![0, 3, 1, 7, 2, 4, 5, 6]);
}

#[test]
fn a_move_with_empty_lists_changes_nothing() {
    for ctx in many_contexts() {
        let n = ctx.groups.len();
        let asg: Vec<u8> = (0..n).map(|g| (g % 2) as u8).collect();
        let ev = Evaluator::new(&ctx, &asg);
        let before = digest(&ctx, &ev);
        let mut moved = Evaluator::new(&ctx, &asg);
        let mut se = moved.simple_eval.take().unwrap();
        let none: Vec<usize> = Vec::new();
        let (buckets, first) = (&ev.full.full_buckets, &ev.full.is_first_candidate);
        se.apply_move_incremental(&ctx, &asg, &none, &none, &none, buckets, first);
        assert_eq!(se.stage2_visits, 0);
        moved.simple_eval = Some(se);
        assert_eq!(digest(&ctx, &moved), before);
    }
}

/// Everything that full codes hold, the order within buckets included.
fn full_state(ev: &Evaluator) -> (Vec<u32>, Vec<(u32, Vec<u32>)>, Vec<usize>, Vec<bool>, Vec<usize>, usize, u64) {
    let f = &ev.full;
    let mut buckets: Vec<(u32, Vec<u32>)> =
        f.full_buckets.iter_nonempty().iter().map(|(c, b)| (*c, b.members.clone())).collect();
    buckets.sort();
    (
        f.current_codes.clone(),
        buckets,
        f.char_bucket_pos.clone(),
        f.is_first_candidate.clone(),
        f.simple_is_first_dirty.clone(),
        f.total_collisions,
        f.collision_frequency,
    )
}

#[test]
fn a_character_that_keeps_its_code_stays_where_it_is() {
    for ctx in many_contexts() {
        let n = ctx.groups.len();
        let mut asg: Vec<u8> = (0..n).map(|g| (g % 2) as u8).collect();
        let mut ev = Evaluator::new(&ctx, &asg);
        for ci in [2usize, 0, 5, 2, 7, 1, 3, 4, 6] {
            let before = full_state(&ev);
            ev.update_char(&ctx, &asg, ci);
            assert_eq!(full_state(&ev), before);
        }
        // Group 0 is the first root of character 0 and of nobody else.
        asg[0] = 1 - asg[0];
        for ci in 1..ctx.char_infos.len() {
            let before = full_state(&ev);
            ev.update_char(&ctx, &asg, ci);
            assert_eq!(full_state(&ev), before);
        }
        ev.update_char(&ctx, &asg, 0);
        assert_eq!(ev.full.current_codes, Evaluator::new(&ctx, &asg).full.current_codes);
        let before = full_state(&ev);
        ev.update_char(&ctx, &asg, 0);
        assert_eq!(full_state(&ev), before);
    }
}

/// Puts a group on a key; the simple codes follow, and can still be taken back.
fn apply_move_inc(ev: &mut Evaluator, ctx: &OptContext, asg: &mut Vec<u8>, r: usize, new_key: u8) {
    asg[r] = new_key;
    for ci in ctx.group_to_chars[r].clone() {
        ev.update_char(ctx, asg, ci);
    }
    ev.apply_simple_for_move(ctx, asg, &vec![r]);
}

/// How many candidates a move looks at where each of `n` characters has a key of its own and the
/// first goes to one that is free, and how many candidates there are.
fn sparse_localized_move_visits(n: usize) -> (usize, usize) {
    let freqs: Vec<u64> = (0..n).map(|i| i as u64 + 1).collect();
    let mut p = plan(vec![level(1, 1, "A", false)]);
    p.allowed = (0..n as u8 + 5).collect();
    let ctx = build(&single_roots(&freqs), p);
    assert_eq!(ctx.groups.len(), n);
    let mut asg: Vec<u8> = (0..n as u8).collect();
    let mut ev = Evaluator::new(&ctx, &asg);
    assert_eq!(ev.last_stage2_visits(), 0);
    apply_move_inc(&mut ev, &ctx, &mut asg, 0, n as u8 + 1);
    (ev.last_stage2_visits(), ctx.simple_candidate_chars.len())
}

#[test]
fn b1_stage2_work_is_local_not_candidate_set_size() {
    let (v_small, n_small) = sparse_localized_move_visits(6);
    let (v_large, n_large) = sparse_localized_move_visits(20);
    assert_eq!(v_small, v_large);
    assert!(v_large <= 8);
    assert!(v_large < n_large);
    assert!(n_small == 6 && n_large == 20);
}

#[test]
fn visits_are_counted_from_nothing_with_each_move() {
    // Of two roots each, the first on a key of its own. A move of the first to a free key looks at one
    // candidate named, one whose place may have changed, and the only member of the bucket that it
    // goes to, however many others there are.
    for n in [3usize, 9] {
        let mut p = plan(vec![level(1, 1, "A", false)]);
        p.allowed = (0..n as u8 + 5).collect();
        let ctx = build(&vec![(5, 2); n], p);
        let mut asg: Vec<u8> = (0..2 * n as u8).map(|g| if g % 2 == 0 { g / 2 } else { 0 }).collect();
        let mut ev = Evaluator::new(&ctx, &asg);
        apply_move_inc(&mut ev, &ctx, &mut asg, 0, n as u8 + 1);
        assert_eq!(ev.last_stage2_visits(), 3);
        // The second root takes no part at the level.
        apply_move_inc(&mut ev, &ctx, &mut asg, 1, n as u8 + 1);
        assert_eq!(ev.last_stage2_visits(), 2);
    }
    let mut seed = 3u64;
    for ctx in many_contexts() {
        let n = ctx.groups.len();
        let mut asg = vec![0u8; n];
        let mut ev = Evaluator::new(&ctx, &asg);
        let bound = 6 * (ctx.simple_candidate_chars.len() + 1) * (ctx.simple_config.levels.len() + 1);
        for _ in 0..40 {
            let r = next(&mut seed) % n;
            apply_move_inc(&mut ev, &ctx, &mut asg, r, (next(&mut seed) % 2) as u8);
            let visits = ev.last_stage2_visits();
            assert!(visits <= bound);
            ev.commit_simple(&ctx);
            assert_eq!(ev.last_stage2_visits(), visits);
            ev.rebuild_simple(&ctx, &asg);
            assert_eq!(ev.last_stage2_visits(), visits);
        }
        ev.reconcile(&ctx, &asg);
        assert_eq!(ev.last_stage2_visits(), 0);
        assert_eq!(Evaluator::new_full_only(&ctx, &asg).last_stage2_visits(), 0);
    }
}

#[test]
fn a_move_of_no_candidate_that_frees_no_code_looks_at_nobody() {
    // The last character is too rare for a candidate; it goes from a code that another one has to one
    // that another one has.
    let mut p = plan(vec![level(1, 1, "A", false)]);
    p.mode = SimpleAssignMode::Frequency;
    p.allowed = vec![0, 1, 2];
    p.active_ratio = 0.9;
    p.output_ratio = 0.9;
    let ctx = build(&[(60, 2), (39, 2), (1, 2)], p);
    assert_eq!(ctx.simple_candidate_chars, vec![0, 1]);
    assert!(ctx.group_to_simple_affected_candidate[4].is_empty());
    let mut asg = vec![0u8, 0, 1, 0, 0, 0];
    let mut ev = Evaluator::new(&ctx, &asg);
    apply_move_inc(&mut ev, &ctx, &mut asg, 0, 1);
    assert!(ev.last_stage2_visits() > 0);
    apply_move_inc(&mut ev, &ctx, &mut asg, 0, 0);
    assert!(ev.last_stage2_visits() > 0);
    ev.apply_move(&ctx, &mut asg, 4, 1);
    assert_eq!(ev.last_stage2_visits(), 0);
    assert_eq!(digest(&ctx, &ev), digest(&ctx, &Evaluator::new(&ctx, &asg)));
}

#[test]
fn characters_that_take_a_code_together_protect_it() {
    // Two characters of one group go to a free key at once, and leave it at once.
    for mode in [SimpleAssignMode::Efficiency, SimpleAssignMode::Frequency] {
        let mut p = plan(vec![level(1, 1, "A", false)]);
        p.mode = mode;
        p.allowed = vec![0, 1, 2];
        let mut scheme = scheme_of(&[(9, 1), (8, 1), (7, 2)], &p);
        let shared = scheme.char_simple_infos[0].logical_roots.clone();
        scheme.splits[1].1 = scheme.splits[0].1.clone();
        scheme.char_simple_infos[1].logical_roots = shared;
        let ctx = OptContext::new_with_fixed(scheme, &Vec::new());
        let n = ctx.groups.len();
        assert_eq!(ctx.group_to_chars[0], vec![0, 1]);
        let mut asg = vec![0u8; n];
        asg[2] = 1;
        let mut ev = Evaluator::new(&ctx, &asg);
        for key in [1u8, 2, 0, 1] {
            ev.apply_move(&ctx, &mut asg, 0, key);
            assert_eq!(digest(&ctx, &ev), digest(&ctx, &Evaluator::new(&ctx, &asg)));
            assert_protection_holds(&ctx, &ev, &asg, 0);
        }
    }
}

#[test]
fn groups_without_parts_in_simple_codes_do_not_touch_them() {
    // The second root takes no part at the only level.
    let ctx = build(&[(9, 2), (5, 2)], plan(vec![level(1, 1, "A", false)]));
    let a = vec![0u8; 4];
    assert!(!differ_in_simple(&ctx, &a, &a));
    let ev = Evaluator::new(&ctx, &a);
    for g in 0..4usize {
        let mut b = a.clone();
        b[g] = 1;
        assert_eq!(differ_in_simple(&ctx, &a, &b), g % 2 == 0);
        assert_eq!(ev.has_simple_impact(&ctx, g), g % 2 == 0);
    }
    assert!(differ_in_simple(&ctx, &a, &vec![0, 1, 1, 0]));
    assert!(!differ_in_simple(&ctx, &a, &vec![0, 1, 0, 1]));
}

#[test]
fn lists_are_sorted_and_hold_each_number_once() {
    assert_eq!(sorted_distinct(&vec![3, 1, 3, 2, 1]), vec![1, 2, 3]);
    assert_eq!(sorted_distinct(&vec![7]), vec![7]);
    assert_eq!(sorted_distinct(&Vec::new()), Vec::<usize>::new());
    assert_eq!(sorted_distinct(&vec![5, 5, 5, 5]), vec![5]);
}
