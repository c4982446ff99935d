use bingo_odds::compare::{tally_all, tally_for_card, Tally};
use bingo_odds::engine::{bingo_time_from_calltime, call_times_for, make_lines};
use bingo_odds::is_valid_card;
use bingo_odds::perm::{exchange_permute, generate_permutations};
use std::collections::HashSet;

fn identity_card() -> Vec<u8> {
    vec![1, 2, 3, 4, 5, 6, 7, 8]
}

fn reversed_card() -> Vec<u8> {
    vec![8, 7, 6, 5, 4, 3, 2, 1]
}

fn factorial(k: usize) -> usize {
    (1..=k).product()
}

#[test]
fn permutation_generator_is_complete() {
    let perms = generate_permutations();
    assert_eq!(perms.len(), 40320);
    let distinct: HashSet<Vec<u8>> = perms.iter().cloned().collect();
    assert_eq!(distinct.len(), 40320);
    for p in &perms {
        let mut sorted = p.clone();
        sorted.sort();
        assert_eq!(sorted, identity_card());
    }
}

#[test]
fn exchange_permute_yields_factorial_counts() {
    for k in 1..=8usize {
        let mut base = identity_card();
        let mut out: Vec<Vec<u8>> = Vec::new();
        exchange_permute(k, &mut base, &mut out);
        assert_eq!(base, identity_card(), "the working buffer is restored");
        assert_eq!(out.len(), factorial(k));
        let distinct: HashSet<Vec<u8>> = out.iter().cloned().collect();
        assert_eq!(distinct.len(), factorial(k));
        for p in &out {
            assert_eq!(p[k..], identity_card()[k..], "cells beyond k are fixed");
        }
    }
}

#[test]
fn call_time_table_is_inverse() {
    let mut orders = vec![identity_card(), reversed_card()];
    orders.extend(generate_permutations().into_iter().take(100));
    for order in &orders {
        let ct = call_times_for(order);
        assert_eq!(ct.len(), 9);
        for i in 0..8 {
            assert_eq!(ct[order[i] as usize], i as u8);
        }
    }
}

#[test]
fn completion_time_is_a_valid_turn() {
    let line_table = make_lines();
    let perms = generate_permutations();
    for card in perms.iter().take(200) {
        for order in perms.iter().take(50) {
            let ct = call_times_for(order);
            let t = bingo_time_from_calltime(card, &ct, &line_table);
            assert!(t <= 7);
        }
    }
}

#[test]
fn concrete_identity_scenario() {
    let card_a = identity_card();
    let card_b = reversed_card();
    let order = identity_card();
    let ct = call_times_for(&order);
    assert_eq!(ct, vec![0, 0, 1, 2, 3, 4, 5, 6, 7]);
    let line_table = make_lines();
    let t_a = bingo_time_from_calltime(&card_a, &ct, &line_table);
    let t_b = bingo_time_from_calltime(&card_b, &ct, &line_table);
    assert_eq!(t_a, 2);
    assert_eq!(t_b, 2);
    assert_eq!(t_a, t_b, "this call order is a draw");
}

#[test]
fn self_comparison_probability_is_half() {
    let card_a = identity_card();
    let orders = generate_permutations();
    let candidates = vec![card_a.clone()];
    let tallies = tally_all(&card_a, &candidates, &orders);
    assert_eq!(tallies.len(), 1);
    assert_eq!(tallies[0].wins, 0);
    assert_eq!(tallies[0].draws, 40320);
    let p = (tallies[0].wins as f64 + 0.5 * tallies[0].draws as f64) / 40320.0;
    assert_eq!(p, 0.5);
}

#[test]
fn outcomes_partition_either_way_round() {
    let card_a = identity_card();
    let card_b = vec![8, 1, 7, 2, 6, 3, 5, 4];
    let orders = generate_permutations();
    let from_a = tally_all(&card_a, &vec![card_b.clone()], &orders)[0];
    let from_b = tally_all(&card_b, &vec![card_a.clone()], &orders)[0];
    assert_eq!(from_a.wins, 17088);
    assert_eq!(from_a.draws, 7344);
    assert_eq!(from_b.wins, 15888);
    assert_eq!(
        from_a.wins as u64 + from_a.draws as u64 + from_b.wins as u64,
        40320
    );
    assert_eq!(from_a.draws, from_b.draws);
}

#[test]
fn reversed_card_ties_every_order() {
    // The winning-line set is closed under reversing the board positions,
    // so the reversed layout completes at the same turn as the reference
    // under every call order.
    let card_a = identity_card();
    let card_b = reversed_card();
    let orders = generate_permutations();
    let tally = tally_all(&card_a, &vec![card_b.clone()], &orders)[0];
    assert_eq!(tally.wins, 0);
    assert_eq!(tally.draws, 40320);
}

#[test]
fn parallel_tallies_match_sequential_ones() {
    let card_a = identity_card();
    let orders = generate_permutations();
    let candidates: Vec<Vec<u8>> = orders.iter().skip(7).take(12).cloned().collect();
    let parallel = tally_all(&card_a, &candidates, &orders);
    assert_eq!(parallel.len(), candidates.len());

    let line_table = make_lines();
    let call_times: Vec<Vec<u8>> = orders.iter().map(call_times_for).collect();
    let ref_times: Vec<u8> = call_times
        .iter()
        .map(|ct| bingo_time_from_calltime(&card_a, ct, &line_table))
        .collect();
    for (candidate, tally) in candidates.iter().zip(parallel.iter()) {
        let sequential: Tally = tally_for_card(
            &card_a,
            candidate,
            &orders,
            &call_times,
            &ref_times,
            &line_table,
        );
        assert_eq!(*tally, sequential);
        let mut wins: u32 = 0;
        let mut draws: u32 = 0;
        for (ct, &t_a) in call_times.iter().zip(ref_times.iter()) {
            let t_b = bingo_time_from_calltime(candidate, ct, &line_table);
            if t_a < t_b {
                wins += 1;
            } else if t_a == t_b {
                draws += 1;
            }
        }
        assert_eq!(tally.wins, wins);
        assert_eq!(tally.draws, draws);
    }
}

#[test]
fn output_rows_have_ten_fields() {
    let card_a = identity_card();
    let orders = generate_permutations();
    let candidates: Vec<Vec<u8>> = orders.iter().take(60).cloned().collect();
    let tallies = tally_all(&card_a, &candidates, &orders);

    let mut rows: Vec<String> = Vec::new();
    rows.push("B_index,B0,B1,B2,B3,B4,B5,B6,B7,Prob_A_wins".to_string());
    for (idx, (card_b, tally)) in candidates.iter().zip(tallies.iter()).enumerate() {
        let p = (tally.wins as f64 + 0.5 * tally.draws as f64) / 40320.0;
        rows.push(format!(
            "{},{},{},{},{},{},{},{},{},{}",
            idx, card_b[0], card_b[1], card_b[2], card_b[3], card_b[4], card_b[5], card_b[6],
            card_b[7], p
        ));
    }
    assert_eq!(rows.len(), candidates.len() + 1);
    assert_eq!(
        rows[0].split(',').collect::<Vec<&str>>(),
        vec!["B_index", "B0", "B1", "B2", "B3", "B4", "B5", "B6", "B7", "Prob_A_wins"]
    );
    for row in rows.iter().skip(1) {
        assert_eq!(row.split(',').count(), 10);
    }
}

#[test]
fn card_validation_accepts_exactly_the_permutations() {
    assert!(is_valid_card(&identity_card()));
    assert!(is_valid_card(&reversed_card()));
    assert!(!is_valid_card(&vec![1, 2, 3, 4, 5, 6, 7]));
    assert!(!is_valid_card(&vec![1, 2, 3, 4, 5, 6, 7, 7]));
    assert!(!is_valid_card(&vec![0, 2, 3, 4, 5, 6, 7, 8]));
    assert!(!is_valid_card(&vec![1, 2, 3, 4, 5, 6, 7, 9]));
}
