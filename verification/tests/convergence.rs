//! Randomized convergence testing: random local edits spread across 2-4 simulated
//! sites produce a set of operations; several independent random causal orderings of
//! that set are replayed into fresh documents, which must all end with the same text.

use std::collections::HashSet;

use cadence::{Doc, OpId, Operation};

const NUM_REPLICAS: usize = 4;

/// A small deterministic pseudo-random generator (64-bit LCG).
struct Lcg(u64);

impl Lcg {
    fn next(&mut self) -> u64 {
        self.0 = self.0.wrapping_mul(6364136223846793005).wrapping_add(1442695040888963407);
        self.0 >> 33
    }
}

fn prerequisite(op: &Operation) -> Option<OpId> {
    match op {
        Operation::Insert { after, .. } => *after,
        Operation::Delete { target } => Some(*target),
    }
}

/// A causally valid order of `ops`, always picking the ready op with the lowest priority.
fn topo_order_by_priority(ops: &[Operation], priorities: &[u64]) -> Vec<Operation> {
    let mut emitted_ids: HashSet<OpId> = HashSet::new();
    let mut done = vec![false; ops.len()];
    let mut order = Vec::with_capacity(ops.len());
    for _ in 0..ops.len() {
        let mut best: Option<usize> = None;
        for i in 0..ops.len() {
            if done[i] {
                continue;
            }
            let ready = match prerequisite(&ops[i]) {
                None => true,
                Some(dep) => emitted_ids.contains(&dep),
            };
            if !ready {
                continue;
            }
            let better = match best {
                None => true,
                Some(b) => priorities[i] < priorities[b],
            };
            if better {
                best = Some(i);
            }
        }
        let idx = best.expect("dependency graph is acyclic: some op must be ready");
        done[idx] = true;
        if let Operation::Insert { id, .. } = &ops[idx] {
            emitted_ids.insert(*id);
        }
        order.push(ops[idx].clone());
    }
    order
}

fn generate(rng: &mut Lcg) -> Vec<Operation> {
    let num_sites = 2 + (rng.next() % 3) as usize;
    let num_actions = 1 + (rng.next() % 40) as usize;
    let mut sites: Vec<Doc> = (0..num_sites).map(|i| Doc::new(i as u32)).collect();
    let mut ops = Vec::new();
    for _ in 0..num_actions {
        let site = &mut sites[(rng.next() % num_sites as u64) as usize];
        let insert = rng.next() % 3 != 0;
        if insert {
            let pos = (rng.next() as usize) % (site.len() + 1);
            let ch = (b'a' + (rng.next() % 26) as u8) as char;
            ops.push(site.insert_local(pos, ch));
        } else if site.len() > 0 {
            let pos = (rng.next() as usize) % site.len();
            ops.push(site.delete_local(pos));
        }
        // occasionally let one site catch up with everything produced so far
        if rng.next() % 4 == 0 {
            let target = (rng.next() % num_sites as u64) as usize;
            for op in &ops {
                sites[target].apply_remote(op.clone());
            }
        }
    }
    ops
}

#[test]
fn convergence_under_random_causal_orderings() {
    let mut rng = Lcg(0x5eed);
    for _case in 0..300 {
        let ops = generate(&mut rng);
        if ops.is_empty() {
            continue;
        }
        let results: Vec<String> = (0..NUM_REPLICAS)
            .map(|r| {
                let priorities: Vec<u64> = ops.iter().map(|_| rng.next()).collect();
                let order = topo_order_by_priority(&ops, &priorities);
                let mut replica = Doc::new(1000 + r as u32);
                for op in order {
                    replica.apply_remote(op);
                }
                replica.to_string()
            })
            .collect();
        for pair in results.windows(2) {
            assert_eq!(
                &pair[0], &pair[1],
                "replicas diverged after integrating the same ops in different causally-valid orders"
            );
        }
    }
}

#[test]
fn redelivering_the_whole_history_changes_nothing() {
    let mut rng = Lcg(42);
    for _case in 0..100 {
        let ops = generate(&mut rng);
        let mut replica = Doc::new(77);
        for op in &ops {
            replica.apply_remote(op.clone());
        }
        let before = replica.to_string();
        for op in &ops {
            replica.apply_remote(op.clone());
        }
        assert_eq!(replica.to_string(), before);
    }
}
