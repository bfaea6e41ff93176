use assembler::links_compaction::{is_circular_chain, resolve_chains};

fn check_cover(chains: &[Vec<usize>], n: usize) {
    let mut seen = vec![0usize; n];
    for c in chains {
        assert!(!c.is_empty());
        for &x in c {
            seen[x] += 1;
        }
    }
    assert!(seen.iter().all(|&s| s == 1));
}

#[test]
fn linear_loop_and_isolated_endpoints() {
    // 0 -> 1 -> 2, 3 -> 3, 4 alone
    let next = vec![Some(1), Some(2), None, Some(3), None];
    let chains = resolve_chains(&next);
    assert_eq!(chains, vec![vec![0, 1, 2], vec![4], vec![3]]);
    check_cover(&chains, 5);
    let circular: Vec<bool> = chains.iter().map(|c| is_circular_chain(c, &next)).collect();
    assert_eq!(circular, vec![false, false, true]);
}

#[test]
fn long_chain_and_cycle_cover_every_endpoint() {
    let n = 50;
    // 0..30 form a path, 30..50 a cycle
    let mut next: Vec<Option<usize>> = (0..n).map(|i| Some(i + 1)).collect();
    next[29] = None;
    next[49] = Some(30);
    let chains = resolve_chains(&next);
    check_cover(&chains, n);
    assert_eq!(chains.len(), 2);
    assert_eq!(chains[0], (0..30).collect::<Vec<usize>>());
    assert_eq!(chains[1], (30..50).collect::<Vec<usize>>());
    assert!(is_circular_chain(&chains[1], &next));
    assert!(!is_circular_chain(&chains[0], &next));
}

#[test]
fn no_endpoints_no_chains() {
    assert!(resolve_chains(&vec![]).is_empty());
}
