use threshold_envelope::scan::{Attempt, ReconstructError, Scan, Share, Step};

/// Runs a scan where `table[i][j]` is what identity `j` makes of stanza `i`:
/// 0 not mine, 1 recovered (key `[i]`), 2 failed. Returns the result and the
/// attempts made.
fn run(
    threshold: usize,
    table: &[Vec<u8>],
    n_identities: usize,
) -> (Result<Vec<Share>, ReconstructError>, Vec<(usize, usize)>) {
    let mut scan = Scan::new(threshold, table.len(), n_identities);
    let mut tried = vec![];
    loop {
        match scan.next() {
            Step::Reconstruct => return (Ok(scan.into_shares()), tried),
            Step::NotEnoughShares => return (Err(ReconstructError::NotEnoughShares), tried),
            Step::Attempt { stanza, identity } => {
                tried.push((stanza, identity));
                let attempt = match table[stanza][identity] {
                    0 => Attempt::NotMine,
                    1 => Attempt::Recovered(vec![stanza as u8]),
                    _ => Attempt::Failed,
                };
                if let Err(e) = scan.record(attempt) {
                    return (Err(e), tried);
                }
            }
        }
    }
}

#[test]
fn early_stop_after_threshold() {
    // Identity 1 opens stanza 0, identity 0 opens stanza 2.
    let table = vec![vec![0, 1], vec![0, 0], vec![1, 0], vec![1, 0], vec![0, 1]];
    let (r, tried) = run(2, &table, 2);
    let shares = r.unwrap();
    assert_eq!(shares.len(), 2);
    assert_eq!((shares[0].index, shares[1].index), (1, 3));
    assert_eq!((shares[0].key.clone(), shares[1].key.clone()), (vec![0], vec![2]));
    assert!(tried.iter().all(|&(s, _)| s < 3));
    assert_eq!(tried, vec![(0, 0), (0, 1), (1, 0), (1, 1), (2, 0)]);
}

#[test]
fn failure_aborts_even_with_enough_shares_later() {
    let table = vec![vec![2, 1], vec![1, 0], vec![0, 1], vec![1, 0]];
    let (r, tried) = run(2, &table, 2);
    assert_eq!(r.err(), Some(ReconstructError::UnwrapError));
    assert_eq!(tried, vec![(0, 0)]);
}

#[test]
fn too_few_openable_stanzas() {
    let table = vec![vec![1], vec![0], vec![1], vec![0]];
    let (r, tried) = run(3, &table, 1);
    assert_eq!(r.err(), Some(ReconstructError::NotEnoughShares));
    assert_eq!(tried.len(), 4);
}

#[test]
fn threshold_above_stanza_count() {
    let table = vec![vec![1], vec![1]];
    let (r, _) = run(3, &table, 1);
    assert_eq!(r.err(), Some(ReconstructError::NotEnoughShares));
}

#[test]
fn no_identities_gives_not_enough_shares() {
    let table = vec![vec![], vec![]];
    let (r, tried) = run(1, &table, 0);
    assert_eq!(r.err(), Some(ReconstructError::NotEnoughShares));
    assert!(tried.is_empty());
}

#[test]
fn any_subset_of_threshold_size_reconstructs() {
    // Five stanzas, each owned by the identity of the same number; every
    // choice of two identities gathers exactly the shares they own.
    for a in 0..5usize {
        for b in (a + 1)..5usize {
            let table: Vec<Vec<u8>> = (0..5)
                .map(|s| vec![(s == a) as u8, (s == b) as u8])
                .collect();
            let (r, _) = run(2, &table, 2);
            let shares = r.unwrap();
            let idx: Vec<usize> = shares.iter().map(|s| s.index).collect();
            assert_eq!(idx, vec![a + 1, b + 1]);
        }
    }
}

#[test]
fn threshold_zero_reconstructs_at_once() {
    let table = vec![vec![2]];
    let (r, tried) = run(0, &table, 1);
    assert!(r.unwrap().is_empty());
    assert!(tried.is_empty());
}
