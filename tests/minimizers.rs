use kr2r_squid::minimizer::{kmer_minimizer, minimizers, window_hash, MinimizerConfig, MinimizerScanner};

fn cfg(k: usize, l: usize) -> MinimizerConfig {
    MinimizerConfig { k, l, seed_mask: u64::MAX, toggle_mask: 0 }
}

fn revcomp(s: &[u8]) -> Vec<u8> {
    s.iter()
        .rev()
        .map(|b| match b {
            b'A' => b'T',
            b'T' => b'A',
            b'C' => b'G',
            b'G' => b'C',
            b'a' => b't',
            b't' => b'a',
            b'c' => b'g',
            b'g' => b'c',
            x => *x,
        })
        .collect()
}

#[test]
fn short_sequence_yields_nothing() {
    assert!(minimizers(b"ACGT", &cfg(5, 3)).is_empty());
    assert!(minimizers(b"", &cfg(1, 1)).is_empty());
    assert_eq!(minimizers(b"ACGTA", &cfg(5, 3)).len(), 1);
}

#[test]
fn exact_values() {
    // AC: forward 1, reverse complement GT = 11; CG: both 6
    assert_eq!(window_hash(b"ACG", 0, &cfg(3, 2)), Some(1));
    assert_eq!(window_hash(b"ACG", 1, &cfg(3, 2)), Some(6));
    assert_eq!(minimizers(b"ACG", &cfg(3, 2)), vec![Some(1)]);
    // TT: forward 15, reverse complement AA = 0
    assert_eq!(minimizers(b"TTT", &cfg(2, 2)), vec![Some(0), Some(0)]);
    // lower case reads as upper case
    assert_eq!(minimizers(b"acg", &cfg(3, 2)), vec![Some(1)]);
}

#[test]
fn masks_apply() {
    let c = MinimizerConfig { k: 3, l: 2, seed_mask: 0b1110, toggle_mask: 0b0101 };
    // CG: canonical 6 -> masked 6 -> toggled 3; AC: canonical 1 -> masked 0 -> toggled 5
    assert_eq!(window_hash(b"ACG", 1, &c), Some(3));
    assert_eq!(window_hash(b"ACG", 0, &c), Some(5));
    // least hash is 3 (from CG), emitted as 3 ^ 5 = 6
    assert_eq!(kmer_minimizer(b"ACG", 0, &c), Some(6));
}

#[test]
fn ambiguous_base_blocks_its_kmers() {
    let m = minimizers(b"ACGNACGT", &cfg(3, 2));
    assert_eq!(m.len(), 6);
    assert_eq!(m[0], Some(1));
    assert_eq!(m[1], None);
    assert_eq!(m[2], None);
    assert_eq!(m[3], None);
    assert!(m[4].is_some());
    assert!(m[5].is_some());
}

#[test]
fn reverse_complement_keeps_minimizers() {
    let s = b"ACGATCGACGACGTTAGCNNACGTAGGCTAGCTAGGATCCA".to_vec();
    for (k, l) in [(5usize, 3usize), (7, 4), (11, 11), (15, 8)] {
        let c = MinimizerConfig { k, l, seed_mask: 0xffff_fff3, toggle_mask: 0x5a5a };
        let a = minimizers(&s, &c);
        let mut b = minimizers(&revcomp(&s), &c);
        b.reverse();
        assert_eq!(a, b);
        let mut x: Vec<u64> = a.iter().flatten().cloned().collect();
        let mut y: Vec<u64> = b.iter().flatten().cloned().collect();
        x.sort();
        y.sort();
        assert_eq!(x, y);
    }
}

#[test]
fn extraction_is_deterministic() {
    let s = b"ACGATCGACGACGTTAGCTAGGATCCA";
    let c = cfg(9, 5);
    assert_eq!(minimizers(s, &c), minimizers(s, &c));
}

#[test]
fn scanner_matches_batch_extraction() {
    let s = b"ACGATCGACGACG".to_vec();
    let c = cfg(5, 5);
    let all = minimizers(&s, &c);
    let mut sc = MinimizerScanner::new(s, c);
    let mut got = Vec::new();
    while let Some(m) = sc.next_minimizer() {
        got.push(m);
    }
    assert_eq!(got, all);
    assert_eq!(got.len(), 9);
    assert_eq!(sc.next_minimizer(), None);
}

fn pseudo_sequence(len: usize) -> Vec<u8> {
    let mut x: u64 = 0x9e37_79b9_7f4a_7c15;
    let mut out = Vec::new();
    for _ in 0..len {
        x ^= x << 13;
        x ^= x >> 7;
        x ^= x << 17;
        let b = match x % 23 {
            0 => b'N',
            1..=5 => b'A',
            6..=11 => b'C',
            12..=16 => b'g',
            _ => b'T',
        };
        out.push(b);
    }
    out
}

#[test]
fn queue_scan_matches_direct_per_kmer() {
    let s = pseudo_sequence(600);
    for (k, l) in [(1usize, 1usize), (4, 2), (15, 15), (21, 11), (35, 31), (40, 31)] {
        let c = MinimizerConfig { k, l, seed_mask: 0xffff_ffff_ffff_fff0, toggle_mask: 0xe37e_28c4_271b_5a2d };
        let all = minimizers(&s, &c);
        assert_eq!(all.len(), s.len() - k + 1);
        for (p, m) in all.iter().enumerate() {
            assert_eq!(*m, kmer_minimizer(&s, p, &c));
        }
    }
}

#[test]
fn longest_lmer_encodes_exactly() {
    let s = vec![b'T'; 31];
    let c = cfg(31, 31);
    // all T: forward is 4^31 - 1, reverse complement all A is 0
    assert_eq!(window_hash(&s, 0, &c), Some(0));
    let s = b"ACGTACGTACGTACGTACGTACGTACGTACG".to_vec();
    let mut fwd: u64 = 0;
    for b in &s {
        fwd = fwd * 4 + match b { b'A' => 0, b'C' => 1, b'G' => 2, _ => 3 };
    }
    let mut rc: u64 = 0;
    for b in revcomp(&s) {
        rc = rc * 4 + match b { b'A' => 0, b'C' => 1, b'G' => 2, _ => 3 };
    }
    assert_eq!(minimizers(&s, &c), vec![Some(fwd.min(rc))]);
}
