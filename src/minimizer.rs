//! Canonical minimizer extraction over nucleotide byte sequences.
use vstd::prelude::*;

verus! {

/// The 2-bit code of a nucleotide byte (either case), 4 for any other byte.
pub open spec fn base_code(b: u8) -> int {
    if b == 65 || b == 97 {
        0
    } else if b == 67 || b == 99 {
        1
    } else if b == 71 || b == 103 {
        2
    } else if b == 84 || b == 116 {
        3
    } else {
        4
    }
}

pub open spec fn is_base(b: u8) -> bool {
    base_code(b) < 4
}

/// The complementary nucleotide, case kept; any other byte stays as it is.
pub open spec fn complement(b: u8) -> u8 {
    if b == 65 {
        84u8
    } else if b == 84 {
        65u8
    } else if b == 67 {
        71u8
    } else if b == 71 {
        67u8
    } else if b == 97 {
        116u8
    } else if b == 116 {
        97u8
    } else if b == 99 {
        103u8
    } else if b == 103 {
        99u8
    } else {
        b
    }
}

/// The reverse complement of a sequence.
pub open spec fn revcomp(s: Seq<u8>) -> Seq<u8> {
    Seq::new(s.len(), |i: int| complement(s[s.len() - 1 - i]))
}

/// The codes of the bytes of `w`.
pub open spec fn codes(w: Seq<u8>) -> Seq<int> {
    w.map_values(|b: u8| base_code(b))
}

/// The codes of the reverse complement of a code sequence.
pub open spec fn rc_codes(c: Seq<int>) -> Seq<int> {
    Seq::new(c.len(), |i: int| 3 - c[c.len() - 1 - i])
}

/// A code sequence read as a base-4 number, first code most significant.
pub open spec fn enc(c: Seq<int>) -> int
    decreases c.len(),
{
    if c.len() == 0 {
        0
    } else {
        enc(c.drop_last()) * 4 + c.last()
    }
}

pub open spec fn pow4(n: nat) -> int
    decreases n,
{
    if n == 0 {
        1
    } else {
        4 * pow4((n - 1) as nat)
    }
}

/// The smaller of the encodings of a window and of its reverse complement.
pub open spec fn canonical(w: Seq<u8>) -> int {
    let f = enc(codes(w));
    let r = enc(rc_codes(codes(w)));
    if f <= r {
        f
    } else {
        r
    }
}

/// Parameters of extraction.
#[derive(Clone, Copy, Debug, PartialEq, Eq)]
pub struct MinimizerConfig {
    /// k-mer length.
    pub k: usize,
    /// Minimizer (l-mer) length.
    pub l: usize,
    /// Spaced-seed mask applied to each canonical l-mer; all ones for none.
    pub seed_mask: u64,
    /// Mask xor-ed into each masked l-mer to order candidates.
    pub toggle_mask: u64,
}

impl MinimizerConfig {
    /// Each l-mer fits in 62 bits, and lies within its k-mer.
    pub open spec fn wf(&self) -> bool {
        1 <= self.l <= self.k && self.l <= 31
    }
}

/// The ordering hash of an l-mer window.
pub open spec fn hash_of(w: Seq<u8>, cfg: MinimizerConfig) -> u64 {
    ((canonical(w) as u64) & cfg.seed_mask) ^ cfg.toggle_mask
}

/// The hash of the l-mer of `s` that starts at `j`.
pub open spec fn win_hash(s: Seq<u8>, j: int, cfg: MinimizerConfig) -> u64 {
    hash_of(s.subrange(j, j + cfg.l), cfg)
}

/// The hashes of every l-mer of `s`, by start position.
pub open spec fn win_hashes(s: Seq<u8>, cfg: MinimizerConfig) -> Seq<u64> {
    Seq::new((s.len() - cfg.l + 1) as nat, |j: int| win_hash(s, j, cfg))
}

/// The least element of a non-empty sequence.
pub open spec fn seq_min(x: Seq<u64>) -> u64
    decreases x.len(),
{
    if x.len() <= 1 {
        x[0]
    } else {
        let m = seq_min(x.drop_last());
        if x.last() < m {
            x.last()
        } else {
            m
        }
    }
}

/// Every byte of `s` in `[lo, hi)` is a nucleotide.
pub open spec fn all_bases(s: Seq<u8>, lo: int, hi: int) -> bool {
    forall|i: int| lo <= i < hi ==> #[trigger] is_base(s[i])
}

/// The minimizer of the k-mer of `s` at `p`: none when the k-mer holds a
/// byte that is not a nucleotide, else the masked canonical l-mer whose hash
/// is least among the l-mers of the k-mer.
pub open spec fn minimizer_at(s: Seq<u8>, p: int, cfg: MinimizerConfig) -> Option<u64> {
    if all_bases(s, p, p + cfg.k) {
        Some(seq_min(win_hashes(s, cfg).subrange(p, p + cfg.k - cfg.l + 1)) ^ cfg.toggle_mask)
    } else {
        None
    }
}

/// One entry per k-mer position of `s`, none for a sequence shorter than k.
pub open spec fn minimizer_seq(s: Seq<u8>, cfg: MinimizerConfig) -> Seq<Option<u64>> {
    if s.len() < cfg.k {
        Seq::empty()
    } else {
        Seq::new((s.len() - cfg.k + 1) as nat, |p: int| minimizer_at(s, p, cfg))
    }
}

proof fn lemma_enc_prepend(d: int, y: Seq<int>)
    ensures
        enc(seq![d] + y) == d * pow4(y.len()) + enc(y),
    decreases y.len(),
{
    if y.len() == 0 {
        assert((seq![d] + y).drop_last() =~= Seq::<int>::empty());
        assert((seq![d] + y).last() == d);
        assert(pow4(0) == 1);
        assert(enc(Seq::<int>::empty()) == 0);
        assert(enc(seq![d] + y) == d);
        assert(d * pow4(y.len()) == d);
    } else {
        let y0 = y.drop_last();
        assert((seq![d] + y).drop_last() =~= seq![d] + y0);
        assert((seq![d] + y).last() == y.last());
        assert(enc(y) == enc(y0) * 4 + y.last());
        lemma_enc_prepend(d, y0);
        assert(pow4(y.len()) == 4 * pow4(y0.len()));
        assert(enc(seq![d] + y) == (d * pow4(y0.len()) + enc(y0)) * 4 + y.last());
        assert((d * pow4(y0.len()) + enc(y0)) * 4 == d * (4 * pow4(y0.len())) + enc(y0) * 4)
            by (nonlinear_arith);
        assert(d * pow4(y.len()) == d * (4 * pow4(y0.len())));
    }
}

proof fn lemma_pow4_bound(n: nat)
    requires
        n <= 31,
    ensures
        1 <= pow4(n) <= pow4(31),
        pow4(31) == 0x4000_0000_0000_0000,
    decreases 31 - n,
{
    reveal_with_fuel(pow4, 32);
    if n < 31 {
        lemma_pow4_bound(n + 1);
        assert(pow4(n + 1) == 4 * pow4(n));
    }
}

/// The 2-bit code of a byte, `None` for a byte that is not a nucleotide.
fn code_of(b: u8) -> (r: Option<u64>)
    ensures
        r is Some <==> is_base(b),
        r matches Some(c) ==> c == base_code(b),
{
    if b == 65 || b == 97 {
        Some(0)
    } else if b == 67 || b == 99 {
        Some(1)
    } else if b == 71 || b == 103 {
        Some(2)
    } else if b == 84 || b == 116 {
        Some(3)
    } else {
        None
    }
}

/// The hash of the l-mer at `j`, `None` when it holds a byte that is not a
/// nucleotide.
pub fn window_hash(s: &[u8], j: usize, cfg: &MinimizerConfig) -> (r: Option<u64>)
    requires
        cfg.wf(),
        j + cfg.l <= s@.len(),
    ensures
        r is Some <==> all_bases(s@, j as int, j + cfg.l),
        r matches Some(h) ==> h == win_hash(s@, j as int, *cfg),
{
    let len: usize = s.len();
    let l = cfg.l;
    let ghost w = s@.subrange(j as int, j + l);
    let mut fwd: u64 = 0;
    let mut rc: u64 = 0;
    let mut pw: u64 = 1;
    let mut t: usize = 0;
    while t < l
        invariant
            cfg.wf(),
            l == cfg.l,
            j + l <= s@.len(),
            len == s@.len(),
            w == s@.subrange(j as int, j + l),
            t <= l,
            pw == pow4(t as nat),
            fwd < pw,
            rc < pw,
            fwd == enc(codes(w.take(t as int))),
            rc == enc(rc_codes(codes(w.take(t as int)))),
            all_bases(s@, j as int, j + t),
        decreases l - t,
    {
        let c = match code_of(s[j + t]) {
            Some(c) => c,
            None => {
                return None;
            },
        };
        proof {
            lemma_pow4_bound(t as nat);
            lemma_pow4_bound((t + 1) as nat);
            let x = codes(w.take(t as int));
            let x1 = codes(w.take(t + 1));
            assert(x1 =~= x.push(c as int));
            assert(x1.drop_last() =~= x);
            assert(rc_codes(x1) =~= seq![3 - c as int] + rc_codes(x));
            lemma_enc_prepend(3 - c as int, rc_codes(x));
            assert(fwd * 4 + c < pw * 4) by (nonlinear_arith)
                requires
                    fwd < pw,
                    c <= 3,
            ;
            assert((3 - c) * pw + rc < pw * 4) by (nonlinear_arith)
                requires
                    rc < pw,
                    c <= 3,
            ;
        }
        fwd = fwd * 4 + c;
        rc = (3 - c) * pw + rc;
        pw = pw * 4;
        t = t + 1;
    }
    assert(w.take(l as int) =~= w);
    let canon = if fwd <= rc {
        fwd
    } else {
        rc
    };
    Some((canon & cfg.seed_mask) ^ cfg.toggle_mask)
}

proof fn lemma_enc_bound(y: Seq<int>)
    requires
        forall|i: int| 0 <= i < y.len() ==> 0 <= #[trigger] y[i] < 4,
    ensures
        0 <= enc(y) < pow4(y.len()),
    decreases y.len(),
{
    if y.len() > 0 {
        let y0 = y.drop_last();
        lemma_enc_bound(y0);
        assert(y.last() == y[y.len() - 1]);
        assert(pow4(y.len()) == 4 * pow4(y0.len()));
    }
}

/// Running encodings of the last nucleotides read, at most `l` of them: the
/// forward and the reverse-complement encodings of the longest run of
/// nucleotides that ends the bytes read so far, cut to its last `l`.
struct Roller {
    l: usize,
    fwd: u64,
    rc: u64,
    run: usize,
    pw: u64,
    top: u64,
}

impl Roller {
    /// The state after reading the bytes `t`.
    spec fn roll_ok(&self, t: Seq<u8>) -> bool {
        let run = self.run as int;
        let n = t.len() as int;
        &&& 1 <= self.l <= 31
        &&& run <= self.l
        &&& run <= n
        &&& self.top == pow4((self.l - 1) as nat)
        &&& self.pw == pow4(self.run as nat)
        &&& all_bases(t, n - run, n)
        &&& run < self.l && run < n ==> !is_base(t[n - run - 1])
        &&& self.fwd == enc(codes(t.subrange(n - run, n)))
        &&& self.rc == enc(rc_codes(codes(t.subrange(n - run, n))))
        &&& self.fwd < self.pw
        &&& self.rc < self.pw
    }

    fn new(l: usize) -> (r: Roller)
        requires
            1 <= l <= 31,
        ensures
            r.roll_ok(Seq::empty()),
            r.l == l,
    {
        let mut top: u64 = 1;
        let mut i: usize = 1;
        while i < l
            invariant
                1 <= i <= l <= 31,
                top == pow4((i - 1) as nat),
            decreases l - i,
        {
            proof {
                lemma_pow4_bound((i - 1) as nat);
                lemma_pow4_bound(i as nat);
            }
            top = top * 4;
            i = i + 1;
        }
        let r = Roller { l, fwd: 0, rc: 0, run: 0, pw: 1, top };
        assert(Seq::<u8>::empty().subrange(0, 0) =~= Seq::<u8>::empty());
        assert(codes(Seq::<u8>::empty()) =~= Seq::<int>::empty());
        assert(rc_codes(Seq::<int>::empty()) =~= Seq::<int>::empty());
        r
    }

    /// Reads one more byte.
    fn push(&mut self, b: u8, Ghost(t): Ghost<Seq<u8>>)
        requires
            old(self).roll_ok(t),
        ensures
            final(self).roll_ok(t.push(b)),
            final(self).l == old(self).l,
    {
        let ghost n = t.len() as int;
        let ghost t1 = t.push(b);
        let ghost run0 = self.run as int;
        let ghost x = codes(t.subrange(n - run0, n));
        match code_of(b) {
            None => {
                self.fwd = 0;
                self.rc = 0;
                self.run = 0;
                self.pw = 1;
                assert(codes(t1.subrange(n + 1, n + 1)) =~= Seq::<int>::empty());
                assert(rc_codes(Seq::<int>::empty()) =~= Seq::<int>::empty());
                assert(t1[n] == b);
            },
            Some(c) => {
                proof {
                    lemma_pow4_bound(self.run as nat);
                    lemma_pow4_bound((self.l - 1) as nat);
                    lemma_pow4_bound(self.l as nat);
                }
                if self.run < self.l {
                    let ghost x1 = codes(t1.subrange(n - run0, n + 1));
                    proof {
                        lemma_pow4_bound((self.run + 1) as nat);
                        assert(x1 =~= x.push(c as int));
                        assert(x1.drop_last() =~= x);
                        assert(rc_codes(x1) =~= seq![3 - c as int] + rc_codes(x));
                        lemma_enc_prepend(3 - c as int, rc_codes(x));
                        assert(self.fwd * 4 + c < self.pw * 4) by (nonlinear_arith)
                            requires
                                self.fwd < self.pw,
                                c <= 3,
                        ;
                        assert((3 - c) * self.pw + self.rc < self.pw * 4) by (nonlinear_arith)
                            requires
                                self.rc < self.pw,
                                c <= 3,
                        ;
                        assert forall|i: int| n - run0 <= i < n + 1 implies #[trigger] is_base(t1[i]) by {
                            if i < n {
                                assert(t1[i] == t[i]);
                            }
                        }
                    }
                    self.fwd = self.fwd * 4 + c;
                    self.rc = (3 - c) * self.pw + self.rc;
                    self.pw = self.pw * 4;
                    self.run = self.run + 1;
                    proof {
                        let r1 = self.run as int;
                        if r1 < self.l && r1 < n + 1 {
                            assert(t1[n + 1 - r1 - 1] == t[n - run0 - 1]);
                        }
                    }
                } else {
                    let ghost rest = x.drop_first();
                    let ghost x1 = codes(t1.subrange(n + 1 - run0, n + 1));
                    proof {
                        assert forall|i: int| 0 <= i < x.len() implies 0 <= #[trigger] x[i] < 4 by {
                            assert(is_base(t[n - run0 + i]));
                        }
                        assert forall|i: int| 0 <= i < rest.len() implies 0 <= #[trigger] rest[i] < 4 by {
                            assert(rest[i] == x[i + 1]);
                        }
                        lemma_enc_bound(rest);
                        assert(x =~= seq![x[0]] + rest);
                        lemma_enc_prepend(x[0], rest);
                        vstd::arithmetic::div_mod::lemma_fundamental_div_mod_converse(
                            enc(x),
                            self.top as int,
                            x[0],
                            enc(rest),
                        );
                        assert(rc_codes(x).drop_last() =~= rc_codes(rest));
                        assert(rc_codes(x).last() == 3 - x[0]);
                        vstd::arithmetic::div_mod::lemma_fundamental_div_mod_converse(
                            enc(rc_codes(x)),
                            4,
                            enc(rc_codes(rest)),
                            3 - x[0],
                        );
                        assert(x1 =~= rest.push(c as int));
                        assert(x1.drop_last() =~= rest);
                        assert(rc_codes(x1) =~= seq![3 - c as int] + rc_codes(rest));
                        lemma_enc_prepend(3 - c as int, rc_codes(rest));
                        assert((self.fwd % self.top) * 4 + c < self.top * 4) by (nonlinear_arith)
                            requires
                                self.fwd % self.top < self.top,
                                c <= 3,
                        ;
                        assert(self.rc / 4 + (3 - c) * self.top < self.top * 4) by (nonlinear_arith)
                            requires
                                self.rc / 4 < self.top,
                                c <= 3,
                        ;
                        assert forall|i: int| n + 1 - run0 <= i < n + 1 implies #[trigger] is_base(t1[i]) by {
                            if i < n {
                                assert(t1[i] == t[i]);
                            }
                        }
                    }
                    self.fwd = (self.fwd % self.top) * 4 + c;
                    self.rc = self.rc / 4 + (3 - c) * self.top;
                }
            },
        }
    }
}

proof fn lemma_windows_cover(s: Seq<u8>, p: int, cfg: MinimizerConfig)
    requires
        cfg.wf(),
        forall|t: int| 0 <= t < cfg.k - cfg.l + 1 ==> all_bases(s, #[trigger] (p + t), p + t + cfg.l),
    ensures
        all_bases(s, p, p + cfg.k),
{
    assert forall|i: int| p <= i < p + cfg.k implies #[trigger] is_base(s[i]) by {
        let t = if i - p < cfg.k - cfg.l + 1 {
            i - p
        } else {
            cfg.k - cfg.l
        };
        assert(all_bases(s, p + t, p + t + cfg.l));
    }
}

/// The minimizer of the k-mer at `p`.
pub fn kmer_minimizer(s: &[u8], p: usize, cfg: &MinimizerConfig) -> (r: Option<u64>)
    requires
        cfg.wf(),
        p + cfg.k <= s@.len(),
    ensures
        r == minimizer_at(s@, p as int, *cfg),
{
    let len: usize = s.len();
    let cnt: usize = cfg.k - cfg.l + 1;
    let ghost h = win_hashes(s@, *cfg);
    let mut m: u64 = 0;
    let mut t: usize = 0;
    while t < cnt
        invariant
            cfg.wf(),
            cnt == cfg.k - cfg.l + 1,
            p + cfg.k <= s@.len(),
            len == s@.len(),
            h == win_hashes(s@, *cfg),
            t <= cnt,
            forall|u: int| 0 <= u < t ==> all_bases(s@, #[trigger] (p + u), p + u + cfg.l),
            t > 0 ==> m == seq_min(h.subrange(p as int, p + t)),
        decreases cnt - t,
    {
        match window_hash(s, p + t, cfg) {
            None => {
                proof {
                    let q = choose|i: int| p + t <= i < p + t + cfg.l && !is_base(#[trigger] s@[i]);
                    assert(!is_base(s@[q]));
                }
                return None;
            },
            Some(x) => {
                proof {
                    let a = h.subrange(p as int, p + t + 1);
                    assert(a.drop_last() =~= h.subrange(p as int, p + t));
                    assert(a.last() == x);
                    if t == 0 {
                        assert(a[0] == x);
                    }
                }
                m = if t == 0 || x < m {
                    x
                } else {
                    m
                };
            },
        }
        t = t + 1;
    }
    proof {
        lemma_windows_cover(s@, p as int, *cfg);
    }
    Some(m ^ cfg.toggle_mask)
}

/// Some kept candidate at or after window `i` hashes no higher than it.
pub open spec fn covered(dq: Seq<usize>, head: int, h: Seq<u64>, i: int) -> bool {
    exists|q: int| head <= q < dq.len() && dq[q] >= i && #[trigger] h[dq[q] as int] <= h[i]
}

/// The kept candidates, from `head` on, lie in `[lo, hi)` and ascend both in
/// position and in hash.
pub open spec fn queue_ok(dq: Seq<usize>, head: int, h: Seq<u64>, lo: int, hi: int) -> bool {
    &&& 0 <= head <= dq.len()
    &&& forall|q: int| head <= q < dq.len() ==> lo <= #[trigger] dq[q] < hi
    &&& forall|q1: int, q2: int|
        head <= q1 < q2 < dq.len() ==> dq[q1] < dq[q2] && h[dq[q1] as int] < h[dq[q2] as int]
}

/// Every window of `[lo, hi)` is covered by a kept candidate.
pub open spec fn all_covered(dq: Seq<usize>, head: int, h: Seq<u64>, lo: int, hi: int) -> bool {
    forall|i: int| lo <= i < hi ==> #[trigger] covered(dq, head, h, i)
}

proof fn lemma_least_is_seq_min(x: Seq<u64>, f: int)
    requires
        0 <= f < x.len(),
        forall|i: int| 0 <= i < x.len() ==> x[f] <= #[trigger] x[i],
    ensures
        seq_min(x) == x[f],
{
    lemma_seq_min_is_least(x);
    let i0 = choose|i: int| 0 <= i < x.len() && x[i] == seq_min(x);
    assert(x[f] <= x[i0]);
    assert(seq_min(x) <= x[f]);
}

/// Drops from the back every candidate that hashes no lower than window `j`,
/// then keeps `j`.
#[verifier::rlimit(60)]
fn push_candidate(
    dq: &mut Vec<usize>,
    head: usize,
    hs: &Vec<u64>,
    j: usize,
    Ghost(h): Ghost<Seq<u64>>,
    Ghost(lo): Ghost<int>,
)
    requires
        queue_ok(old(dq)@, head as int, h, lo, j as int),
        all_covered(old(dq)@, head as int, h, lo, j as int),
        lo <= j < hs@.len(),
        j < h.len(),
        forall|i: int| lo <= i <= j ==> #[trigger] hs@[i] == h[i],
    ensures
        queue_ok(final(dq)@, head as int, h, lo, j + 1),
        all_covered(final(dq)@, head as int, h, lo, j + 1),
        final(dq)@.len() > head,
        final(dq)@.last() == j,
{
    let x = hs[j];
    while dq.len() > head && hs[dq[dq.len() - 1]] >= x
        invariant
            queue_ok(dq@, head as int, h, lo, j as int),
            lo <= j < hs@.len(),
            j < h.len(),
            x == h[j as int],
            forall|i: int| lo <= i <= j ==> #[trigger] hs@[i] == h[i],
            forall|i: int| lo <= i < j ==> covered(dq@, head as int, h, i) || x <= #[trigger] h[i],
        decreases dq@.len(),
    {
        let ghost before = dq@;
        let last = dq.pop().unwrap();
        assert(h[last as int] >= x);
        assert forall|q: int| head <= q < dq@.len() implies dq@[q] == before[q] by {}
        assert(queue_ok(dq@, head as int, h, lo, j as int));
        assert forall|i: int| lo <= i < j implies covered(dq@, head as int, h, i) || x
            <= #[trigger] h[i] by {
            if covered(before, head as int, h, i) {
                let q = choose|q: int|
                    head <= q < before.len() && before[q] >= i && #[trigger] h[before[q] as int]
                        <= h[i];
                if q < dq@.len() {
                    assert(dq@[q] == before[q]);
                    assert(h[dq@[q] as int] <= h[i]);
                } else {
                    assert(before[q] == last);
                }
            }
        }
    }
    let ghost before = dq@;
    dq.push(j);
    assert forall|i: int| lo <= i < j + 1 implies #[trigger] covered(dq@, head as int, h, i) by {
        let qj = (dq@.len() - 1) as int;
        if i < j && covered(before, head as int, h, i) {
            let q0 = choose|q0: int|
                head <= q0 < before.len() && before[q0] >= i && #[trigger] h[before[q0] as int]
                    <= h[i];
            assert(dq@[q0] == before[q0]);
            assert(h[dq@[q0] as int] <= h[i]);
        } else {
            assert(dq@[qj] == j);
            assert(h[dq@[qj] as int] <= h[i]);
        }
    }
    assert forall|q1: int, q2: int| head <= q1 < q2 < dq@.len() implies dq@[q1] < dq@[q2]
        && h[dq@[q1] as int] < h[dq@[q2] as int] by {
        if q2 == dq@.len() - 1 {
            let b = (before.len() - 1) as int;
            assert(dq@[q1] == before[q1]);
            if q1 < b {
                assert(h[before[q1] as int] < h[before[b] as int]);
            }
        } else {
            assert(dq@[q1] == before[q1] && dq@[q2] == before[q2]);
        }
    }
    assert forall|q: int| head <= q < dq@.len() implies lo <= #[trigger] dq@[q] < j + 1 by {
        if q < before.len() {
            assert(dq@[q] == before[q]);
        }
    }
}

/// Drops from the front every candidate before window `p`; the new front is
/// the least-hashing window of `[p, j]`.
fn advance_front(
    dq: &Vec<usize>,
    head: usize,
    p: usize,
    j: usize,
    Ghost(h): Ghost<Seq<u64>>,
    Ghost(lo): Ghost<int>,
) -> (r: usize)
    requires
        queue_ok(dq@, head as int, h, lo, j + 1),
        all_covered(dq@, head as int, h, lo, j + 1),
        lo <= p <= j,
        j < h.len(),
        dq@.len() > head,
        dq@.last() == j,
    ensures
        queue_ok(dq@, r as int, h, p as int, j + 1),
        all_covered(dq@, r as int, h, p as int, j + 1),
        head <= r < dq@.len(),
        forall|i: int| p <= i <= j ==> h[dq@[r as int] as int] <= #[trigger] h[i],
{
    let len: usize = dq.len();
    let mut r: usize = head;
    while dq[r] < p
        invariant
            len == dq@.len(),
            j < h.len(),
            queue_ok(dq@, r as int, h, lo, j + 1),
            all_covered(dq@, r as int, h, p as int, j + 1),
            head <= r < dq@.len(),
            dq@.last() == j,
            p <= j,
        decreases dq@.len() - r,
    {
        let ghost nr: int = r + 1;
        assert forall|i: int| p <= i < j + 1 implies #[trigger] covered(dq@, nr, h, i) by {
            assert(covered(dq@, r as int, h, i));
            let q = choose|q: int| r <= q < dq@.len() && dq@[q] >= i && #[trigger] h[dq@[q] as int] <= h[i];
            assert(q != r);
        }
        if r + 1 == len {
            assert(dq@[r as int] == j);
        }
        r = r + 1;
    }
    assert forall|q: int| r <= q < dq@.len() implies p <= #[trigger] dq@[q] < j + 1 by {
        if q > r {
            assert(dq@[r as int] < dq@[q]);
        }
    }
    assert forall|i: int| p <= i <= j implies h[dq@[r as int] as int] <= #[trigger] h[i] by {
        assert(covered(dq@, r as int, h, i));
        let q = choose|q: int| r <= q < dq@.len() && dq@[q] >= i && #[trigger] h[dq@[q] as int] <= h[i];
        if q > r {
            assert(h[dq@[r as int] as int] < h[dq@[q] as int]);
        }
    }
    r
}

/// The minimizer of every k-mer position of `s`, in order.
pub fn minimizers(s: &[u8], cfg: &MinimizerConfig) -> (r: Vec<Option<u64>>)
    requires
        cfg.wf(),
    ensures
        r@ == minimizer_seq(s@, *cfg),
{
    let mut copy: Vec<u8> = Vec::with_capacity(s.len());
    let mut i: usize = 0;
    while i < s.len()
        invariant
            i <= s@.len(),
            copy@ == s@.take(i as int),
        decreases s@.len() - i,
    {
        copy.push(s[i]);
        i = i + 1;
        assert(copy@ =~= s@.take(i as int));
    }
    assert(copy@ =~= s@);
    let mut sc = MinimizerScanner::new(copy, *cfg);
    let mut out: Vec<Option<u64>> = Vec::new();
    loop
        invariant
            sc.wf(),
            sc.seq_view() == s@,
            sc.config() == *cfg,
            out@ + sc.rest() == minimizer_seq(s@, *cfg),
        decreases sc.rest().len(),
    {
        let ghost before = sc.rest();
        match sc.next_minimizer() {
            None => {
                assert(out@ =~= minimizer_seq(s@, *cfg));
                return out;
            },
            Some(m) => {
                assert(out@.push(m) + sc.rest() =~= out@ + before);
                out.push(m);
            },
        }
    }
}

/// State of a scan that has taken in the l-mers before `j`: their hashes in
/// `hs`, the candidates from `head` on in `dq`, all l-mers from `floor` on
/// free of other bytes than nucleotides and covered by a candidate.
pub open spec fn scan_ok(
    s: Seq<u8>,
    cfg: MinimizerConfig,
    hs: Seq<u64>,
    dq: Seq<usize>,
    head: int,
    floor: int,
    j: int,
) -> bool {
    let h = win_hashes(s, cfg);
    let cnt = cfg.k - cfg.l + 1;
    &&& cfg.wf()
    &&& s.len() >= cfg.k
    &&& 0 <= floor <= j <= h.len()
    &&& hs.len() == j
    &&& forall|i: int| floor <= i < j ==> #[trigger] all_bases(s, i, i + cfg.l)
    &&& forall|i: int| floor <= i < j ==> #[trigger] hs[i] == h[i]
    &&& floor == 0 || floor + cnt <= j + 1 || !all_bases(s, floor - 1, floor - 1 + cfg.l)
    &&& queue_ok(dq, head, h, floor, j)
    &&& all_covered(dq, head, h, floor, j)
}

/// A lazy scan over the k-mer positions of one sequence, one position per
/// step, with a monotonic queue of candidate l-mers.
pub struct MinimizerScanner {
    seq: Vec<u8>,
    cfg: MinimizerConfig,
    /// The next k-mer position.
    pos: usize,
    /// The next l-mer to take in.
    j: usize,
    hs: Vec<u64>,
    dq: Vec<usize>,
    head: usize,
    floor: usize,
    /// Rolling encodings over the bytes read so far.
    roller: Roller,
    /// Number of bytes read.
    nb: usize,
}

impl MinimizerScanner {
    /// The rolling encodings cover the bytes read, which reach just short of
    /// the end of the l-mer at `j`.
    spec fn reader_ok(&self) -> bool {
        &&& self.roller.roll_ok(self.seq@.take(self.nb as int))
        &&& self.roller.l == self.cfg.l
        &&& self.nb + 1 <= self.j + self.cfg.l
        &&& self.j > 0 ==> self.nb + 1 == self.j + self.cfg.l
    }

    pub closed spec fn seq_view(&self) -> Seq<u8> {
        self.seq@
    }

    pub closed spec fn config(&self) -> MinimizerConfig {
        self.cfg
    }

    /// Number of k-mer positions already scanned.
    pub closed spec fn scanned(&self) -> nat {
        self.pos as nat
    }

    pub closed spec fn wf(&self) -> bool {
        let cnt = self.cfg.k - self.cfg.l + 1;
        &&& self.cfg.wf()
        &&& self.seq@.len() < self.cfg.k ==> self.pos == 0
        &&& self.seq@.len() >= self.cfg.k ==> {
            &&& scan_ok(
                self.seq@,
                self.cfg,
                self.hs@,
                self.dq@,
                self.head as int,
                self.floor as int,
                self.j as int,
            )
            &&& self.reader_ok()
            &&& self.pos <= self.seq@.len() - self.cfg.k + 1
            &&& self.j + 1 <= self.pos + cnt
            &&& self.pos > 0 ==> self.j + 1 == self.pos + cnt
        }
    }

    /// The entries of the positions not yet scanned.
    pub open spec fn rest(&self) -> Seq<Option<u64>> {
        let all = minimizer_seq(self.seq_view(), self.config());
        if self.scanned() <= all.len() {
            all.subrange(self.scanned() as int, all.len() as int)
        } else {
            Seq::empty()
        }
    }

    pub fn new(seq: Vec<u8>, cfg: MinimizerConfig) -> (r: MinimizerScanner)
        requires
            cfg.wf(),
        ensures
            r.wf(),
            r.seq_view() == seq@,
            r.config() == cfg,
            r.rest() == minimizer_seq(seq@, cfg),
    {
        let r = MinimizerScanner {
            seq,
            cfg,
            pos: 0,
            j: 0,
            hs: Vec::new(),
            dq: Vec::new(),
            head: 0,
            floor: 0,
            roller: Roller::new(cfg.l),
            nb: 0,
        };
        assert(r.seq@.take(0) =~= Seq::<u8>::empty());
        assert(r.rest() =~= minimizer_seq(r.seq@, cfg));
        r
    }

    /// Reads on to the end of the l-mer at `j` and gives its hash, `None`
    /// when it holds a byte that is not a nucleotide.
    fn read_window(&mut self) -> (r: Option<u64>)
        requires
            old(self).cfg.wf(),
            old(self).j + old(self).cfg.l <= old(self).seq@.len(),
            old(self).reader_ok(),
        ensures
            final(self).roller.roll_ok(final(self).seq@.take(final(self).nb as int)),
            final(self).roller.l == final(self).cfg.l,
            final(self).nb == old(self).j + old(self).cfg.l,
            final(self).seq == old(self).seq,
            final(self).cfg == old(self).cfg,
            final(self).pos == old(self).pos,
            final(self).j == old(self).j,
            final(self).hs == old(self).hs,
            final(self).dq == old(self).dq,
            final(self).head == old(self).head,
            final(self).floor == old(self).floor,
            r is Some <==> all_bases(old(self).seq@, old(self).j as int, old(self).j + old(self).cfg.l),
            r matches Some(x) ==> x == win_hash(old(self).seq@, old(self).j as int, old(self).cfg),
    {
        let len: usize = self.seq.len();
        let end: usize = self.j + self.cfg.l;
        while self.nb < end
            invariant
                self.roller.roll_ok(self.seq@.take(self.nb as int)),
                self.roller.l == self.cfg.l,
                self.nb <= end,
                end <= len,
                len == self.seq@.len(),
                self.seq == old(self).seq,
                self.cfg == old(self).cfg,
                self.pos == old(self).pos,
                self.j == old(self).j,
                self.hs == old(self).hs,
                self.dq == old(self).dq,
                self.head == old(self).head,
                self.floor == old(self).floor,
                end == old(self).j + old(self).cfg.l,
            decreases end - self.nb,
        {
            let b = self.seq[self.nb];
            let ghost t = self.seq@.take(self.nb as int);
            self.roller.push(b, Ghost(t));
            assert(t.push(b) =~= self.seq@.take(self.nb + 1));
            self.nb = self.nb + 1;
        }
        let ghost s = self.seq@;
        let ghost t = s.take(end as int);
        let ghost j = self.j as int;
        let ghost l = self.cfg.l as int;
        assert(t.subrange(j, j + l) =~= s.subrange(j, j + l));
        if self.roller.run == self.cfg.l {
            assert forall|i: int| j <= i < j + l implies #[trigger] is_base(s[i]) by {
                assert(is_base(t[i]));
            }
            let f = self.roller.fwd;
            let rc = self.roller.rc;
            let canon = if f <= rc {
                f
            } else {
                rc
            };
            Some((canon & self.cfg.seed_mask) ^ self.cfg.toggle_mask)
        } else {
            proof {
                let run = self.roller.run as int;
                assert(!is_base(t[end - run - 1]));
                assert(!is_base(s[end - run - 1]));
            }
            None
        }
    }

    /// Takes in the l-mer at `j`.
    fn take_window(&mut self)
        requires
            scan_ok(
                old(self).seq@,
                old(self).cfg,
                old(self).hs@,
                old(self).dq@,
                old(self).head as int,
                old(self).floor as int,
                old(self).j as int,
            ),
            old(self).j + old(self).cfg.l <= old(self).seq@.len(),
            old(self).reader_ok(),
        ensures
            final(self).reader_ok(),
            scan_ok(
                final(self).seq@,
                final(self).cfg,
                final(self).hs@,
                final(self).dq@,
                final(self).head as int,
                final(self).floor as int,
                final(self).j as int,
            ),
            final(self).seq@ == old(self).seq@,
            final(self).cfg == old(self).cfg,
            final(self).pos == old(self).pos,
            final(self).j == old(self).j + 1,
            final(self).floor < final(self).j ==> final(self).dq@.len() > final(self).head
                && final(self).dq@.last() == old(self).j,
            final(self).floor == old(self).floor || (final(self).floor == final(self).j
                && !all_bases(old(self).seq@, old(self).j as int, old(self).j + old(self).cfg.l)),
    {
        let j = self.j;
        let ghost h = win_hashes(self.seq@, self.cfg);
        let wh = self.read_window();
        match wh {
            None => {
                self.dq = Vec::new();
                self.head = 0;
                self.floor = j + 1;
                self.hs.push(0);
            },
            Some(x) => {
                self.hs.push(x);
                push_candidate(&mut self.dq, self.head, &self.hs, j, Ghost(h), Ghost(self.floor as int));
            },
        }
        self.j = j + 1;
    }

    /// The entry of the next k-mer position, or `None` when every position
    /// has been scanned.
    #[verifier::rlimit(50)]
    pub fn next_minimizer(&mut self) -> (r: Option<Option<u64>>)
        requires
            old(self).wf(),
        ensures
            final(self).wf(),
            final(self).seq_view() == old(self).seq_view(),
            final(self).config() == old(self).config(),
            old(self).rest().len() == 0 ==> r is None && final(self).rest().len() == 0,
            old(self).rest().len() > 0 ==> r == Some(old(self).rest()[0])
                && final(self).rest() == old(self).rest().drop_first(),
    {
        let n: usize = self.seq.len();
        if n < self.cfg.k || self.pos > n - self.cfg.k {
            proof {
                let all = minimizer_seq(self.seq@, self.cfg);
                assert(self.rest().len() == 0);
            }
            return None;
        }
        let cnt: usize = self.cfg.k - self.cfg.l + 1;
        let p: usize = self.pos;
        let ghost s = self.seq@;
        let ghost cfg = self.cfg;
        let ghost h = win_hashes(s, cfg);
        while self.j + 1 < p + cnt
            invariant
                self.seq@ == s,
                self.cfg == cfg,
                self.pos == p,
                h == win_hashes(s, cfg),
                n == s.len(),
                cnt == cfg.k - cfg.l + 1,
                p + cfg.k <= n,
                self.j + 1 <= p + cnt,
                self.reader_ok(),
                scan_ok(
                    self.seq@,
                    self.cfg,
                    self.hs@,
                    self.dq@,
                    self.head as int,
                    self.floor as int,
                    self.j as int,
                ),
            decreases p + cnt - self.j,
        {
            self.take_window();
        }
        let j: usize = self.j;
        let ghost f0 = self.floor;
        assert(f0 == 0 || f0 + cnt <= j + 1 || !all_bases(s, f0 - 1, f0 - 1 + cfg.l));
        self.take_window();
        let out = if self.floor > p {
            proof {
                let bad = self.floor - 1;
                assert(!all_bases(s, bad as int, bad + cfg.l));
                let q = choose|q: int| bad <= q < bad + cfg.l && !is_base(#[trigger] s[q]);
                assert(!is_base(s[q]));
            }
            None
        } else {
            let head = advance_front(&self.dq, self.head, p, j, Ghost(h), Ghost(self.floor as int));
            self.head = head;
            self.floor = p;
            let f = self.dq[head];
            proof {
                let x = h.subrange(p as int, p + cnt);
                assert forall|u: int| 0 <= u < cnt implies all_bases(s, #[trigger] (p + u), p + u + cfg.l) by {}
                lemma_windows_cover(s, p as int, cfg);
                assert forall|i: int| 0 <= i < x.len() implies x[f - p] <= #[trigger] x[i] by {
                    assert(h[self.dq@[head as int] as int] <= h[p + i]);
                }
                lemma_least_is_seq_min(x, f - p);
            }
            Some(self.hs[f] ^ self.cfg.toggle_mask)
        };
        self.pos = p + 1;
        proof {
            let all = minimizer_seq(s, cfg);
            assert(out == all[p as int]);
            assert(final(self).rest() =~= old(self).rest().drop_first());
        }
        Some(out)
    }
}

/// Extraction from a sequence shorter than k yields nothing.
pub proof fn lemma_short_sequence_empty(s: Seq<u8>, cfg: MinimizerConfig)
    requires
        cfg.wf(),
        s.len() < cfg.k,
    ensures
        minimizer_seq(s, cfg).len() == 0,
{
}

/// Extraction is a function of the sequence and the parameters: equal
/// inputs give equal outputs.
pub proof fn lemma_deterministic(s1: Seq<u8>, s2: Seq<u8>, cfg: MinimizerConfig)
    requires
        s1 == s2,
    ensures
        minimizer_seq(s1, cfg) == minimizer_seq(s2, cfg),
{
}

proof fn lemma_seq_min_is_least(x: Seq<u64>)
    requires
        x.len() >= 1,
    ensures
        exists|i: int| 0 <= i < x.len() && x[i] == seq_min(x),
        forall|i: int| 0 <= i < x.len() ==> seq_min(x) <= #[trigger] x[i],
    decreases x.len(),
{
    if x.len() > 1 {
        let y = x.drop_last();
        lemma_seq_min_is_least(y);
        let i0 = choose|i: int| 0 <= i < y.len() && y[i] == seq_min(y);
        assert(x[i0] == y[i0]);
        if x.last() < seq_min(y) {
            assert(x[x.len() - 1] == seq_min(x));
        } else {
            assert(x[i0] == seq_min(x));
        }
        assert forall|i: int| 0 <= i < x.len() implies seq_min(x) <= #[trigger] x[i] by {
            if i < x.len() - 1 {
                assert(x[i] == y[i]);
            }
        }
    } else {
        assert(x[0] == seq_min(x));
    }
}

proof fn lemma_seq_min_mirror(a: Seq<u64>, b: Seq<u64>)
    requires
        a.len() == b.len(),
        a.len() >= 1,
        forall|t: int| 0 <= t < a.len() ==> #[trigger] a[t] == b[a.len() - 1 - t],
    ensures
        seq_min(a) == seq_min(b),
{
    lemma_seq_min_is_least(a);
    lemma_seq_min_is_least(b);
    let ia = choose|i: int| 0 <= i < a.len() && a[i] == seq_min(a);
    let ib = choose|i: int| 0 <= i < b.len() && b[i] == seq_min(b);
    assert(a[ia] == b[a.len() - 1 - ia]);
    assert(a[a.len() - 1 - ib] == b[ib]);
}

proof fn lemma_rc_codes_involutive(c: Seq<int>)
    ensures
        rc_codes(rc_codes(c)) == c,
{
    assert(rc_codes(rc_codes(c)) =~= c);
}

/// A window of the reverse complement reads, in codes, as the reverse
/// complement of the mirrored window of the given sequence.
proof fn lemma_mirrored_window(s: Seq<u8>, j: int, l: int)
    requires
        0 <= j,
        j + l <= s.len(),
        0 <= l,
        all_bases(s, s.len() - j - l, s.len() - j),
    ensures
        codes(revcomp(s).subrange(j, j + l)) == rc_codes(codes(s.subrange(s.len() - j - l, s.len() - j))),
{
    let n = s.len();
    let a = codes(revcomp(s).subrange(j, j + l));
    let b = rc_codes(codes(s.subrange(n - j - l, n - j)));
    assert forall|t: int| 0 <= t < l implies a[t] == b[t] by {
        let x = s[n - 1 - (j + t)];
        assert(is_base(s[n - j - 1 - t]));
        assert(is_base(x));
    }
    assert(a =~= b);
}

proof fn lemma_mirrored_hash(s: Seq<u8>, j: int, cfg: MinimizerConfig)
    requires
        cfg.wf(),
        0 <= j,
        j + cfg.l <= s.len(),
        all_bases(s, s.len() - j - cfg.l, s.len() - j),
    ensures
        win_hash(revcomp(s), j, cfg) == win_hash(s, s.len() - j - cfg.l, cfg),
{
    let n = s.len();
    let l = cfg.l as int;
    let w1 = revcomp(s).subrange(j, j + l);
    let w2 = s.subrange(n - j - l, n - j);
    lemma_mirrored_window(s, j, l);
    lemma_rc_codes_involutive(codes(w2));
    assert(w2 == s.subrange(n - j - l, n - j - l + l));
}

/// Reverse-complementing a sequence reverses its minimizer entries, so the
/// multiset of canonical minimizers is kept.
pub proof fn lemma_revcomp_minimizers(s: Seq<u8>, cfg: MinimizerConfig)
    requires
        cfg.wf(),
    ensures
        minimizer_seq(revcomp(s), cfg) == minimizer_seq(s, cfg).reverse(),
        minimizer_seq(revcomp(s), cfg).to_multiset() == minimizer_seq(s, cfg).to_multiset(),
{
    let n = s.len();
    let rs = revcomp(s);
    let k = cfg.k as int;
    let l = cfg.l as int;
    let a = minimizer_seq(rs, cfg);
    let b = minimizer_seq(s, cfg);
    if n >= k {
        assert forall|p: int| 0 <= p < a.len() implies a[p] == b.reverse()[p] by {
            let q = n - k - p;
            assert(b.reverse()[p] == b[q]);
            assert(all_bases(rs, p, p + k) == all_bases(s, q, q + k)) by {
                if all_bases(s, q, q + k) {
                    assert forall|i: int| p <= i < p + k implies #[trigger] is_base(rs[i]) by {
                        assert(is_base(s[n - 1 - i]));
                    }
                }
                if all_bases(rs, p, p + k) {
                    assert forall|i: int| q <= i < q + k implies #[trigger] is_base(s[i]) by {
                        assert(is_base(rs[n - 1 - i]));
                    }
                }
            }
            if all_bases(s, q, q + k) {
                let cnt = k - l + 1;
                let ha = win_hashes(rs, cfg).subrange(p, p + cnt);
                let hb = win_hashes(s, cfg).subrange(q, q + cnt);
                assert forall|t: int| 0 <= t < cnt implies #[trigger] ha[t] == hb[cnt - 1 - t] by {
                    assert(all_bases(s, n - (p + t) - l, n - (p + t)));
                    lemma_mirrored_hash(s, p + t, cfg);
                }
                lemma_seq_min_mirror(ha, hb);
            }
        }
        assert(a =~= b.reverse());
    } else {
        assert(a =~= b.reverse());
    }
    b.lemma_reverse_to_multiset();
}

} // verus!
