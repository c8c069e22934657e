use vstd::prelude::*;

verus! {

/// A 64-bit linear congruential generator.
pub struct SimpleRng {
    pub state: u64,
}

/// One step of the generator: multiply by 6364136223846793005 and add one, modulo 2^64.
pub open spec fn lcg_next(s: u64) -> u64 {
    let w = (s as nat * 6364136223846793005nat) % 0x1_0000_0000_0000_0000nat;
    if w == u64::MAX {
        0
    } else {
        (w + 1) as u64
    }
}

/// The 31-bit sample a state yields: its top 31 bits.
pub open spec fn sample_of(s: u64) -> int {
    s as int / 0x2_0000_0000
}

/// The power of two by which `n` must be divided to leave at most 53 significant bits.
pub open spec fn double_scale(n: int) -> int
    decreases n,
{
    if n < 0x20_0000_0000_0000 {
        1
    } else {
        2 * double_scale(n / 2)
    }
}

/// The non-negative integer `n` rounded to the nearest integer with at most 53 significant
/// bits, a tie going to the one whose last kept bit is zero: the value an `f64` holds when it
/// is given `n`, as a conversion or as the exact result of an operation.
pub open spec fn nearest_double(n: int) -> int {
    let m = double_scale(n);
    let q = n / m;
    let r = n % m;
    if m == 1 {
        n
    } else if r > m / 2 || (r == m / 2 && q % 2 == 1) {
        (q + 1) * m
    } else {
        q * m
    }
}

/// The index in `0..upper` a state yields: the sample read as the fraction `sample / 2^31`,
/// multiplied by `upper` in `f64` arithmetic (`upper` and the product each rounded to the
/// nearest `f64`), floored, and taken modulo `upper`.
pub open spec fn index_of(s: u64, upper: int) -> int {
    (nearest_double(sample_of(s) * nearest_double(upper)) / 0x8000_0000) % upper
}

/// `s` with the entries at `i` and `j` exchanged.
pub open spec fn swap_spec<T>(s: Seq<T>, i: int, j: int) -> Seq<T> {
    s.update(i, s[j]).update(j, s[i])
}

/// Fisher-Yates from position `i` down to position 1: at each position `k` the generator
/// steps once and the entry at `k` is exchanged with the entry at the index it yields in
/// `0..k + 1`. The result is the shuffled sequence and the final generator state.
pub open spec fn shuffle_from<T>(s: Seq<T>, st: u64, i: int) -> (Seq<T>, u64)
    decreases i,
{
    if i <= 0 {
        (s, st)
    } else {
        let st2 = lcg_next(st);
        let j = index_of(st2, i + 1);
        shuffle_from(swap_spec(s, i, j), st2, i - 1)
    }
}

/// The shuffle of the whole sequence.
pub open spec fn shuffle_spec<T>(s: Seq<T>, st: u64) -> (Seq<T>, u64) {
    shuffle_from(s, st, s.len() - 1)
}

/// The state after `k` steps of the generator from `st`.
pub open spec fn lcg_iter(st: u64, k: nat) -> u64
    decreases k,
{
    if k == 0 {
        st
    } else {
        lcg_iter(lcg_next(st), (k - 1) as nat)
    }
}

/// Shuffling from position `i` down to 1 steps the generator exactly `i` times.
pub proof fn lemma_shuffle_steps<T>(s: Seq<T>, st: u64, i: int)
    requires
        i >= 0,
    ensures
        shuffle_from(s, st, i).1 == lcg_iter(st, i as nat),
    decreases i,
{
    if i > 0 {
        let st2 = lcg_next(st);
        lemma_shuffle_steps(swap_spec(s, i, index_of(st2, i + 1)), st2, i - 1);
        assert(lcg_iter(st, i as nat) == lcg_iter(st2, (i - 1) as nat));
    }
}

/// Shuffling from position `i` down leaves the entries after position `i` in place.
pub proof fn lemma_shuffle_keeps_tail<T>(s: Seq<T>, st: u64, i: int, k: int)
    requires
        i < k < s.len(),
    ensures
        shuffle_from(s, st, i).0[k] == s[k],
        shuffle_from(s, st, i).0.len() == s.len(),
    decreases i,
{
    if i > 0 {
        let st2 = lcg_next(st);
        let j = index_of(st2, i + 1);
        lemma_index_range(st2, i + 1);
        lemma_shuffle_keeps_tail(swap_spec(s, i, j), st2, i - 1, k);
    }
}

/// The first draw of a shuffle fixes its last entry: for a sequence of at least two entries,
/// the generator steps once and the entry at the index it yields in `0..len` ends up last.
pub proof fn lemma_shuffle_last<T>(s: Seq<T>, st: u64)
    requires
        s.len() >= 2,
    ensures
        shuffle_spec(s, st).0.last() == s[index_of(lcg_next(st), s.len() as int)],
{
    let i = s.len() - 1;
    let st2 = lcg_next(st);
    let j = index_of(st2, i + 1);
    lemma_index_range(st2, i + 1);
    let t = swap_spec(s, i, j);
    assert(shuffle_spec(s, st) == shuffle_from(t, st2, i - 1));
    assert(t[i] == s[j]);
    if i > 1 {
        lemma_shuffle_keeps_tail(t, st2, i - 1, i);
    } else {
        assert(shuffle_from(t, st2, 0) == (t, st2));
    }
    assert(shuffle_from(t, st2, i - 1).0.len() == s.len());
}

/// Exchanging two entries keeps the multiset of entries.
pub proof fn lemma_swap_multiset<T>(s: Seq<T>, i: int, j: int)
    requires
        0 <= i < s.len(),
        0 <= j < s.len(),
    ensures
        swap_spec(s, i, j).to_multiset() == s.to_multiset(),
        swap_spec(s, i, j).len() == s.len(),
{
    broadcast use vstd::seq_lib::to_multiset_update;
    broadcast use vstd::seq_lib::group_to_multiset_ensures;
    broadcast use vstd::multiset::group_multiset_axioms;

    let s1 = s.update(i, s[j]);
    let s2 = s1.update(j, s[i]);
    if i != j {
        assert(s1[j] == s[j]);
        let m = s.to_multiset();
        let m1 = m.insert(s[j]).remove(s[i]);
        assert(s1.to_multiset() == m1);
        assert(s2.to_multiset() == m1.insert(s[i]).remove(s[j]));
        assert(s.contains(s[i]));
        assert(s.contains(s[j]));
        assert(m.count(s[i]) > 0 && m.count(s[j]) > 0);
        assert(m1.insert(s[i]).remove(s[j]) =~= m);
    } else {
        assert(s2 =~= s);
    }
}

/// The shuffle keeps the multiset of entries.
pub proof fn lemma_shuffle_multiset<T>(s: Seq<T>, st: u64, i: int)
    requires
        i < s.len(),
    ensures
        shuffle_from(s, st, i).0.to_multiset() == s.to_multiset(),
        shuffle_from(s, st, i).0.len() == s.len(),
    decreases i,
{
    if i > 0 {
        let st2 = lcg_next(st);
        let j = index_of(st2, i + 1);
        lemma_index_range(st2, i + 1);
        lemma_swap_multiset(s, i, j);
        lemma_shuffle_multiset(swap_spec(s, i, j), st2, i - 1);
    }
}

/// The shuffle rearranges `s`: the result has the same entries, each as often.
pub proof fn lemma_shuffle_permutes<T>(s: Seq<T>, st: u64)
    ensures
        shuffle_spec(s, st).0.to_multiset() == s.to_multiset(),
        shuffle_spec(s, st).0.len() == s.len(),
{
    lemma_shuffle_multiset(s, st, s.len() - 1);
}

pub proof fn lemma_index_range(s: u64, upper: int)
    requires
        upper >= 1,
    ensures
        0 <= index_of(s, upper) < upper,
{
}

/// `n` rounded to the nearest value an `f64` holds.
fn round_to_double(n: u128) -> (r: u128)
    requires
        n < 0x10_0000_0000_0000_0000_0000_0000,
    ensures
        r == nearest_double(n as int),
        r <= n + n / 0x10_0000_0000_0000,
{
    let mut t: u128 = n;
    let mut m: u128 = 1;
    while t >= 0x20_0000_0000_0000
        invariant
            m >= 1,
            t == n / m,
            m * t <= n,
            n < 0x10_0000_0000_0000_0000_0000_0000,
            double_scale(n as int) == m * double_scale(t as int),
            m > 1 ==> t >= 0x10_0000_0000_0000,
        decreases t,
    {
        proof {
            vstd::arithmetic::div_mod::lemma_div_denominator(n as int, m as int, 2);
            assert(m * 2 <= n) by (nonlinear_arith)
                requires
                    m * t <= n,
                    t >= 0x20_0000_0000_0000,
                    m >= 1,
            ;
            assert((m * 2) * (t / 2) <= m * t) by (nonlinear_arith)
                requires
                    m >= 1,
                    t >= 0,
            ;
            assert(double_scale(t as int) == 2 * double_scale(t as int / 2));
            assert(m * (2 * double_scale(t as int / 2)) == (m * 2) * double_scale(t as int / 2)) by (nonlinear_arith);
        }
        t = t / 2;
        m = m * 2;
    }
    assert(double_scale(t as int) == 1);
    assert(double_scale(n as int) == m);
    if m == 1 {
        return n;
    }
    let rem = n % m;
    let half = m / 2;
    proof {
        assert(m * 0x10_0000_0000_0000 <= n) by (nonlinear_arith)
            requires
                m * t <= n,
                t >= 0x10_0000_0000_0000,
                m >= 1,
        ;
        assert(m <= n / 0x10_0000_0000_0000) by (nonlinear_arith)
            requires
                m * 0x10_0000_0000_0000 <= n,
        ;
        assert((t + 1) * m == m * t + m) by (nonlinear_arith);
        assert(t * m == m * t) by (nonlinear_arith);
    }
    if rem > half || (rem == half && t % 2 == 1) {
        (t + 1) * m
    } else {
        t * m
    }
}

/// Exchanging two entries keeps a sequence free of duplicates.
pub proof fn lemma_swap_no_duplicates<T>(s: Seq<T>, i: int, j: int)
    requires
        0 <= i < s.len(),
        0 <= j < s.len(),
        s.no_duplicates(),
    ensures
        swap_spec(s, i, j).no_duplicates(),
{
    let t = swap_spec(s, i, j);
    assert forall|a: int, b: int| 0 <= a < t.len() && 0 <= b < t.len() && a != b implies t[a] != t[b] by {
        let pa = if a == j { i } else if a == i { j } else { a };
        let pb = if b == j { i } else if b == i { j } else { b };
        assert(t[a] == s[pa]);
        assert(t[b] == s[pb]);
    }
}

/// The shuffle keeps a sequence free of duplicates.
pub proof fn lemma_shuffle_no_duplicates<T>(s: Seq<T>, st: u64, i: int)
    requires
        i < s.len(),
        s.no_duplicates(),
    ensures
        shuffle_from(s, st, i).0.no_duplicates(),
    decreases i,
{
    if i > 0 {
        let st2 = lcg_next(st);
        let j = index_of(st2, i + 1);
        lemma_index_range(st2, i + 1);
        lemma_swap_no_duplicates(s, i, j);
        lemma_shuffle_no_duplicates(swap_spec(s, i, j), st2, i - 1);
    }
}

/// Every entry of the shuffled sequence is an entry of the sequence shuffled.
pub proof fn lemma_shuffle_contains<T>(s: Seq<T>, st: u64, x: T)
    requires
        shuffle_spec(s, st).0.contains(x),
    ensures
        s.contains(x),
{
    broadcast use vstd::seq_lib::group_to_multiset_ensures;

    lemma_shuffle_permutes(s, st);
    assert(shuffle_spec(s, st).0.to_multiset().count(x) > 0);
}

/// The positions the shuffle exchanges depend only on the generator, so mapping every entry
/// commutes with shuffling.
pub proof fn lemma_shuffle_map<T, U>(s: Seq<T>, st: u64, i: int, f: spec_fn(T) -> U)
    requires
        i < s.len(),
    ensures
        shuffle_from(s, st, i).0.map_values(f) == shuffle_from(s.map_values(f), st, i).0,
        shuffle_from(s, st, i).1 == shuffle_from(s.map_values(f), st, i).1,
    decreases i,
{
    if i > 0 {
        let st2 = lcg_next(st);
        let j = index_of(st2, i + 1);
        lemma_index_range(st2, i + 1);
        assert(swap_spec(s, i, j).map_values(f) =~= swap_spec(s.map_values(f), i, j));
        lemma_shuffle_map(swap_spec(s, i, j), st2, i - 1, f);
    }
}

impl SimpleRng {
    /// A generator started at `seed`.
    pub fn new(seed: u64) -> (rng: Self)
        ensures
            rng.state == seed,
    {
        Self { state: seed }
    }

    /// Steps the generator and returns the top 31 bits of the new state (the generator's
    /// value in `[0, 1)` times `2^31`).
    pub fn next_sample(&mut self) -> (x: u64)
        ensures
            final(self).state == lcg_next(old(self).state),
            x == sample_of(final(self).state),
            x < 0x8000_0000,
    {
        self.state = self.state.wrapping_mul(6364136223846793005).wrapping_add(1);
        let s = self.state;
        assert(s >> 33 == s / 0x2_0000_0000) by (bit_vector);
        s >> 33
    }

    /// An index in `0..upper`: zero without a step when `upper <= 1`, otherwise, for the
    /// next sample `x`, `floor(x / 2^31 * upper) mod upper` with the product formed as an
    /// `f64` product (see `index_of`). The floored product is below `2^64`, so reading it as a
    /// `usize` loses nothing.
    pub fn gen_index(&mut self, upper: usize) -> (idx: usize)
        ensures
            upper <= 1 ==> idx == 0 && final(self).state == old(self).state,
            upper > 1 ==> final(self).state == lcg_next(old(self).state) && idx == index_of(
                final(self).state,
                upper as int,
            ),
            upper > 1 ==> idx < upper,
            upper > 1 ==> nearest_double(sample_of(final(self).state) * nearest_double(upper as int))
                / 0x8000_0000 < 0x1_0000_0000_0000_0000,
    {
        if upper <= 1 {
            return 0;
        }
        let x = self.next_sample();
        let u = round_to_double(upper as u128);
        assert((x as u128) * u <= 0x7FFF_FFFF_0000_0800_0000_0000) by (nonlinear_arith)
            requires
                x < 0x8000_0000,
                u <= 0x1_0000_0000_0000_1000,
        ;
        let prod: u128 = x as u128 * u;
        let p = round_to_double(prod);
        assert(p < 0x8000_0000_0000_0000_0000_0000);
        assert(p / 0x8000_0000 < 0x1_0000_0000_0000_0000) by {
            vstd::arithmetic::div_mod::lemma_div_is_ordered(
                p as int,
                0x7FFF_FFFF_FFFF_FFFF_FFFF_FFFFint,
                0x8000_0000int,
            );
        }
        let q = p >> 31;
        assert(p >> 31 == p / 0x8000_0000) by (bit_vector);
        proof {
            lemma_index_range(self.state, upper as int);
        }
        (q % (upper as u128)) as usize
    }

    /// Fisher-Yates shuffle of `values`, from the last position down to position 1.
    pub fn shuffle<T>(&mut self, values: &mut Vec<T>)
        ensures
            (final(values)@, final(self).state) == shuffle_spec(old(values)@, old(self).state),
            final(values)@.to_multiset() == old(values)@.to_multiset(),
    {
        proof {
            lemma_shuffle_permutes(old(values)@, old(self).state);
        }
        let n = values.len();
        if n == 0 {
            return;
        }
        let mut k: usize = n - 1;
        while k >= 1
            invariant
                values@.len() == n,
                k < n,
                shuffle_from(values@, self.state, k as int) == shuffle_spec(old(values)@, old(self).state),
            decreases k,
        {
            let j = self.gen_index(k + 1);
            swap_entries(values, k, j);
            k = k - 1;
        }
    }
}

/// Exchanges the entries at `i` and `j` of `v`.
pub fn swap_entries<T>(v: &mut Vec<T>, i: usize, j: usize)
    requires
        j <= i < old(v)@.len(),
    ensures
        final(v)@ == swap_spec(old(v)@, i as int, j as int),
{
    if i == j {
        assert(swap_spec(v@, i as int, j as int) =~= v@);
        return;
    }
    let ghost s = v@;
    let a = v.remove(i);
    let b = v.remove(j);
    v.insert(j, a);
    v.insert(i, b);
    assert(v@ =~= swap_spec(s, i as int, j as int));
}

} // verus!
