//! Deduction rules over the candidate masks of one unit, given as a sequence
//! in traversal order. Each rule reads the masks as they were when it starts
//! and returns the narrowed masks.
use vstd::prelude::*;
use crate::bits::{count_bits, has_bit, lemma_binary, lemma_set_bit, popcount};

verus! {

/// Position `a` holds a naked pair that position `i` is not part of: `a`
/// lists exactly two symbols and another position besides `i` lists the
/// same two.
pub open spec fn naked_pair_host(m: Seq<u32>, i: int, a: int) -> bool {
    &&& 0 <= a < m.len()
    &&& a != i
    &&& popcount(m[a]) == 2
    &&& exists|b: int| 0 <= b < m.len() && b != a && b != i && #[trigger] m[b] == m[a]
}

/// The naked-pair rule clears symbol position `k` from position `i`.
pub open spec fn naked_pair_clears(m: Seq<u32>, i: int, k: int) -> bool {
    exists|a: int| #[trigger] naked_pair_host(m, i, a) && has_bit(m[a], k)
}

/// The masks after the naked-pair rule: each position loses the symbols of
/// every naked pair it is not part of.
pub fn naked_pair_masks(m: &Vec<u32>) -> (r: Vec<u32>)
    ensures
        r@.len() == m@.len(),
        forall|i: int, k: int|
            0 <= i < m@.len() ==> #[trigger] has_bit(r@[i], k) == (has_bit(m@[i], k)
                && !naked_pair_clears(m@, i, k)),
{
    let n = m.len();
    let mut counts: Vec<u32> = Vec::new();
    let mut x: usize = 0;
    while x < n
        invariant
            n == m@.len(),
            x <= n,
            counts@.len() == x,
            forall|y: int| 0 <= y < x ==> #[trigger] counts@[y] == popcount(m@[y]),
        decreases n - x,
    {
        counts.push(count_bits(m[x]));
        x += 1;
    }
    let mut r: Vec<u32> = Vec::new();
    let mut i: usize = 0;
    while i < n
        invariant
            n == m@.len(),
            i <= n,
            counts@.len() == n,
            forall|y: int| 0 <= y < n ==> #[trigger] counts@[y] == popcount(m@[y]),
            r@.len() == i,
            forall|ii: int, k: int|
                0 <= ii < i ==> #[trigger] has_bit(r@[ii], k) == (has_bit(m@[ii], k)
                    && !naked_pair_clears(m@, ii, k)),
        decreases n - i,
    {
        let mut removal: u32 = 0;
        proof {
            lemma_binary(0, 0);
        }
        let mut a: usize = 0;
        while a < n
            invariant
                n == m@.len(),
                i < n,
                a <= n,
                counts@.len() == n,
                forall|y: int| 0 <= y < n ==> #[trigger] counts@[y] == popcount(m@[y]),
                forall|k: int|
                    #[trigger] has_bit(removal, k) == exists|aa: int|
                        0 <= aa < a && #[trigger] naked_pair_host(m@, i as int, aa) && has_bit(m@[aa], k),
            decreases n - a,
        {
            let mut partner = false;
            if a != i && counts[a] == 2 {
                let mut b: usize = 0;
                while b < n
                    invariant
                        n == m@.len(),
                        a < n,
                        b <= n,
                        partner == exists|bb: int|
                            0 <= bb < b && bb != a && bb != i && #[trigger] m@[bb] == m@[a as int],
                    decreases n - b,
                {
                    if b != a && b != i && m[b] == m[a] {
                        partner = true;
                    }
                    b += 1;
                }
            }
            assert(partner == naked_pair_host(m@, i as int, a as int));
            let ghost prev = removal;
            if partner {
                removal = removal | m[a];
            }
            proof {
                lemma_binary(prev, m@[a as int]);
                assert forall|k: int|
                    #[trigger] has_bit(removal, k) == exists|aa: int|
                        0 <= aa < a + 1 && #[trigger] naked_pair_host(m@, i as int, aa) && has_bit(m@[aa], k) by {
                    if has_bit(removal, k) && !has_bit(prev, k) {
                        assert(naked_pair_host(m@, i as int, a as int) && has_bit(m@[a as int], k));
                    }
                }
            }
            a += 1;
        }
        let v = m[i] & !removal;
        proof {
            lemma_binary(m@[i as int], removal);
            assert forall|k: int| #[trigger] has_bit(v, k) == (has_bit(m@[i as int], k)
                && !naked_pair_clears(m@, i as int, k)) by {
                if naked_pair_clears(m@, i as int, k) {
                    let aa = choose|aa: int| #[trigger] naked_pair_host(m@, i as int, aa) && has_bit(m@[aa], k);
                    assert(has_bit(removal, k));
                }
            }
        }
        r.push(v);
        i += 1;
    }
    r
}

/// The number of positions below `l` that list symbol position `k`.
pub open spec fn host_count(m: Seq<u32>, k: int, l: int) -> nat
    decreases l,
{
    if l <= 0 {
        0
    } else {
        host_count(m, k, l - 1) + if has_bit(m[l - 1], k) {
            1nat
        } else {
            0nat
        }
    }
}

/// `cnt`, `first` and `last` describe where symbol position `k` is listed
/// among the first `l` positions: how often, first and last.
pub open spec fn hosts_upto(m: Seq<u32>, k: int, l: int, cnt: usize, first: usize, last: usize) -> bool {
    &&& cnt == host_count(m, k, l)
    &&& cnt >= 1 ==> {
        &&& first <= last < l
        &&& has_bit(m[first as int], k)
        &&& has_bit(m[last as int], k)
        &&& forall|x: int| 0 <= x < first ==> !#[trigger] has_bit(m[x], k)
        &&& forall|x: int| last < x < l ==> !#[trigger] has_bit(m[x], k)
    }
    &&& cnt >= 2 ==> first < last
}

/// Symbol position `k` is listed at exactly the positions `p` and `q` (`p < q`).
pub open spec fn hosted_at(m: Seq<u32>, k: int, p: int, q: int) -> bool {
    &&& 0 <= p < q < m.len()
    &&& forall|x: int| 0 <= x < m.len() ==> (#[trigger] has_bit(m[x], k) <==> (x == p || x == q))
}

proof fn lemma_host_count_mono(m: Seq<u32>, k: int, a: int, b: int)
    requires
        a <= b,
    ensures
        host_count(m, k, a) <= host_count(m, k, b),
    decreases b - a,
{
    if a < b {
        lemma_host_count_mono(m, k, a, b - 1);
    }
}

proof fn lemma_host_count_bound(m: Seq<u32>, k: int, l: int)
    requires
        l >= 0,
    ensures
        host_count(m, k, l) <= l,
    decreases l,
{
    if l > 0 {
        lemma_host_count_bound(m, k, l - 1);
    }
}

/// Three listed positions below `l` make a count of at least three; two, of at least two.
proof fn lemma_hosts_counted(m: Seq<u32>, k: int, a: int, b: int, c: int, l: int)
    requires
        0 <= a < b < l,
        has_bit(m[a], k),
        has_bit(m[b], k),
    ensures
        host_count(m, k, l) >= 2,
        b < c < l && has_bit(m[c], k) ==> host_count(m, k, l) >= 3,
{
    lemma_host_count_mono(m, k, a + 1, b);
    lemma_host_count_mono(m, k, b + 1, l);
    if b < c < l && has_bit(m[c], k) {
        lemma_host_count_mono(m, k, b + 1, c);
        lemma_host_count_mono(m, k, c + 1, l);
    }
}

/// A symbol listed at exactly two positions is counted twice.
proof fn lemma_hosted_count(m: Seq<u32>, k: int, p: int, q: int, l: int)
    requires
        hosted_at(m, k, p, q),
        0 <= l <= m.len(),
    ensures
        host_count(m, k, l) == (if l <= p {
            0nat
        } else if l <= q {
            1nat
        } else {
            2nat
        }),
    decreases l,
{
    if l > 0 {
        lemma_hosted_count(m, k, p, q, l - 1);
    }
}

/// What a full summary tells: a count of one names the only host, a count of
/// two names the two hosts, and two hosts are only ever summarised that way.
pub proof fn lemma_hosts_summary(m: Seq<u32>, k: int, cnt: usize, first: usize, last: usize)
    requires
        hosts_upto(m, k, m.len() as int, cnt, first, last),
    ensures
        cnt == 1 ==> forall|x: int| 0 <= x < m.len() ==> (#[trigger] has_bit(m[x], k) <==> x == first),
        cnt == 2 ==> hosted_at(m, k, first as int, last as int),
        forall|p: int, q: int|
            #[trigger] hosted_at(m, k, p, q) ==> cnt == 2 && first == p && last == q,
{
    let n = m.len() as int;
    if cnt == 1 {
        assert forall|x: int| 0 <= x < n implies (#[trigger] has_bit(m[x], k) <==> x == first) by {
            if has_bit(m[x], k) && x != first {
                lemma_hosts_counted(m, k, first as int, x, n, n);
            }
        }
    }
    if cnt == 2 {
        assert forall|x: int| 0 <= x < n implies (#[trigger] has_bit(m[x], k) <==> (x == first
            || x == last)) by {
            if has_bit(m[x], k) && x != first && x != last {
                lemma_hosts_counted(m, k, first as int, x, last as int, n);
            }
        }
    }
    assert forall|p: int, q: int| #[trigger] hosted_at(m, k, p, q) implies cnt == 2 && first == p
        && last == q by {
        lemma_hosted_count(m, k, p, q, n);
        assert(has_bit(m[p], k) && has_bit(m[q], k));
    }
}

/// For each symbol position below `symbols`: how many positions list it, the
/// first and the last.
pub fn symbol_hosts(m: &Vec<u32>, symbols: u32) -> (r: (Vec<usize>, Vec<usize>, Vec<usize>))
    requires
        symbols <= 32,
    ensures
        r.0@.len() == symbols,
        r.1@.len() == symbols,
        r.2@.len() == symbols,
        forall|k: int|
            0 <= k < symbols ==> #[trigger] hosts_upto(m@, k, m@.len() as int, r.0@[k], r.1@[k], r.2@[k]),
{
    let n = m.len();
    let mut cnt: Vec<usize> = Vec::new();
    let mut first: Vec<usize> = Vec::new();
    let mut last: Vec<usize> = Vec::new();
    let mut k: u32 = 0;
    while k < symbols
        invariant
            k <= symbols,
            cnt@.len() == k,
            first@.len() == k,
            last@.len() == k,
            forall|kk: int| 0 <= kk < k ==> #[trigger] cnt@[kk] == 0,
        decreases symbols - k,
    {
        cnt.push(0);
        first.push(0);
        last.push(0);
        k += 1;
    }
    let mut l: usize = 0;
    while l < n
        invariant
            n == m@.len(),
            symbols <= 32,
            l <= n,
            cnt@.len() == symbols,
            first@.len() == symbols,
            last@.len() == symbols,
            forall|kk: int|
                0 <= kk < symbols ==> #[trigger] hosts_upto(m@, kk, l as int, cnt@[kk], first@[kk], last@[kk]),
        decreases n - l,
    {
        let mask = m[l];
        let mut k: u32 = 0;
        while k < symbols
            invariant
                n == m@.len(),
                symbols <= 32,
                l < n,
                k <= symbols,
                mask == m@[l as int],
                cnt@.len() == symbols,
                first@.len() == symbols,
                last@.len() == symbols,
                forall|kk: int|
                    0 <= kk < k ==> #[trigger] hosts_upto(m@, kk, l + 1, cnt@[kk], first@[kk], last@[kk]),
                forall|kk: int|
                    k <= kk < symbols ==> #[trigger] hosts_upto(m@, kk, l as int, cnt@[kk], first@[kk], last@[kk]),
            decreases symbols - k,
        {
            let ghost ki = k as int;
            assert(hosts_upto(m@, ki, l as int, cnt@[ki], first@[ki], last@[ki]));
            assert(host_count(m@, ki, l + 1) == host_count(m@, ki, l as int) + if has_bit(m@[l as int], ki) {
                1nat
            } else {
                0nat
            });
            if (mask >> k) & 1 == 1 {
                assert(has_bit(m@[l as int], ki));
                proof {
                    lemma_host_count_bound(m@, ki, l as int);
                }
                let c = cnt[k as usize];
                if c == 0 {
                    first.set(k as usize, l);
                }
                cnt.set(k as usize, c + 1);
                last.set(k as usize, l);
                assert forall|x: int| last@[ki] < x < l + 1 implies !#[trigger] has_bit(m@[x], ki) by {}
                assert forall|x: int| 0 <= x < first@[ki] implies !#[trigger] has_bit(m@[x], ki) by {
                    if c == 0 {
                        assert(host_count(m@, ki, x + 1) <= host_count(m@, ki, l as int)) by {
                            lemma_host_count_mono(m@, ki, x + 1, l as int);
                        }
                    }
                }
            } else {
                assert(!has_bit(m@[l as int], ki));
            }
            assert(hosts_upto(m@, ki, l + 1, cnt@[ki], first@[ki], last@[ki]));
            k += 1;
        }
        l += 1;
    }
    (cnt, first, last)
}

/// Symbol positions `s` and `t` (both below `symbols`) are each listed at
/// exactly the same two positions, one of which is `i`.
pub open spec fn hidden_pair_at(m: Seq<u32>, symbols: int, s: int, t: int, i: int) -> bool {
    &&& 0 <= s < symbols
    &&& 0 <= t < symbols
    &&& s != t
    &&& exists|p: int, q: int| #[trigger] hosted_at(m, s, p, q) && hosted_at(m, t, p, q) && (i == p || i == q)
}

/// The hidden-pair rule clears symbol position `k` from position `i`: `i`
/// hosts a hidden pair that `k` is not part of.
pub open spec fn hidden_pair_clears(m: Seq<u32>, symbols: int, i: int, k: int) -> bool {
    exists|s: int, t: int| #[trigger] hidden_pair_at(m, symbols, s, t, i) && k != s && k != t
}

/// Like `hidden_pair_clears`, counting only the pairs `(s, t)` before `(s0, t0)`
/// in lexicographic order.
pub open spec fn hidden_pair_clears_before(
    m: Seq<u32>,
    symbols: int,
    i: int,
    k: int,
    s0: int,
    t0: int,
) -> bool {
    exists|s: int, t: int|
        (s < s0 || (s == s0 && t < t0)) && #[trigger] hidden_pair_at(m, symbols, s, t, i) && k != s && k
            != t
}

/// The masks after the hidden-pair rule: the two positions hosting a hidden
/// pair keep only its two symbols; the other positions keep their masks.
pub fn hidden_pair_masks(m: &Vec<u32>, symbols: u32) -> (r: Vec<u32>)
    requires
        symbols <= 32,
    ensures
        r@.len() == m@.len(),
        forall|i: int, k: int|
            0 <= i < m@.len() ==> #[trigger] has_bit(r@[i], k) == (has_bit(m@[i], k)
                && !hidden_pair_clears(m@, symbols as int, i, k)),
{
    let n = m.len();
    let (cnt, first, last) = symbol_hosts(m, symbols);
    let mut r: Vec<u32> = Vec::new();
    let mut i: usize = 0;
    while i < n
        invariant
            n == m@.len(),
            symbols <= 32,
            i <= n,
            cnt@.len() == symbols,
            first@.len() == symbols,
            last@.len() == symbols,
            forall|k: int|
                0 <= k < symbols ==> #[trigger] hosts_upto(m@, k, n as int, cnt@[k], first@[k], last@[k]),
            r@.len() == i,
            forall|ii: int, k: int|
                0 <= ii < i ==> #[trigger] has_bit(r@[ii], k) == (has_bit(m@[ii], k)
                    && !hidden_pair_clears(m@, symbols as int, ii, k)),
        decreases n - i,
    {
        let mut keep: u32 = 0xffff_ffff;
        proof {
            lemma_binary(0, 0);
        }
        let mut s: u32 = 0;
        while s < symbols
            invariant
                n == m@.len(),
                symbols <= 32,
                i < n,
                s <= symbols,
                cnt@.len() == symbols,
                first@.len() == symbols,
                last@.len() == symbols,
                forall|k: int|
                    0 <= k < symbols ==> #[trigger] hosts_upto(m@, k, n as int, cnt@[k], first@[k], last@[k]),
                forall|k: int|
                    #[trigger] has_bit(keep, k) == (0 <= k < 32 && !hidden_pair_clears_before(
                        m@,
                        symbols as int,
                        i as int,
                        k,
                        s as int,
                        0,
                    )),
            decreases symbols - s,
        {
            let mut t: u32 = 0;
            while t < symbols
                invariant
                    n == m@.len(),
                    symbols <= 32,
                    i < n,
                    s < symbols,
                    t <= symbols,
                    cnt@.len() == symbols,
                    first@.len() == symbols,
                    last@.len() == symbols,
                    forall|k: int|
                        0 <= k < symbols ==> #[trigger] hosts_upto(m@, k, n as int, cnt@[k], first@[k], last@[k]),
                    forall|k: int|
                        #[trigger] has_bit(keep, k) == (0 <= k < 32 && !hidden_pair_clears_before(
                            m@,
                            symbols as int,
                            i as int,
                            k,
                            s as int,
                            t as int,
                        )),
                decreases symbols - t,
            {
                let su = s as usize;
                let tu = t as usize;
                let ghost (si, ti) = (s as int, t as int);
                proof {
                    lemma_hosts_summary(m@, si, cnt@[si], first@[si], last@[si]);
                    lemma_hosts_summary(m@, ti, cnt@[ti], first@[ti], last@[ti]);
                }
                let pair = s != t && cnt[su] == 2 && cnt[tu] == 2 && first[su] == first[tu]
                    && last[su] == last[tu] && (first[su] == i || last[su] == i);
                proof {
                    if pair {
                        assert(hosted_at(m@, si, first@[si] as int, last@[si] as int));
                        assert(hidden_pair_at(m@, symbols as int, si, ti, i as int));
                    }
                    if hidden_pair_at(m@, symbols as int, si, ti, i as int) {
                        let (p, q) = choose|p: int, q: int| #[trigger] hosted_at(m@, si, p, q) && hosted_at(m@, ti, p, q) && (i == p || i == q);
                        assert(pair);
                    }
                }
                assert(pair == hidden_pair_at(m@, symbols as int, si, ti, i as int));
                let ghost prev = keep;
                let pm = (1u32 << s) | (1u32 << t);
                if pair {
                    keep = keep & pm;
                }
                proof {
                    lemma_set_bit(0, si);
                    lemma_set_bit(1u32 << s, ti);
                    lemma_binary(prev, pm);
                    assert((1u32 << s) == (1u32 << (si as u32)));
                    assert((1u32 << t) == (1u32 << (ti as u32)));
                    assert(forall|k: int| #[trigger] has_bit(pm, k) == (k == si || k == ti));
                    assert forall|k: int|
                        #[trigger] has_bit(keep, k) == (0 <= k < 32 && !hidden_pair_clears_before(
                            m@,
                            symbols as int,
                            i as int,
                            k,
                            si,
                            ti + 1,
                        )) by {
                        if hidden_pair_clears_before(m@, symbols as int, i as int, k, si, ti + 1)
                            && !hidden_pair_clears_before(m@, symbols as int, i as int, k, si, ti) {
                            let (s2, t2) = choose|s2: int, t2: int|
                                (s2 < si || (s2 == si && t2 < ti + 1)) && #[trigger] hidden_pair_at(m@, symbols as int, s2, t2, i as int) && k != s2 && k != t2;
                            assert(s2 == si && t2 == ti);
                        }
                        if hidden_pair_clears_before(m@, symbols as int, i as int, k, si, ti) {
                            let (s2, t2) = choose|s2: int, t2: int|
                                (s2 < si || (s2 == si && t2 < ti)) && #[trigger] hidden_pair_at(m@, symbols as int, s2, t2, i as int) && k != s2 && k != t2;
                            assert(hidden_pair_clears_before(m@, symbols as int, i as int, k, si, ti + 1));
                        }
                        if pair && 0 <= k < 32 && k != si && k != ti {
                            assert(hidden_pair_clears_before(m@, symbols as int, i as int, k, si, ti + 1));
                        }
                    }
                }
                t += 1;
            }
            proof {
                assert forall|k: int|
                    #[trigger] hidden_pair_clears_before(m@, symbols as int, i as int, k, s as int, symbols as int)
                        == hidden_pair_clears_before(m@, symbols as int, i as int, k, s + 1, 0) by {
                    if hidden_pair_clears_before(m@, symbols as int, i as int, k, s + 1, 0) {
                        let (s2, t2) = choose|s2: int, t2: int|
                            (s2 < s + 1 || (s2 == s + 1 && t2 < 0)) && #[trigger] hidden_pair_at(m@, symbols as int, s2, t2, i as int) && k != s2 && k != t2;
                        assert(hidden_pair_clears_before(m@, symbols as int, i as int, k, s as int, symbols as int));
                    }
                }
            }
            s += 1;
        }
        let v = m[i] & keep;
        proof {
            lemma_binary(m@[i as int], keep);
            assert forall|k: int| #[trigger] has_bit(v, k) == (has_bit(m@[i as int], k)
                && !hidden_pair_clears(m@, symbols as int, i as int, k)) by {
                if hidden_pair_clears(m@, symbols as int, i as int, k) {
                    let (s2, t2) = choose|s2: int, t2: int| #[trigger] hidden_pair_at(m@, symbols as int, s2, t2, i as int) && k != s2 && k != t2;
                    assert(hidden_pair_clears_before(m@, symbols as int, i as int, k, symbols as int, 0));
                }
                if hidden_pair_clears_before(m@, symbols as int, i as int, k, symbols as int, 0) {
                    let (s2, t2) = choose|s2: int, t2: int|
                        (s2 < symbols || (s2 == symbols && t2 < 0)) && #[trigger] hidden_pair_at(m@, symbols as int, s2, t2, i as int) && k != s2 && k != t2;
                    assert(hidden_pair_clears(m@, symbols as int, i as int, k));
                }
            }
        }
        r.push(v);
        i += 1;
    }
    r
}

/// Symbol position `k` is listed at position `x` and nowhere else.
pub open spec fn single_host(m: Seq<u32>, k: int, x: int) -> bool {
    &&& 0 <= x < m.len()
    &&& forall|l: int| 0 <= l < m.len() ==> (#[trigger] has_bit(m[l], k) <==> l == x)
}

proof fn lemma_single_count(m: Seq<u32>, k: int, x: int, l: int)
    requires
        single_host(m, k, x),
        0 <= l <= m.len(),
    ensures
        host_count(m, k, l) == (if l <= x {
            0nat
        } else {
            1nat
        }),
    decreases l,
{
    if l > 0 {
        lemma_single_count(m, k, x, l - 1);
    }
}

/// A full summary counts one exactly when the symbol has a single host, the
/// first position it names.
pub proof fn lemma_single_summary(m: Seq<u32>, k: int, cnt: usize, first: usize, last: usize)
    requires
        hosts_upto(m, k, m.len() as int, cnt, first, last),
    ensures
        cnt == 1 ==> single_host(m, k, first as int),
        forall|x: int| #[trigger] single_host(m, k, x) ==> cnt == 1 && first == x,
{
    lemma_hosts_summary(m, k, cnt, first, last);
    assert forall|x: int| #[trigger] single_host(m, k, x) implies cnt == 1 && first == x by {
        lemma_single_count(m, k, x, m.len() as int);
        assert(has_bit(m[x], k));
    }
}

} // verus!
