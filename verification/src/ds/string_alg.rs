//! Searching in byte strings: the border table of a pattern, all places
//! where a pattern occurs in a text, and the table of longest common
//! prefixes of a string with its own suffixes.

use vstd::prelude::*;
use vstd::string::StringSliceAdditionalSpecFns;

verus! {

/// The byte of `s` at `k` places after `base`.
pub open spec fn item(s: Seq<u8>, base: int, k: int) -> u8 {
    s[base + k]
}

/// The `len` bytes of `a` from `i` on are those of `b` from `j` on.
pub open spec fn agree(a: Seq<u8>, i: int, b: Seq<u8>, j: int, len: int) -> bool {
    forall|k: int| 0 <= k < len ==> #[trigger] item(a, i, k) == item(b, j, k)
}

/// The first `k` bytes of `s` are also the last `k` of its first `n`, and
/// `k < n`: a border of the prefix of length `n`.
pub open spec fn is_border(s: Seq<u8>, n: int, k: int) -> bool {
    0 <= k < n && n <= s.len() && agree(s, 0, s, n - k, k)
}

/// `k` is the longest border of the prefix of length `n`.
pub open spec fn is_longest_border(s: Seq<u8>, n: int, k: int) -> bool {
    is_border(s, n, k) && forall|b: int| k < b < n ==> !#[trigger] is_border(s, n, b)
}

/// The first `k` bytes of `p` are the last `k` of the first `i` of `t`.
pub open spec fn is_suffix_match(t: Seq<u8>, i: int, p: Seq<u8>, k: int) -> bool {
    0 <= k <= i && i <= t.len() && k <= p.len() && agree(p, 0, t, i - k, k)
}

/// `p` stands in `t` at `at`.
pub open spec fn occurs(t: Seq<u8>, p: Seq<u8>, at: int) -> bool {
    0 <= at && at + p.len() <= t.len() && agree(p, 0, t, at, p.len() as int)
}

/// `k` is the length of the longest common prefix of `s` and of `s` from
/// `i` on.
pub open spec fn is_common_prefix(s: Seq<u8>, i: int, k: int) -> bool {
    &&& 0 <= k
    &&& i + k <= s.len()
    &&& agree(s, 0, s, i, k)
    &&& (i + k == s.len() || s[k] != s[i + k])
}

/// A border of a border is a border.
pub proof fn lemma_border_of_border(s: Seq<u8>, n: int, j: int, b: int)
    requires
        is_border(s, n, j),
        is_border(s, j, b),
    ensures
        is_border(s, n, b),
{
    assert forall|k: int| 0 <= k < b implies #[trigger] item(s, 0, k) == item(s, n - b, k) by {
        assert(item(s, 0, k) == item(s, j - b, k));
        assert(item(s, 0, j - b + k) == item(s, n - j, j - b + k));
    }
}

/// Of two borders of one prefix the shorter is a border of the longer.
pub proof fn lemma_shorter_border(s: Seq<u8>, n: int, j: int, b: int)
    requires
        is_border(s, n, j),
        is_border(s, n, b),
        b < j,
    ensures
        is_border(s, j, b),
{
    assert forall|k: int| 0 <= k < b implies #[trigger] item(s, 0, k) == item(s, j - b, k) by {
        assert(item(s, 0, k) == item(s, n - b, k));
        assert(item(s, 0, j - b + k) == item(s, n - j, j - b + k));
    }
}

/// A border of the prefix of length `n + 1` is, without its last byte, a
/// border of the prefix of length `n`, and its last byte is the prefix's.
pub proof fn lemma_border_shrinks(s: Seq<u8>, n: int, b: int)
    requires
        is_border(s, n + 1, b),
        b >= 1,
    ensures
        is_border(s, n, b - 1),
        s[b - 1] == s[n],
{
    assert forall|k: int| 0 <= k < b - 1 implies #[trigger] item(s, 0, k) == item(
        s,
        n - (b - 1),
        k,
    ) by {
        assert(item(s, 0, k) == item(s, n + 1 - b, k));
    }
    assert(item(s, 0, b - 1) == item(s, n + 1 - b, b - 1));
}

/// A border of the prefix of length `n` grows by one byte where the next
/// bytes agree.
pub proof fn lemma_border_grows(s: Seq<u8>, n: int, j: int)
    requires
        is_border(s, n, j),
        n < s.len(),
        s[j] == s[n],
    ensures
        is_border(s, n + 1, j + 1),
{
    assert forall|k: int| 0 <= k < j + 1 implies #[trigger] item(s, 0, k) == item(
        s,
        n + 1 - (j + 1),
        k,
    ) by {
        if k < j {
            assert(item(s, 0, k) == item(s, n - j, k));
        }
    }
}

/// The border table: for each `i`, the length of the longest border of the
/// prefix that ends at `i`.
pub fn kmp_prefix(s: &[u8]) -> (pi: Vec<usize>)
    ensures
        pi@.len() == s@.len(),
        forall|i: int| 0 <= i < s@.len() ==> is_longest_border(s@, i + 1, #[trigger] pi@[i] as int),
{
    let n = s.len();
    let mut pi: Vec<usize> = Vec::new();
    if n == 0 {
        return pi;
    }
    pi.push(0);
    let mut j: usize = 0;
    for i in 1..n
        invariant
            n == s@.len(),
            pi@.len() == i,
            j == pi@[i - 1],
            forall|x: int| 0 <= x < i ==> is_longest_border(s@, x + 1, #[trigger] pi@[x] as int),
    {
        assert(is_longest_border(s@, i - 1 + 1, pi@[i - 1] as int));
        while j > 0 && s[i] != s[j]
            invariant
                n == s@.len(),
                1 <= i < n,
                pi@.len() == i,
                forall|x: int| 0 <= x < i ==> is_longest_border(s@, x + 1, #[trigger] pi@[x] as int),
                is_border(s@, i as int, j as int),
                forall|b: int| j < b < i && #[trigger] is_border(s@, i as int, b) ==> s@[b] != s@[i as int],
            decreases j,
        {
            let next = pi[j - 1];
            proof {
                assert(is_longest_border(s@, j - 1 + 1, pi@[j - 1] as int));
                lemma_border_of_border(s@, i as int, j as int, next as int);
                assert forall|b: int| next < b < i && #[trigger] is_border(s@, i as int, b) implies s@[b]
                    != s@[i as int] by {
                    if b < j {
                        lemma_shorter_border(s@, i as int, j as int, b);
                    }
                }
            }
            j = next;
        }
        if s[i] == s[j] {
            proof {
                lemma_border_grows(s@, i as int, j as int);
                assert forall|b: int| j + 1 < b < i + 1 implies !#[trigger] is_border(
                    s@,
                    i + 1,
                    b,
                ) by {
                    if is_border(s@, i + 1, b) {
                        lemma_border_shrinks(s@, i as int, b);
                    }
                }
            }
            j += 1;
        } else {
            proof {
                assert forall|b: int| 0 < b < i + 1 implies !#[trigger] is_border(s@, i + 1, b) by {
                    if is_border(s@, i + 1, b) {
                        lemma_border_shrinks(s@, i as int, b);
                    }
                }
            }
        }
        pi.push(j);
    }
    pi
}

/// Of two suffix matches at one place the shorter is a border of the
/// longer.
pub proof fn lemma_match_border(t: Seq<u8>, i: int, p: Seq<u8>, j: int, b: int)
    requires
        is_suffix_match(t, i, p, j),
        is_suffix_match(t, i, p, b),
        b < j,
    ensures
        is_border(p, j, b),
{
    assert forall|k: int| 0 <= k < b implies #[trigger] item(p, 0, k) == item(p, j - b, k) by {
        assert(item(p, 0, k) == item(t, i - b, k));
        assert(item(p, 0, j - b + k) == item(t, i - j, j - b + k));
    }
}

/// A border of a suffix match is a suffix match.
pub proof fn lemma_border_matches(t: Seq<u8>, i: int, p: Seq<u8>, j: int, b: int)
    requires
        is_suffix_match(t, i, p, j),
        is_border(p, j, b),
    ensures
        is_suffix_match(t, i, p, b),
{
    assert forall|k: int| 0 <= k < b implies #[trigger] item(p, 0, k) == item(t, i - b, k) by {
        assert(item(p, 0, k) == item(p, j - b, k));
        assert(item(p, 0, j - b + k) == item(t, i - j, j - b + k));
    }
}

/// A suffix match at `i + 1` is, without its last byte, one at `i`.
pub proof fn lemma_match_shrinks(t: Seq<u8>, i: int, p: Seq<u8>, b: int)
    requires
        is_suffix_match(t, i + 1, p, b),
        b >= 1,
    ensures
        is_suffix_match(t, i, p, b - 1),
        p[b - 1] == t[i],
{
    assert forall|k: int| 0 <= k < b - 1 implies #[trigger] item(p, 0, k) == item(
        t,
        i - (b - 1),
        k,
    ) by {
        assert(item(p, 0, k) == item(t, i + 1 - b, k));
    }
    assert(item(p, 0, b - 1) == item(t, i + 1 - b, b - 1));
}

/// A suffix match at `i` grows by one byte where the next bytes agree.
pub proof fn lemma_match_grows(t: Seq<u8>, i: int, p: Seq<u8>, j: int)
    requires
        is_suffix_match(t, i, p, j),
        i < t.len(),
        j < p.len(),
        p[j] == t[i],
    ensures
        is_suffix_match(t, i + 1, p, j + 1),
{
    assert forall|k: int| 0 <= k < j + 1 implies #[trigger] item(p, 0, k) == item(
        t,
        i + 1 - (j + 1),
        k,
    ) by {
        if k < j {
            assert(item(p, 0, k) == item(t, i - j, k));
        }
    }
}

/// The places at which `p` stands in `t`, in increasing order; for an empty
/// `p`, every place from zero to the length of `t`.
pub fn kmp_search(t: &str, p: &str) -> (res: Vec<usize>)
    ensures
        forall|k: int| 0 <= k < res@.len() ==> occurs(t.spec_bytes(), p.spec_bytes(), #[trigger] res@[k] as int),
        forall|k: int, l: int| 0 <= k < l < res@.len() ==> res@[k] < res@[l],
        forall|at: int| occurs(t.spec_bytes(), p.spec_bytes(), at) ==> exists|k: int| 0 <= k < res@.len() && #[trigger] res@[k] == at,
{
    let t = t.as_bytes();
    let p = p.as_bytes();
    let m = p.len();
    let mut res: Vec<usize> = Vec::new();
    if m == 0 {
        let mut at: usize = 0;
        while at < t.len()
            invariant
                at <= t@.len(),
                res@.len() == at,
                forall|k: int| 0 <= k < res@.len() ==> #[trigger] res@[k] == k,
            decreases t@.len() - at,
        {
            res.push(at);
            at += 1;
        }
        res.push(at);
        assert forall|at: int| occurs(t@, p@, at) implies exists|k: int|
            0 <= k < res@.len() && #[trigger] res@[k] == at by {
            assert(res@[at] == at);
        }
        return res;
    }
    let pi = kmp_prefix(p);
    let mut j: usize = 0;
    let mut i: usize = 0;
    while i < t.len()
        invariant
            i <= t@.len(),
            m == p@.len(),
            m > 0,
            pi@.len() == m,
            forall|x: int| 0 <= x < m ==> is_longest_border(p@, x + 1, #[trigger] pi@[x] as int),
            j < m,
            is_suffix_match(t@, i as int, p@, j as int),
            forall|b: int| j < b < m ==> !#[trigger] is_suffix_match(t@, i as int, p@, b),
            forall|k: int| 0 <= k < res@.len() ==> occurs(t@, p@, #[trigger] res@[k] as int) && res@[k] + m <= i,
            forall|k: int, l: int| 0 <= k < l < res@.len() ==> res@[k] < res@[l],
            forall|at: int| occurs(t@, p@, at) && at + m <= i ==> exists|k: int| 0 <= k < res@.len() && #[trigger] res@[k] == at,
        decreases t@.len() - i,
    {
        while j > 0 && t[i] != p[j]
            invariant
                m == p@.len(),
                pi@.len() == m,
                forall|x: int| 0 <= x < m ==> is_longest_border(p@, x + 1, #[trigger] pi@[x] as int),
                i < t@.len(),
                j < m,
                is_suffix_match(t@, i as int, p@, j as int),
                forall|b: int| j < b < m && #[trigger] is_suffix_match(t@, i as int, p@, b) ==> p@[b] != t@[i as int],
            decreases j,
        {
            let next = pi[j - 1];
            proof {
                assert(is_longest_border(p@, j - 1 + 1, pi@[j - 1] as int));
                lemma_border_matches(t@, i as int, p@, j as int, next as int);
                assert forall|b: int| next < b < m && #[trigger] is_suffix_match(t@, i as int, p@, b) implies p@[b]
                    != t@[i as int] by {
                    if b < j {
                        lemma_match_border(t@, i as int, p@, j as int, b);
                    }
                }
            }
            j = next;
        }
        let ghost before = res@;
        if t[i] == p[j] {
            proof {
                lemma_match_grows(t@, i as int, p@, j as int);
                assert forall|b: int| j + 1 < b <= m implies !#[trigger] is_suffix_match(
                    t@,
                    i + 1,
                    p@,
                    b,
                ) by {
                    if is_suffix_match(t@, i + 1, p@, b) {
                        lemma_match_shrinks(t@, i as int, p@, b);
                    }
                }
            }
            j += 1;
            if j == m {
                let at = i + 1 - j;
                res.push(at);
                let next = pi[j - 1];
                proof {
                    assert(is_longest_border(p@, m - 1 + 1, pi@[m - 1] as int));
                    lemma_border_matches(t@, i + 1, p@, m as int, next as int);
                    assert forall|b: int| next < b < m implies !#[trigger] is_suffix_match(
                        t@,
                        i + 1,
                        p@,
                        b,
                    ) by {
                        if is_suffix_match(t@, i + 1, p@, b) {
                            lemma_match_border(t@, i + 1, p@, m as int, b);
                        }
                    }
                    assert forall|x: int| occurs(t@, p@, x) && x + m <= i + 1 implies exists|k: int|
                        0 <= k < res@.len() && #[trigger] res@[k] == x by {
                        if x + m <= i {
                            let k = choose|k: int| 0 <= k < before.len() && #[trigger] before[k] == x;
                            assert(res@[k] == x);
                        } else {
                            assert(res@[before.len() as int] == x);
                        }
                    }
                }
                j = next;
            } else {
                proof {
                    assert forall|x: int| occurs(t@, p@, x) && x + m <= i + 1 implies exists|k: int|
                        0 <= k < res@.len() && #[trigger] res@[k] == x by {
                        if x + m == i + 1 {
                            assert(is_suffix_match(t@, i + 1, p@, m as int));
                        }
                    }
                }
            }
        } else {
            proof {
                assert forall|b: int| 0 < b <= m implies !#[trigger] is_suffix_match(
                    t@,
                    i + 1,
                    p@,
                    b,
                ) by {
                    if is_suffix_match(t@, i + 1, p@, b) {
                        lemma_match_shrinks(t@, i as int, p@, b);
                    }
                }
                assert(is_suffix_match(t@, i + 1, p@, 0));
                assert forall|x: int| occurs(t@, p@, x) && x + m <= i + 1 implies exists|k: int|
                    0 <= k < res@.len() && #[trigger] res@[k] == x by {
                    if x + m == i + 1 {
                        assert(is_suffix_match(t@, i + 1, p@, m as int));
                    }
                }
            }
        }
        i += 1;
    }
    res
}

/// For each `i` the length of the longest common prefix of `s` and of `s`
/// from `i` on; at zero, the length of `s`.
pub fn z_function(s: &str) -> (z: Vec<usize>)
    requires
        s.spec_bytes().len() > 0,
    ensures
        z@.len() == s.spec_bytes().len(),
        forall|i: int| 0 <= i < z@.len() ==> is_common_prefix(s.spec_bytes(), i, #[trigger] z@[i] as int),
{
    let s = s.as_bytes();
    let n = s.len();
    let mut z: Vec<usize> = Vec::new();
    z.push(0);
    let mut l: usize = 0;
    let mut r: usize = 0;
    for i in 1..n
        invariant
            n == s@.len(),
            z@.len() == i,
            l <= r <= n,
            l < i,
            r > 0 ==> l > 0,
            agree(s@, 0, s@, l as int, r - l),
            forall|x: int| 1 <= x < i ==> is_common_prefix(s@, x, #[trigger] z@[x] as int),
    {
        let mut k: usize = 0;
        if i < r {
            let inner = z[i - l];
            let room = r - i;
            k = if inner < room { inner } else { room };
            proof {
                assert(is_common_prefix(s@, i - l, z@[i - l] as int));
                assert forall|x: int| 0 <= x < k implies #[trigger] item(s@, 0, x) == item(
                    s@,
                    i as int,
                    x,
                ) by {
                    assert(item(s@, 0, x) == item(s@, i - l, x));
                    assert(item(s@, 0, i - l + x) == item(s@, l as int, i - l + x));
                }
            }
        }
        while i + k < n && s[k] == s[i + k]
            invariant
                n == s@.len(),
                i < n,
                i + k <= n,
                agree(s@, 0, s@, i as int, k as int),
            decreases n - k,
        {
            proof {
                assert forall|x: int| 0 <= x < k + 1 implies #[trigger] item(s@, 0, x) == item(
                    s@,
                    i as int,
                    x,
                ) by {
                    if x < k {
                        assert(item(s@, 0, x) == item(s@, i as int, x));
                    }
                }
            }
            k += 1;
        }
        if i + k > r {
            l = i;
            r = i + k;
        }
        z.push(k);
    }
    z[0] = n;
    assert(agree(s@, 0, s@, 0, n as int));
    z
}

} // verus!
