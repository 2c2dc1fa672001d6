use vstd::prelude::*;

verus! {

/// Whether `k` begins with `p`.
pub open spec fn has_prefix(k: Seq<u8>, p: Seq<u8>) -> bool {
    p.len() <= k.len() && forall|j: int| 0 <= j < p.len() ==> #[trigger] k[j] == p[j]
}

/// Byte-wise lexicographic order: `a` is a proper prefix of `b`, or the two first
/// differ at a position where `a` holds the smaller byte.
pub open spec fn lex_lt(a: Seq<u8>, b: Seq<u8>) -> bool {
    (a.len() < b.len() && has_prefix(b, a)) || exists|i: int|
        #![trigger a[i], b[i]]
        0 <= i < a.len() && i < b.len() && a[i] < b[i] && forall|j: int|
            0 <= j < i ==> #[trigger] a[j] == b[j]
}

pub open spec fn lex_le(a: Seq<u8>, b: Seq<u8>) -> bool {
    a == b || lex_lt(a, b)
}

/// The exclusive upper bound of the keys that begin with `p`: trailing `0xff` bytes
/// are dropped and the last remaining byte is incremented. Empty when `p` holds only
/// `0xff` bytes, which stands for "no upper bound".
pub open spec fn next_key_of(p: Seq<u8>) -> Seq<u8>
    decreases p.len(),
{
    if p.len() == 0 {
        seq![]
    } else if p.last() == 0xffu8 {
        next_key_of(p.drop_last())
    } else {
        p.drop_last().push((p.last() + 1) as u8)
    }
}

/// The exclusive lower bound below the keys that begin with `p`: trailing `0x00`
/// bytes are dropped and the last remaining byte is decremented. Empty when `p` holds
/// only `0x00` bytes, which stands for "no lower bound".
pub open spec fn prev_key_of(p: Seq<u8>) -> Seq<u8>
    decreases p.len(),
{
    if p.len() == 0 {
        seq![]
    } else if p.last() == 0u8 {
        prev_key_of(p.drop_last())
    } else {
        p.drop_last().push((p.last() - 1) as u8)
    }
}

/// Whether `k` lies in the scan range `[lower, upper)`; an empty `upper`
/// leaves the range unbounded above.
pub open spec fn in_forward_range(k: Seq<u8>, lower: Seq<u8>, upper: Seq<u8>) -> bool {
    lex_le(lower, k) && (upper.len() == 0 || lex_lt(k, upper))
}

pub proof fn lemma_lex_lt_irreflexive(a: Seq<u8>)
    ensures
        !lex_lt(a, a),
{
}

pub proof fn lemma_lex_lt_asymmetric(a: Seq<u8>, b: Seq<u8>)
    requires
        lex_lt(a, b),
    ensures
        !lex_lt(b, a),
{
    if a.len() < b.len() && has_prefix(b, a) {
        if lex_lt(b, a) {
            let i = choose|i: int|
                #![trigger b[i], a[i]]
                0 <= i < b.len() && i < a.len() && b[i] < a[i] && forall|j: int|
                    0 <= j < i ==> #[trigger] b[j] == a[j];
            assert(b[i] == a[i]);
        }
    } else {
        let i = choose|i: int|
            #![trigger a[i], b[i]]
            0 <= i < a.len() && i < b.len() && a[i] < b[i] && forall|j: int|
                0 <= j < i ==> #[trigger] a[j] == b[j];
        if lex_lt(b, a) {
            if b.len() < a.len() && has_prefix(a, b) {
                assert(a[i] == b[i]);
            } else {
                let k = choose|k: int|
                    #![trigger b[k], a[k]]
                    0 <= k < b.len() && k < a.len() && b[k] < a[k] && forall|j: int|
                        0 <= j < k ==> #[trigger] b[j] == a[j];
                if k < i {
                    assert(a[k] == b[k]);
                } else if i < k {
                    assert(b[i] == a[i]);
                }
            }
        }
    }
}

/// Any two distinct keys are ordered one way or the other.
pub proof fn lemma_lex_lt_total(a: Seq<u8>, b: Seq<u8>)
    requires
        a != b,
    ensures
        lex_lt(a, b) || lex_lt(b, a),
{
    if exists|i: int| 0 <= i < a.len() && i < b.len() && a[i] != b[i] {
        let i = choose|i: int| 0 <= i < a.len() && i < b.len() && a[i] != b[i];
        lemma_first_difference(a, b, i);
    } else {
        if a.len() == b.len() {
            assert(a =~= b);
        }
    }
}

proof fn lemma_first_difference(a: Seq<u8>, b: Seq<u8>, i: int)
    requires
        0 <= i < a.len(),
        i < b.len(),
        a[i] != b[i],
    ensures
        lex_lt(a, b) || lex_lt(b, a),
    decreases i,
{
    if exists|k: int| 0 <= k < i && a[k] != b[k] {
        let k = choose|k: int| 0 <= k < i && a[k] != b[k];
        lemma_first_difference(a, b, k);
    } else {
        if a[i] < b[i] {
            assert(lex_lt(a, b));
        } else {
            assert(lex_lt(b, a));
        }
    }
}

pub proof fn lemma_lex_lt_transitive(a: Seq<u8>, b: Seq<u8>, c: Seq<u8>)
    requires
        lex_lt(a, b),
        lex_lt(b, c),
    ensures
        lex_lt(a, c),
{
    // position where a leaves b (len of a if a is a prefix of b)
    let i: int = if a.len() < b.len() && has_prefix(b, a) {
        a.len() as int
    } else {
        choose|i: int|
            #![trigger a[i], b[i]]
            0 <= i < a.len() && i < b.len() && a[i] < b[i] && forall|j: int|
                0 <= j < i ==> #[trigger] a[j] == b[j]
    };
    let k: int = if b.len() < c.len() && has_prefix(c, b) {
        b.len() as int
    } else {
        choose|k: int|
            #![trigger b[k], c[k]]
            0 <= k < b.len() && k < c.len() && b[k] < c[k] && forall|j: int|
                0 <= j < k ==> #[trigger] b[j] == c[j]
    };
    assert(forall|j: int| 0 <= j < i && j < k ==> a[j] == c[j]) by {
        assert forall|j: int| 0 <= j < i && j < k implies a[j] == c[j] by {
            assert(a[j] == b[j]);
            assert(b[j] == c[j]);
        }
    }
    if i < k {
        if i == a.len() {
            assert(has_prefix(c, a));
        } else {
            assert(b[i] == c[i]);
            assert(a[i] < c[i]);
        }
    } else if k < i {
        assert(a[k] == b[k]);
        assert(a[k] < c[k]);
    } else {
        if i == a.len() {
            assert(has_prefix(c, a));
        } else {
            assert(a[i] < c[i]);
        }
    }
}

proof fn lemma_next_key_shape(p: Seq<u8>)
    ensures
        next_key_of(p).len() == 0 ==> forall|j: int| 0 <= j < p.len() ==> #[trigger] p[j] == 0xffu8,
        next_key_of(p).len() != 0 ==> {
            let n = next_key_of(p);
            let pos = n.len() - 1;
            &&& n.len() <= p.len()
            &&& p[pos] != 0xffu8
            &&& n[pos] == (p[pos] + 1) as u8
            &&& forall|j: int| 0 <= j < pos ==> #[trigger] n[j] == p[j]
        },
    decreases p.len(),
{
    if p.len() > 0 {
        lemma_next_key_shape(p.drop_last());
        if p.last() == 0xffu8 {
            assert(forall|j: int| 0 <= j < p.len() - 1 ==> p[j] == p.drop_last()[j]);
        }
    }
}

proof fn lemma_prev_key_shape(p: Seq<u8>)
    ensures
        prev_key_of(p).len() != 0 ==> {
            let n = prev_key_of(p);
            let pos = n.len() - 1;
            &&& n.len() <= p.len()
            &&& p[pos] != 0u8
            &&& n[pos] == (p[pos] - 1) as u8
            &&& forall|j: int| 0 <= j < pos ==> #[trigger] n[j] == p[j]
        },
    decreases p.len(),
{
    if p.len() > 0 {
        lemma_prev_key_shape(p.drop_last());
        if p.last() == 0u8 {
            assert(forall|j: int| 0 <= j < p.len() - 1 ==> p[j] == p.drop_last()[j]);
        }
    }
}

/// A forward scan over `[p, next_key(p))` sees exactly the keys that begin with `p`.
pub proof fn lemma_next_key_bounds_prefix(p: Seq<u8>, k: Seq<u8>)
    ensures
        has_prefix(k, p) <==> in_forward_range(k, p, next_key_of(p)),
{
    let n = next_key_of(p);
    lemma_next_key_shape(p);
    if has_prefix(k, p) {
        if k.len() == p.len() {
            assert(k =~= p);
        }
        if n.len() != 0 {
            let pos = n.len() - 1;
            assert(k[pos] == p[pos]);
            assert(forall|j: int| 0 <= j < pos ==> k[j] == n[j]) by {
                assert forall|j: int| 0 <= j < pos implies k[j] == n[j] by {
                    assert(k[j] == p[j]);
                }
            }
            assert(k[pos] < n[pos]);
        }
    } else if in_forward_range(k, p, n) {
        if k != p {
            // p < k, and p is not a prefix of k: they first differ at some i
            let i = choose|i: int|
                #![trigger p[i], k[i]]
                0 <= i < p.len() && i < k.len() && p[i] < k[i] && forall|j: int|
                    0 <= j < i ==> #[trigger] p[j] == k[j];
            if n.len() == 0 {
                assert(p[i] == 0xffu8);
            } else {
                let pos = n.len() - 1;
                if i < pos {
                    assert(n[i] == p[i]);
                    assert(forall|j: int| 0 <= j < i ==> n[j] == k[j]) by {
                        assert forall|j: int| 0 <= j < i implies n[j] == k[j] by {
                            assert(n[j] == p[j]);
                        }
                    }
                    assert(lex_lt(n, k));
                    lemma_lex_lt_asymmetric(n, k);
                } else if i == pos {
                    assert(forall|j: int| 0 <= j < i ==> n[j] == k[j]) by {
                        assert forall|j: int| 0 <= j < i implies n[j] == k[j] by {
                            assert(n[j] == p[j]);
                        }
                    }
                    if n[i] < k[i] {
                        assert(lex_lt(n, k));
                        lemma_lex_lt_asymmetric(n, k);
                    } else {
                        assert(n[i] == k[i]);
                        assert(has_prefix(k, n));
                        if n.len() < k.len() {
                            assert(lex_lt(n, k));
                            lemma_lex_lt_asymmetric(n, k);
                        } else {
                            assert(k =~= n);
                            lemma_lex_lt_irreflexive(k);
                        }
                    }
                } else {
                    assert(forall|j: int| pos < j < p.len() ==> p[j] == 0xffu8) by {
                        lemma_trailing_ff(p);
                    }
                }
            }
        }
    }
}

proof fn lemma_trailing_ff(p: Seq<u8>)
    requires
        next_key_of(p).len() != 0,
    ensures
        forall|j: int| next_key_of(p).len() - 1 < j < p.len() ==> #[trigger] p[j] == 0xffu8,
    decreases p.len(),
{
    if p.last() == 0xffu8 {
        lemma_trailing_ff(p.drop_last());
        assert(forall|j: int| 0 <= j < p.len() - 1 ==> p[j] == p.drop_last()[j]);
    }
}

/// Every key that begins with `p` lies strictly above `prev_key(p)`: it is an exclusive
/// lower bound of the keys that begin with `p`.
pub proof fn lemma_prev_key_below_prefix(p: Seq<u8>, k: Seq<u8>)
    requires
        has_prefix(k, p),
        prev_key_of(p).len() != 0,
    ensures
        lex_lt(prev_key_of(p), k),
        lex_lt(prev_key_of(p), p),
{
    let n = prev_key_of(p);
    lemma_prev_key_shape(p);
    let pos = n.len() - 1;
    assert(k[pos] == p[pos]);
    assert(forall|j: int| 0 <= j < pos ==> n[j] == k[j]) by {
        assert forall|j: int| 0 <= j < pos implies n[j] == k[j] by {
            assert(k[j] == p[j]);
        }
    }
    assert(n[pos] < k[pos]);
    assert(n[pos] < p[pos]);
}

/// Compares two keys in byte-wise lexicographic order.
pub fn key_lt(a: &[u8], b: &[u8]) -> (r: bool)
    ensures
        r == lex_lt(a@, b@),
{
    let mut i: usize = 0;
    while i < a.len() && i < b.len()
        invariant
            i <= a@.len(),
            i <= b@.len(),
            forall|j: int| 0 <= j < i ==> #[trigger] a@[j] == b@[j],
        decreases a@.len() - i,
    {
        if a[i] != b[i] {
            proof {
                if a@[i as int] < b@[i as int] {
                    assert(lex_lt(a@, b@));
                } else {
                    assert(lex_lt(b@, a@));
                    lemma_lex_lt_asymmetric(b@, a@);
                }
            }
            return a[i] < b[i];
        }
        i += 1;
    }
    proof {
        if i < b@.len() {
            assert(has_prefix(b@, a@));
        } else if lex_lt(a@, b@) {
            if a@.len() < b@.len() && has_prefix(b@, a@) {
            } else {
                let k = choose|k: int|
                    #![trigger a@[k], b@[k]]
                    0 <= k < a@.len() && k < b@.len() && a@[k] < b@[k] && forall|j: int|
                        0 <= j < k ==> #[trigger] a@[j] == b@[j];
                assert(a@[k] == b@[k]);
            }
        }
    }
    i < b.len()
}

/// Whether two keys hold the same bytes.
pub fn key_eq(a: &[u8], b: &[u8]) -> (r: bool)
    ensures
        r == (a@ == b@),
{
    if a.len() != b.len() {
        return false;
    }
    let mut i: usize = 0;
    while i < a.len()
        invariant
            i <= a@.len(),
            a@.len() == b@.len(),
            forall|j: int| 0 <= j < i ==> #[trigger] a@[j] == b@[j],
        decreases a@.len() - i,
    {
        if a[i] != b[i] {
            return false;
        }
        i += 1;
    }
    assert(a@ =~= b@);
    true
}

/// An owned copy of a key.
pub fn copy_key(k: &[u8]) -> (r: Vec<u8>)
    ensures
        r@ == k@,
{
    let mut r: Vec<u8> = Vec::new();
    let mut i: usize = 0;
    while i < k.len()
        invariant
            i <= k@.len(),
            r@ =~= k@.subrange(0, i as int),
        decreases k@.len() - i,
    {
        r.push(k[i]);
        i += 1;
    }
    proof {
        assert(r@ =~= k@);
    }
    r
}

/// The exclusive upper bound of a forward scan over the keys that begin with `prefix`.
/// An empty result means the scan has no upper bound.
pub fn next_key(prefix: &[u8]) -> (r: Vec<u8>)
    ensures
        r@ == next_key_of(prefix@),
{
    let mut n: usize = prefix.len();
    proof {
        assert(prefix@.subrange(0, n as int) =~= prefix@);
    }
    while n > 0 && prefix[n - 1] == 0xffu8
        invariant
            n <= prefix@.len(),
            next_key_of(prefix@) == next_key_of(prefix@.subrange(0, n as int)),
        decreases n,
    {
        proof {
            let s = prefix@.subrange(0, n as int);
            assert(s.drop_last() =~= prefix@.subrange(0, n - 1));
        }
        n -= 1;
    }
    let mut r: Vec<u8> = Vec::new();
    if n == 0 {
        proof {
            assert(prefix@.subrange(0, 0) =~= Seq::<u8>::empty());
        }
        return r;
    }
    let mut i: usize = 0;
    while i + 1 < n
        invariant
            0 < n <= prefix@.len(),
            i < n,
            r@ =~= prefix@.subrange(0, i as int),
        decreases n - i,
    {
        r.push(prefix[i]);
        i += 1;
    }
    r.push(prefix[n - 1] + 1);
    proof {
        let s = prefix@.subrange(0, n as int);
        assert(s.drop_last() =~= prefix@.subrange(0, i as int));
    }
    r
}

/// The exclusive lower bound of a backward scan over the keys that begin with
/// `prefix`. An empty result means the scan has no lower bound.
pub fn prev_key(prefix: &[u8]) -> (r: Vec<u8>)
    ensures
        r@ == prev_key_of(prefix@),
{
    let mut n: usize = prefix.len();
    proof {
        assert(prefix@.subrange(0, n as int) =~= prefix@);
    }
    while n > 0 && prefix[n - 1] == 0u8
        invariant
            n <= prefix@.len(),
            prev_key_of(prefix@) == prev_key_of(prefix@.subrange(0, n as int)),
        decreases n,
    {
        proof {
            let s = prefix@.subrange(0, n as int);
            assert(s.drop_last() =~= prefix@.subrange(0, n - 1));
        }
        n -= 1;
    }
    let mut r: Vec<u8> = Vec::new();
    if n == 0 {
        proof {
            assert(prefix@.subrange(0, 0) =~= Seq::<u8>::empty());
        }
        return r;
    }
    let mut i: usize = 0;
    while i + 1 < n
        invariant
            0 < n <= prefix@.len(),
            i < n,
            r@ =~= prefix@.subrange(0, i as int),
        decreases n - i,
    {
        r.push(prefix[i]);
        i += 1;
    }
    r.push(prefix[n - 1] - 1);
    proof {
        let s = prefix@.subrange(0, n as int);
        assert(s.drop_last() =~= prefix@.subrange(0, i as int));
    }
    r
}

} // verus!
