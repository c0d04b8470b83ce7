//! The order of project paths: byte-wise lexicographic order of their UTF-8
//! encodings, which is how Rust orders strings.
use vstd::prelude::*;
use vstd::string::*;
use vstd::utf8::*;

verus! {

/// `a` and `b` agree on their first `k` bytes.
pub open spec fn agree_before(a: Seq<u8>, b: Seq<u8>, k: int) -> bool {
    forall|j: int| 0 <= j < k ==> #[trigger] a[j] == b[j]
}

/// `k` is where `a` and `b` first part, with `a` the smaller there: either `a`
/// ends while `b` goes on, or `a` has the smaller byte.
pub open spec fn parts_below(a: Seq<u8>, b: Seq<u8>, k: int) -> bool {
    &&& 0 <= k <= a.len()
    &&& k <= b.len()
    &&& agree_before(a, b, k)
    &&& if k == a.len() {
        k < b.len()
    } else {
        k < b.len() && a[k] < b[k]
    }
}

/// Lexicographic order of byte strings.
pub open spec fn bytes_lt(a: Seq<u8>, b: Seq<u8>) -> bool {
    exists|k: int| parts_below(a, b, k)
}

/// The order of paths: that of their UTF-8 bytes.
pub open spec fn path_lt(p: Seq<char>, q: Seq<char>) -> bool {
    bytes_lt(encode_utf8(p), encode_utf8(q))
}

/// No byte string is below itself.
pub proof fn lemma_bytes_lt_irreflexive(a: Seq<u8>)
    ensures
        !bytes_lt(a, a),
{
}

/// The order is transitive.
pub proof fn lemma_bytes_lt_transitive(a: Seq<u8>, b: Seq<u8>, c: Seq<u8>)
    requires
        bytes_lt(a, b),
        bytes_lt(b, c),
    ensures
        bytes_lt(a, c),
{
    let k1 = choose|k: int| parts_below(a, b, k);
    let k2 = choose|k: int| parts_below(b, c, k);
    if k1 < k2 {
        assert(b[k1] == c[k1]);
        assert(parts_below(a, c, k1));
    } else if k2 < k1 {
        assert(a[k2] == b[k2]);
        assert(parts_below(a, c, k2));
    } else {
        assert(parts_below(a, c, k1));
    }
}

/// The first `k` at or after `from` where `a` and `b` differ, or where one ends.
proof fn lemma_first_difference(a: Seq<u8>, b: Seq<u8>, from: int) -> (k: int)
    requires
        0 <= from <= a.len(),
        from <= b.len(),
        agree_before(a, b, from),
    ensures
        from <= k <= a.len(),
        k <= b.len(),
        agree_before(a, b, k),
        k == a.len() || k == b.len() || a[k] != b[k],
    decreases a.len() - from,
{
    if from == a.len() || from == b.len() || a[from] != b[from] {
        from
    } else {
        lemma_first_difference(a, b, from + 1)
    }
}

/// Distinct byte strings are ordered one way or the other.
pub proof fn lemma_bytes_lt_total(a: Seq<u8>, b: Seq<u8>)
    requires
        a != b,
    ensures
        bytes_lt(a, b) || bytes_lt(b, a),
{
    let k = lemma_first_difference(a, b, 0);
    assert(agree_before(b, a, k));
    if k == a.len() && k == b.len() {
        assert(a =~= b);
    } else if k == a.len() {
        assert(parts_below(a, b, k));
    } else if k == b.len() {
        assert(parts_below(b, a, k));
    } else if a[k] < b[k] {
        assert(parts_below(a, b, k));
    } else {
        assert(parts_below(b, a, k));
    }
}

/// Paths are ordered strictly and totally.
pub proof fn lemma_path_order(p: Seq<char>, q: Seq<char>, r: Seq<char>)
    ensures
        !path_lt(p, p),
        p != q ==> path_lt(p, q) || path_lt(q, p),
        path_lt(p, q) && path_lt(q, r) ==> path_lt(p, r),
{
    lemma_bytes_lt_irreflexive(encode_utf8(p));
    if p != q {
        encode_utf8_decode_utf8(p);
        encode_utf8_decode_utf8(q);
        lemma_bytes_lt_total(encode_utf8(p), encode_utf8(q));
    }
    if path_lt(p, q) && path_lt(q, r) {
        lemma_bytes_lt_transitive(encode_utf8(p), encode_utf8(q), encode_utf8(r));
    }
}

/// Whether path `a` comes before path `b`.
pub fn path_less(a: &str, b: &str) -> (less: bool)
    ensures
        less == path_lt(a@, b@),
{
    let x = a.as_bytes();
    let y = b.as_bytes();
    let ghost xs = x@;
    let ghost ys = y@;
    assert(xs == encode_utf8(a@));
    assert(ys == encode_utf8(b@));
    let mut i: usize = 0;
    while i < x.len() && i < y.len()
        invariant
            xs == x@,
            ys == y@,
            xs == encode_utf8(a@),
            ys == encode_utf8(b@),
            i <= xs.len(),
            i <= ys.len(),
            agree_before(xs, ys, i as int),
        decreases xs.len() - i,
    {
        if x[i] != y[i] {
            proof {
                if x[i as int] < y[i as int] {
                    assert(parts_below(xs, ys, i as int));
                } else {
                    assert forall|k: int| !parts_below(xs, ys, k) by {
                        if parts_below(xs, ys, k) {
                            if k > i {
                                assert(xs[i as int] == ys[i as int]);
                            } else if k < i {
                                assert(xs[k] == ys[k]);
                            }
                        }
                    }
                    assert(!bytes_lt(xs, ys));
                }
            }
            return x[i] < y[i];
        }
        i = i + 1;
    }
    proof {
        if i < ys.len() {
            assert(i == xs.len());
            assert(parts_below(xs, ys, i as int));
        } else {
            assert forall|k: int| !parts_below(xs, ys, k) by {}
        }
    }
    x.len() < y.len()
}

} // verus!
