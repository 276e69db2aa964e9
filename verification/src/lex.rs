//! Lexicographic order on byte strings.
//!
//! Digests, their hexadecimal text and paths are all ordered the same way:
//! byte by byte, a proper prefix sorting before every string that extends it.

use vstd::prelude::*;
use vstd::string::StringSliceAdditionalSpecFns;
use vstd::utf8::*;

verus! {

/// Where one byte string stands with respect to another.
#[derive(Clone, Copy, Debug, PartialEq, Eq)]
pub enum Rank {
    Before,
    Same,
    After,
}

/// `a` and `b` agree on their first `k` bytes, and at position `k` either `a`
/// ends while `b` goes on, or `a` holds the smaller byte.
pub open spec fn parts_at(a: Seq<u8>, b: Seq<u8>, k: int) -> bool {
    &&& 0 <= k <= a.len()
    &&& k <= b.len()
    &&& forall|i: int| 0 <= i < k ==> a[i] == b[i]
    &&& if k == a.len() {
        k < b.len()
    } else {
        k < b.len() && a[k] < b[k]
    }
}

/// `a` sorts strictly before `b`.
pub open spec fn precedes(a: Seq<u8>, b: Seq<u8>) -> bool {
    exists|k: int| #[trigger] parts_at(a, b, k)
}

/// `a` sorts before `b` or equals it.
pub open spec fn at_most(a: Seq<u8>, b: Seq<u8>) -> bool {
    a == b || precedes(a, b)
}

/// No byte string sorts before itself.
pub proof fn lemma_irreflexive(a: Seq<u8>)
    ensures
        !precedes(a, a),
{
}

/// Two byte strings never sort before each other.
pub proof fn lemma_asymmetric(a: Seq<u8>, b: Seq<u8>)
    requires
        precedes(a, b),
    ensures
        !precedes(b, a),
        a != b,
{
    let k = choose|k: int| #[trigger] parts_at(a, b, k);
    if precedes(b, a) {
        let j = choose|j: int| #[trigger] parts_at(b, a, j);
        if k < j {
            assert(b[k] == a[k]);
        } else if j < k {
            assert(a[j] == b[j]);
        }
    }
}

/// The order is transitive.
pub proof fn lemma_transitive(a: Seq<u8>, b: Seq<u8>, c: Seq<u8>)
    requires
        precedes(a, b),
        precedes(b, c),
    ensures
        precedes(a, c),
{
    let k = choose|k: int| #[trigger] parts_at(a, b, k);
    let j = choose|j: int| #[trigger] parts_at(b, c, j);
    let m = if k <= j { k } else { j };
    assert forall|i: int| 0 <= i < m implies a[i] == c[i] by {
        assert(a[i] == b[i]);
        assert(b[i] == c[i]);
    }
    if k < j {
        assert(b[k] == c[k]);
    } else if j < k {
        assert(a[j] == b[j]);
    }
    assert(parts_at(a, c, m));
}

/// Two byte strings that agree on their first `k` bytes are equal, or one
/// sorts before the other.
proof fn lemma_total_from(a: Seq<u8>, b: Seq<u8>, k: int)
    requires
        0 <= k <= a.len(),
        k <= b.len(),
        forall|i: int| 0 <= i < k ==> a[i] == b[i],
    ensures
        a == b || precedes(a, b) || precedes(b, a),
    decreases a.len() - k,
{
    if k == a.len() {
        if k == b.len() {
            assert(a =~= b);
        } else {
            assert(parts_at(a, b, k));
        }
    } else if k == b.len() {
        assert(parts_at(b, a, k));
    } else if a[k] < b[k] {
        assert(parts_at(a, b, k));
    } else if b[k] < a[k] {
        assert(parts_at(b, a, k));
    } else {
        lemma_total_from(a, b, k + 1);
    }
}

/// The order is total: of two different byte strings one sorts before the
/// other.
pub proof fn lemma_total(a: Seq<u8>, b: Seq<u8>)
    ensures
        a == b || precedes(a, b) || precedes(b, a),
{
    lemma_total_from(a, b, 0);
}

/// What sorts before a byte string sorts before everything from that byte
/// string on.
pub proof fn lemma_before_at_most(a: Seq<u8>, b: Seq<u8>, c: Seq<u8>)
    requires
        precedes(a, b),
        at_most(b, c),
    ensures
        precedes(a, c),
{
    if b != c {
        lemma_transitive(a, b, c);
    }
}

/// Two byte strings neither of which sorts after the other are equal.
pub proof fn lemma_antisymmetric(a: Seq<u8>, b: Seq<u8>)
    requires
        at_most(a, b),
        at_most(b, a),
    ensures
        a == b,
{
    if a != b {
        lemma_asymmetric(a, b);
    }
}

/// Each key sorts strictly before all the keys after it.
pub open spec fn increasing(keys: Seq<Seq<u8>>) -> bool {
    forall|i: int, j: int|
        0 <= i < j < keys.len() ==> precedes(#[trigger] keys[i], #[trigger] keys[j])
}

/// Increasing keys are all different.
pub proof fn lemma_increasing_distinct(keys: Seq<Seq<u8>>)
    requires
        increasing(keys),
    ensures
        keys.no_duplicates(),
{
    assert forall|i: int, j: int|
        0 <= i < keys.len() && 0 <= j < keys.len() && i != j implies keys[i] != keys[j] by {
        if i < j {
            lemma_asymmetric(keys[i], keys[j]);
        } else {
            lemma_asymmetric(keys[j], keys[i]);
        }
    }
}

/// There is one way only to put a set of keys in increasing order.
pub proof fn lemma_increasing_unique(a: Seq<Seq<u8>>, b: Seq<Seq<u8>>)
    requires
        increasing(a),
        increasing(b),
        forall|key: Seq<u8>| a.contains(key) <==> b.contains(key),
    ensures
        a == b,
    decreases a.len(),
{
    if a.len() == 0 {
        if b.len() > 0 {
            assert(b.contains(b[0]));
        }
        assert(a =~= b);
    } else {
        let top = a.last();
        assert(a.contains(top));
        let at = choose|at: int| 0 <= at < b.len() && b[at] == top;
        assert(b.contains(b.last()));
        let back = choose|back: int| 0 <= back < a.len() && a[back] == b.last();
        if at < b.len() - 1 {
            assert(precedes(b[at], b.last()));
            if back < a.len() - 1 {
                assert(precedes(a[back], a.last()));
            }
            lemma_asymmetric(top, b.last());
        }
        lemma_increasing_distinct(a);
        lemma_increasing_distinct(b);
        let front = a.drop_last();
        let other = b.drop_last();
        assert forall|key: Seq<u8>| front.contains(key) <==> other.contains(key) by {
            if front.contains(key) {
                let i = choose|i: int| 0 <= i < front.len() && front[i] == key;
                assert(a[i] == key);
                assert(a.contains(key));
                let j = choose|j: int| 0 <= j < b.len() && b[j] == key;
                assert(other[j] == key);
            }
            if other.contains(key) {
                let j = choose|j: int| 0 <= j < other.len() && other[j] == key;
                assert(b[j] == key);
                assert(b.contains(key));
                let i = choose|i: int| 0 <= i < a.len() && a[i] == key;
                assert(front[i] == key);
            }
        }
        assert(increasing(front)) by {
            assert forall|i: int, j: int| 0 <= i < j < front.len() implies precedes(
                #[trigger] front[i],
                #[trigger] front[j],
            ) by {
                assert(precedes(a[i], a[j]));
            }
        }
        assert(increasing(other)) by {
            assert forall|i: int, j: int| 0 <= i < j < other.len() implies precedes(
                #[trigger] other[i],
                #[trigger] other[j],
            ) by {
                assert(precedes(b[i], b[j]));
            }
        }
        lemma_increasing_unique(front, other);
        assert(a =~= front.push(top));
        assert(b =~= other.push(top));
    }
}

/// Compares two byte strings.
pub fn compare(a: &[u8], b: &[u8]) -> (rank: Rank)
    ensures
        rank == Rank::Before <==> precedes(a@, b@),
        rank == Rank::Same <==> a@ == b@,
        rank == Rank::After <==> precedes(b@, a@),
{
    let mut k: usize = 0;
    while k < a.len() && k < b.len()
        invariant
            k <= a.len(),
            k <= b.len(),
            forall|i: int| 0 <= i < k ==> a@[i] == b@[i],
        decreases a.len() - k,
    {
        if a[k] < b[k] {
            proof {
                assert(parts_at(a@, b@, k as int));
                lemma_asymmetric(a@, b@);
            }
            return Rank::Before;
        }
        if b[k] < a[k] {
            proof {
                assert(parts_at(b@, a@, k as int));
                lemma_asymmetric(b@, a@);
            }
            return Rank::After;
        }
        k += 1;
    }
    if k < b.len() {
        proof {
            assert(parts_at(a@, b@, k as int));
            lemma_asymmetric(a@, b@);
        }
        Rank::Before
    } else if k < a.len() {
        proof {
            assert(parts_at(b@, a@, k as int));
            lemma_asymmetric(b@, a@);
        }
        Rank::After
    } else {
        proof {
            assert(a@ =~= b@);
            lemma_irreflexive(a@);
        }
        Rank::Same
    }
}

/// The bytes under which a text is stored and ordered: its UTF-8 encoding.
pub open spec fn text_bytes(text: Seq<char>) -> Seq<u8> {
    encode_utf8(text)
}

/// Two texts with the same bytes are the same text.
pub proof fn lemma_text_bytes_injective(a: Seq<char>, b: Seq<char>)
    requires
        text_bytes(a) == text_bytes(b),
    ensures
        a == b,
{
    encode_utf8_decode_utf8(a);
    encode_utf8_decode_utf8(b);
}

/// Compares two texts by their bytes.
pub fn compare_text(a: &str, b: &str) -> (rank: Rank)
    ensures
        rank == Rank::Before <==> precedes(text_bytes(a@), text_bytes(b@)),
        rank == Rank::Same <==> a@ == b@,
        rank == Rank::After <==> precedes(text_bytes(b@), text_bytes(a@)),
{
    let rank = compare(a.as_bytes(), b.as_bytes());
    proof {
        if text_bytes(a@) == text_bytes(b@) {
            lemma_text_bytes_injective(a@, b@);
        }
    }
    rank
}

} // verus!
