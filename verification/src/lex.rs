//! Lexicographic order of texts and byte strings.
use vstd::prelude::*;
use crate::text::chars_of;

verus! {

/// Whether `a` comes before `b` because of position `k`: they agree before it, and there `a`
/// ends or holds the smaller entry.
pub open spec fn lex_less_at(a: Seq<int>, b: Seq<int>, k: int) -> bool {
    &&& 0 <= k <= a.len()
    &&& k < b.len()
    &&& forall|j: int| 0 <= j < k ==> #[trigger] a[j] == b[j]
    &&& k == a.len() || a[k] < b[k]
}

/// The lexicographic order.
pub open spec fn lex_less(a: Seq<int>, b: Seq<int>) -> bool {
    exists|k: int| lex_less_at(a, b, k)
}

/// No sequence comes before itself.
pub proof fn lemma_lex_irreflexive(a: Seq<int>)
    ensures
        !lex_less(a, a),
{
}

/// The order is transitive.
pub proof fn lemma_lex_transitive(a: Seq<int>, b: Seq<int>, c: Seq<int>)
    requires
        lex_less(a, b),
        lex_less(b, c),
    ensures
        lex_less(a, c),
{
    let k = choose|k: int| lex_less_at(a, b, k);
    let m = choose|m: int| lex_less_at(b, c, m);
    let n = if k < m {
        k
    } else {
        m
    };
    assert forall|j: int| 0 <= j < n implies #[trigger] a[j] == c[j] by {
        assert(a[j] == b[j]);
        assert(b[j] == c[j]);
    }
    if k < m {
        assert(b[k] == c[k]);
    } else if m < k {
        assert(a[m] == b[m]);
    }
    assert(lex_less_at(a, c, n));
}

proof fn lemma_lex_total_from(a: Seq<int>, b: Seq<int>, k: int)
    requires
        0 <= k <= a.len(),
        k <= b.len(),
        forall|j: int| 0 <= j < k ==> #[trigger] a[j] == b[j],
    ensures
        a == b || lex_less(a, b) || lex_less(b, a),
    decreases a.len() - k,
{
    if k == a.len() && k == b.len() {
        assert(a =~= b);
    } else if k == a.len() {
        assert(lex_less_at(a, b, k));
    } else if k == b.len() {
        assert(lex_less_at(b, a, k));
    } else if a[k] < b[k] {
        assert(lex_less_at(a, b, k));
    } else if a[k] > b[k] {
        assert(lex_less_at(b, a, k));
    } else {
        lemma_lex_total_from(a, b, k + 1);
    }
}

/// Of two different sequences one comes before the other.
pub proof fn lemma_lex_total(a: Seq<int>, b: Seq<int>)
    ensures
        a == b || lex_less(a, b) || lex_less(b, a),
{
    lemma_lex_total_from(a, b, 0);
}

/// The code points of a text.
pub open spec fn codes(s: Seq<char>) -> Seq<int> {
    s.map_values(|c: char| c as int)
}

/// The values of a byte string.
pub open spec fn byte_values(s: Seq<u8>) -> Seq<int> {
    s.map_values(|b: u8| b as int)
}

/// Texts with the same code points are equal.
pub proof fn lemma_codes_injective(a: Seq<char>, b: Seq<char>)
    ensures
        codes(a) == codes(b) <==> a == b,
{
    if codes(a) == codes(b) {
        assert(codes(a).len() == a.len());
        assert(codes(b).len() == b.len());
        assert forall|i: int| 0 <= i < a.len() implies a[i] == b[i] by {
            assert(codes(a)[i] == a[i] as int);
            assert(codes(b)[i] == b[i] as int);
        }
        assert(a =~= b);
    }
}

/// Identifier order: by code points.
pub open spec fn id_less(a: Seq<char>, b: Seq<char>) -> bool {
    lex_less(codes(a), codes(b))
}

/// How two identifiers stand to each other.
#[derive(Clone, Copy, Debug, PartialEq, Eq, Structural)]
pub enum Comparison {
    Before,
    Same,
    After,
}

/// The values of a list.
spec fn values_of(v: Seq<u32>) -> Seq<int> {
    v.map_values(|x: u32| x as int)
}

/// Compares two lists of values.
fn compare_values(x: &Vec<u32>, y: &Vec<u32>) -> (r: Comparison)
    ensures
        r == Comparison::Before <==> lex_less(values_of(x@), values_of(y@)),
        r == Comparison::Same <==> values_of(x@) == values_of(y@),
        r == Comparison::After <==> lex_less(values_of(y@), values_of(x@)),
{
    let ghost a = values_of(x@);
    let ghost b = values_of(y@);
    proof {
        lemma_lex_total(a, b);
        lemma_lex_irreflexive(a);
        if lex_less(a, b) && lex_less(b, a) {
            lemma_lex_transitive(a, b, a);
        }
    }
    let mut i: usize = 0;
    while i < x.len() && i < y.len()
        invariant
            a == values_of(x@),
            b == values_of(y@),
            i <= x.len(),
            i <= y.len(),
            forall|j: int| 0 <= j < i ==> #[trigger] a[j] == b[j],
            lex_less(a, b) ==> !lex_less(b, a) && a != b,
            lex_less(b, a) ==> a != b,
        ensures
            i == x.len() || i == y.len(),
        decreases x.len() - i,
    {
        if x[i] < y[i] {
            proof {
                assert(lex_less_at(a, b, i as int));
            }
            return Comparison::Before;
        }
        if x[i] > y[i] {
            proof {
                assert(lex_less_at(b, a, i as int));
            }
            return Comparison::After;
        }
        i = i + 1;
    }
    if i < y.len() {
        proof {
            assert(lex_less_at(a, b, i as int));
        }
        Comparison::Before
    } else if i < x.len() {
        proof {
            assert(lex_less_at(b, a, i as int));
        }
        Comparison::After
    } else {
        proof {
            assert(a =~= b);
        }
        Comparison::Same
    }
}

/// The code point of a character.
fn code_of(c: char) -> (n: u32)
    ensures
        n == c as int,
{
    c as u32
}

/// The code points of a text.
fn codes_of(s: &str) -> (r: Vec<u32>)
    ensures
        values_of(r@) == codes(s@),
{
    let chars = chars_of(s);
    let mut r: Vec<u32> = Vec::new();
    let mut i: usize = 0;
    while i < chars.len()
        invariant
            i <= chars.len(),
            r@.len() == i,
            forall|j: int| 0 <= j < i ==> (#[trigger] r@[j]) as int == chars@[j] as int,
        decreases chars.len() - i,
    {
        r.push(code_of(chars[i]));
        i = i + 1;
    }
    assert(values_of(r@) =~= codes(s@));
    r
}

/// Compares two identifiers.
pub fn compare_ids(a: &str, b: &str) -> (r: Comparison)
    ensures
        r == Comparison::Before <==> id_less(a@, b@),
        r == Comparison::Same <==> a@ == b@,
        r == Comparison::After <==> id_less(b@, a@),
{
    proof {
        lemma_codes_injective(a@, b@);
    }
    compare_values(&codes_of(a), &codes_of(b))
}

/// The values of a byte string.
fn values_of_bytes(s: &Vec<u8>) -> (r: Vec<u32>)
    ensures
        values_of(r@) == byte_values(s@),
{
    let mut r: Vec<u32> = Vec::new();
    let mut i: usize = 0;
    while i < s.len()
        invariant
            i <= s.len(),
            r@.len() == i,
            forall|j: int| 0 <= j < i ==> #[trigger] r@[j] == s@[j] as u32,
        decreases s.len() - i,
    {
        r.push(s[i] as u32);
        i = i + 1;
    }
    assert(values_of(r@) =~= byte_values(s@));
    r
}

/// Compares two byte strings.
pub fn compare_bytes(a: &Vec<u8>, b: &Vec<u8>) -> (r: Comparison)
    ensures
        r == Comparison::Before <==> lex_less(byte_values(a@), byte_values(b@)),
        r == Comparison::Same <==> byte_values(a@) == byte_values(b@),
        r == Comparison::After <==> lex_less(byte_values(b@), byte_values(a@)),
{
    compare_values(&values_of_bytes(a), &values_of_bytes(b))
}

/// The first place at which two texts differ decides which comes first: the one with the smaller
/// code point there. Where one is the start of the other, it comes first.
pub proof fn lemma_first_difference_decides(a: Seq<char>, b: Seq<char>, k: int)
    requires
        0 <= k < b.len(),
        k <= a.len(),
        forall|j: int| 0 <= j < k ==> #[trigger] a[j] == b[j],
        k == a.len() || (a[k] as int) < (b[k] as int),
    ensures
        id_less(a, b),
        !id_less(b, a),
{
    let x = codes(a);
    let y = codes(b);
    assert forall|j: int| 0 <= j < k implies #[trigger] x[j] == y[j] by {
        assert(a[j] == b[j]);
    }
    assert(lex_less_at(x, y, k));
    lemma_lex_irreflexive(x);
    if lex_less(y, x) {
        lemma_lex_transitive(x, y, x);
    }
}

/// The same of byte strings.
pub proof fn lemma_first_byte_decides(a: Seq<u8>, b: Seq<u8>, k: int)
    requires
        0 <= k < b.len(),
        k <= a.len(),
        forall|j: int| 0 <= j < k ==> #[trigger] a[j] == b[j],
        k == a.len() || a[k] < b[k],
    ensures
        lex_less(byte_values(a), byte_values(b)),
        !lex_less(byte_values(b), byte_values(a)),
        byte_values(a) != byte_values(b),
{
    let x = byte_values(a);
    let y = byte_values(b);
    assert forall|j: int| 0 <= j < k implies #[trigger] x[j] == y[j] by {
        assert(a[j] == b[j]);
    }
    assert(lex_less_at(x, y, k));
    lemma_lex_irreflexive(x);
    if lex_less(y, x) {
        lemma_lex_transitive(x, y, x);
    }
}

} // verus!
