use vstd::prelude::*;

use crate::numerals::{dec_rep, lemma_dec_rep_injective, lemma_dec_rep_wf, render_u64};

verus! {

/// An opaque document identifier.
///
/// On the wire an identifier is a prefixed string (a store tag followed by
/// the raw id); the layer keeps its bytes and never looks inside.
/// Identifiers are compared for equality; the byte-wise lexicographic
/// order below is used only to break pagination ties, so that the sort
/// order of a result set is total.
pub struct Id {
    bytes: Vec<u8>,
}

impl View for Id {
    type V = Seq<u8>;

    closed spec fn view(&self) -> Seq<u8> {
        self.bytes@
    }
}

impl DeepView for Id {
    type V = Seq<u8>;

    open spec fn deep_view(&self) -> Seq<u8> {
        self.view()
    }
}

/// Copies a byte vector.
pub fn copy_bytes(v: &Vec<u8>) -> (r: Vec<u8>)
    ensures
        r@ == v@,
{
    let mut r: Vec<u8> = Vec::new();
    let mut i: usize = 0;
    while i < v.len()
        invariant
            0 <= i <= v@.len(),
            r@ == v@.take(i as int),
        decreases v@.len() - i,
    {
        r.push(v[i]);
        proof {
            assert(r@ =~= v@.take(i + 1));
        }
        i = i + 1;
    }
    proof {
        assert(v@.take(v@.len() as int) =~= v@);
    }
    r
}

impl Id {
    /// Wraps raw identifier bytes.
    pub fn new(bytes: Vec<u8>) -> (r: Id)
        ensures
            r@ == bytes@,
    {
        Id { bytes }
    }

    /// The raw bytes of the identifier.
    pub fn bytes(&self) -> (r: &Vec<u8>)
        ensures
            r@ == self@,
    {
        &self.bytes
    }

    /// Whether two identifiers are the same.
    pub fn same_as(&self, other: &Id) -> (r: bool)
        ensures
            r == (self@ == other@),
    {
        bytes_eq(&self.bytes, &other.bytes)
    }

    /// Whether this identifier comes strictly before `other` in the
    /// byte-wise lexicographic order.
    pub fn before(&self, other: &Id) -> (r: bool)
        ensures
            r == lex_lt(self@, other@),
    {
        bytes_lex_lt(&self.bytes, &other.bytes)
    }
}

impl Clone for Id {
    fn clone(&self) -> (r: Self)
        ensures
            r@ == self@,
    {
        Id { bytes: copy_bytes(&self.bytes) }
    }
}

/// Whether two byte vectors hold the same bytes.
pub fn bytes_eq(a: &Vec<u8>, b: &Vec<u8>) -> (r: bool)
    ensures
        r == (a@ == b@),
{
    if a.len() != b.len() {
        return false;
    }
    let mut i: usize = 0;
    while i < a.len()
        invariant
            0 <= i <= a@.len(),
            a@.len() == b@.len(),
            forall|j: int| 0 <= j < i ==> a@[j] == b@[j],
        decreases a@.len() - i,
    {
        if a[i] != b[i] {
            return false;
        }
        i = i + 1;
    }
    proof {
        assert(a@ =~= b@);
    }
    true
}

/// Strict lexicographic order on byte strings: the empty string comes
/// first, otherwise the first differing byte decides, and a proper
/// prefix comes before its extensions.
pub open spec fn lex_lt(a: Seq<u8>, b: Seq<u8>) -> bool
    decreases a.len(),
{
    if b.len() == 0 {
        false
    } else if a.len() == 0 {
        true
    } else if a[0] < b[0] {
        true
    } else if a[0] > b[0] {
        false
    } else {
        lex_lt(a.skip(1), b.skip(1))
    }
}

/// Skipping a common prefix does not change the lexicographic comparison.
pub proof fn lemma_lex_lt_skip(a: Seq<u8>, b: Seq<u8>, i: int)
    requires
        0 <= i <= a.len(),
        i <= b.len(),
        forall|j: int| 0 <= j < i ==> a[j] == b[j],
    ensures
        lex_lt(a, b) == lex_lt(a.skip(i), b.skip(i)),
    decreases i,
{
    if i == 0 {
        assert(a.skip(0) =~= a);
        assert(b.skip(0) =~= b);
    } else {
        assert(a.len() >= 1 && b.len() >= 1 && a[0] == b[0]);
        assert(lex_lt(a, b) == lex_lt(a.skip(1), b.skip(1)));
        assert(a.skip(1).skip(i - 1) =~= a.skip(i));
        assert(b.skip(1).skip(i - 1) =~= b.skip(i));
        lemma_lex_lt_skip(a.skip(1), b.skip(1), i - 1);
    }
}

/// The lexicographic order is total: two byte strings are ordered one
/// way, the other way, or equal.
pub proof fn lemma_lex_lt_total(a: Seq<u8>, b: Seq<u8>)
    ensures
        lex_lt(a, b) || lex_lt(b, a) || a == b,
    decreases a.len(),
{
    if a.len() == 0 && b.len() == 0 {
        assert(a =~= b);
    } else if a.len() > 0 && b.len() > 0 && a[0] == b[0] {
        lemma_lex_lt_total(a.skip(1), b.skip(1));
        if a.skip(1) == b.skip(1) {
            assert(a.skip(1).len() == b.skip(1).len());
            assert(a.len() == b.len());
            assert forall|k: int| 0 <= k < a.len() implies a[k] == b[k] by {
                if k >= 1 {
                    assert(a.skip(1)[k - 1] == a[k - 1 + 1]);
                    assert(b.skip(1)[k - 1] == b[k - 1 + 1]);
                }
            }
            assert(a =~= b);
        }
    }
}

/// The lexicographic order is asymmetric.
pub proof fn lemma_lex_lt_asym(a: Seq<u8>, b: Seq<u8>)
    requires
        lex_lt(a, b),
    ensures
        !lex_lt(b, a),
    decreases a.len(),
{
    if a.len() > 0 && b.len() > 0 && a[0] == b[0] {
        lemma_lex_lt_asym(a.skip(1), b.skip(1));
    }
}

/// The lexicographic order is transitive.
pub proof fn lemma_lex_lt_trans(a: Seq<u8>, b: Seq<u8>, c: Seq<u8>)
    requires
        lex_lt(a, b),
        lex_lt(b, c),
    ensures
        lex_lt(a, c),
    decreases a.len() + b.len() + c.len(),
{
    if b.len() > 0 && c.len() > 0 && a.len() > 0 {
        if a[0] == b[0] && b[0] == c[0] {
            lemma_lex_lt_trans(a.skip(1), b.skip(1), c.skip(1));
        }
    }
}

/// Compares two byte vectors in the lexicographic order.
pub fn bytes_lex_lt(a: &Vec<u8>, b: &Vec<u8>) -> (r: bool)
    ensures
        r == lex_lt(a@, b@),
{
    let shorter: usize = if a.len() < b.len() {
        a.len()
    } else {
        b.len()
    };
    let mut i: usize = 0;
    while i < shorter
        invariant
            0 <= i <= shorter,
            shorter <= a@.len(),
            shorter <= b@.len(),
            shorter == if a@.len() < b@.len() {
                a@.len()
            } else {
                b@.len()
            },
            forall|j: int| 0 <= j < i ==> a@[j] == b@[j],
        decreases shorter - i,
    {
        let x = a[i];
        let y = b[i];
        if x < y {
            proof {
                lemma_lex_lt_skip(a@, b@, i as int);
            }
            return true;
        }
        if x > y {
            proof {
                lemma_lex_lt_skip(a@, b@, i as int);
            }
            return false;
        }
        i = i + 1;
    }
    proof {
        lemma_lex_lt_skip(a@, b@, shorter as int);
        if a@.len() < b@.len() {
            assert(a@.skip(shorter as int) =~= Seq::<u8>::empty());
            assert(b@.skip(shorter as int).len() > 0);
        } else {
            assert(b@.skip(shorter as int) =~= Seq::<u8>::empty());
        }
    }
    a.len() < b.len()
}

/// The byte string of a generated identifier: a tag byte, `pad` zero
/// digits, then the decimal numeral of `j`.
///
/// The padding makes a generated identifier strictly longer than `pad`
/// bytes, so choosing `pad` as the longest length among the identifiers
/// already present makes every generated identifier fresh; the numeral
/// suffix keeps identifiers generated with the same padding distinct.
pub open spec fn gen_id_rep(pad: nat, j: nat) -> Seq<u8> {
    seq![118u8] + Seq::<u8>::new(pad, |i: int| 48u8) + dec_rep(j)
}

/// A generated identifier is longer than its padding.
pub proof fn lemma_gen_id_len(pad: nat, j: nat)
    ensures
        gen_id_rep(pad, j).len() > pad + 1,
{
    lemma_dec_rep_wf(j);
}

/// Identifiers generated with the same padding from distinct numbers are
/// distinct.
pub proof fn lemma_gen_id_injective(pad: nat, a: nat, b: nat)
    requires
        gen_id_rep(pad, a) == gen_id_rep(pad, b),
    ensures
        a == b,
{
    let p = pad as int;
    assert(gen_id_rep(pad, a).skip(p + 1) =~= dec_rep(a));
    assert(gen_id_rep(pad, b).skip(p + 1) =~= dec_rep(b));
    lemma_dec_rep_injective(a, b);
}

/// Builds the generated identifier with padding `pad` and number `j`.
pub fn gen_id(pad: usize, j: u64) -> (r: Id)
    ensures
        r@ == gen_id_rep(pad as nat, j as nat),
        r@.len() > pad,
{
    let mut v: Vec<u8> = Vec::new();
    v.push(118);
    let mut i: usize = 0;
    while i < pad
        invariant
            0 <= i <= pad,
            v@ =~= seq![118u8] + Seq::<u8>::new(i as nat, |k: int| 48u8),
        decreases pad - i,
    {
        v.push(48);
        proof {
            assert(v@ =~= seq![118u8] + Seq::<u8>::new((i + 1) as nat, |k: int| 48u8));
        }
        i = i + 1;
    }
    let mut digits = render_u64(j);
    v.append(&mut digits);
    proof {
        assert(v@ =~= gen_id_rep(pad as nat, j as nat));
        lemma_gen_id_len(pad as nat, j as nat);
    }
    Id::new(v)
}

} // verus!
