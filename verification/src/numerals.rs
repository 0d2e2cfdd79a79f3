use vstd::prelude::*;

verus! {

/// The canonical decimal numeral of `n`: most significant digit first,
/// digits as ASCII codes, no leading zero (zero itself is the single
/// digit `0`).
pub open spec fn dec_rep(n: nat) -> Seq<u8>
    decreases n,
{
    if n < 10 {
        seq![(n + 48) as u8]
    } else {
        dec_rep(n / 10) + seq![(n % 10 + 48) as u8]
    }
}

/// Whether `b` is the ASCII code of a decimal digit.
pub open spec fn is_digit(b: u8) -> bool {
    48 <= b <= 57
}

/// The number that a digit string denotes, read most significant digit
/// first.
pub open spec fn dec_val(s: Seq<u8>) -> nat
    decreases s.len(),
{
    if s.len() == 0 {
        0
    } else {
        dec_val(s.drop_last()) * 10 + (if is_digit(s.last()) {
            (s.last() - 48) as nat
        } else {
            0
        })
    }
}

/// Whether `s` is a canonical decimal numeral: nonempty, all digits, and
/// no leading zero unless it is the single digit `0`.
pub open spec fn dec_canonical(s: Seq<u8>) -> bool {
    &&& s.len() >= 1
    &&& forall|i: int| 0 <= i < s.len() ==> is_digit(#[trigger] s[i])
    &&& (s.len() > 1 ==> s[0] != 48)
}

/// The numeral of `n` is canonical, denotes `n`, and starts with a
/// nonzero digit whenever `n` is nonzero.
pub proof fn lemma_dec_rep_wf(n: nat)
    ensures
        dec_canonical(dec_rep(n)),
        dec_val(dec_rep(n)) == n,
        n >= 1 ==> dec_rep(n)[0] != 48,
    decreases n,
{
    if n < 10 {
        let s = dec_rep(n);
        assert(s =~= seq![(n + 48) as u8]);
        assert(s.drop_last() =~= Seq::<u8>::empty());
        assert(dec_val(Seq::<u8>::empty()) == 0);
    } else {
        lemma_dec_rep_wf(n / 10);
        let p = dec_rep(n / 10);
        let s = dec_rep(n);
        assert(s =~= p + seq![(n % 10 + 48) as u8]);
        assert(s.drop_last() =~= p);
        assert(s.last() == (n % 10 + 48) as u8);
        assert(dec_val(s) == dec_val(p) * 10 + n % 10);
        assert((n / 10) * 10 + n % 10 == n) by (nonlinear_arith);
        assert(n / 10 >= 1);
        assert(s[0] == p[0]);
    }
}

/// A canonical numeral with a nonzero leading digit denotes a nonzero
/// number.
pub proof fn lemma_dec_canonical_positive(s: Seq<u8>)
    requires
        s.len() >= 1,
        forall|i: int| 0 <= i < s.len() ==> is_digit(#[trigger] s[i]),
        s[0] != 48,
    ensures
        dec_val(s) >= 1,
    decreases s.len(),
{
    if s.len() == 1 {
        assert(s.drop_last() =~= Seq::<u8>::empty());
        assert(dec_val(Seq::<u8>::empty()) == 0);
    } else {
        let p = s.drop_last();
        assert(p[0] == s[0]);
        lemma_dec_canonical_positive(p);
    }
}

/// Each canonical numeral is the numeral of the number it denotes:
/// rendering inverts reading.
pub proof fn lemma_dec_rep_of_val(s: Seq<u8>)
    requires
        dec_canonical(s),
    ensures
        dec_rep(dec_val(s)) == s,
    decreases s.len(),
{
    if s.len() == 1 {
        assert(s.drop_last() =~= Seq::<u8>::empty());
        assert(dec_val(Seq::<u8>::empty()) == 0);
        assert(is_digit(s[0]));
        assert(dec_val(s) == (s[0] - 48) as nat);
        assert(dec_rep(dec_val(s)) =~= s);
    } else {
        let p = s.drop_last();
        let d = (s.last() - 48) as nat;
        assert(p[0] == s[0]);
        assert(forall|i: int| 0 <= i < p.len() ==> is_digit(#[trigger] p[i]));
        lemma_dec_canonical_positive(p);
        lemma_dec_rep_of_val(p);
        let v = dec_val(s);
        assert(v == dec_val(p) * 10 + d);
        assert(dec_val(p) >= 1);
        assert(v >= 10) by (nonlinear_arith)
            requires
                v == dec_val(p) * 10 + d,
                dec_val(p) >= 1,
        ;
        assert(v / 10 == dec_val(p) && v % 10 == d) by (nonlinear_arith)
            requires
                v == dec_val(p) * 10 + d,
                d < 10,
        ;
        assert(dec_rep(v) =~= dec_rep(v / 10) + seq![(v % 10 + 48) as u8]);
        assert(dec_rep(v) =~= s);
    }
}

/// Distinct numbers have distinct numerals.
pub proof fn lemma_dec_rep_injective(a: nat, b: nat)
    requires
        dec_rep(a) == dec_rep(b),
    ensures
        a == b,
{
    lemma_dec_rep_wf(a);
    lemma_dec_rep_wf(b);
}

/// Reading a digit string never denotes less than reading any of its
/// prefixes.
pub proof fn lemma_dec_val_take_le(s: Seq<u8>, k: int)
    requires
        0 <= k <= s.len(),
    ensures
        dec_val(s.take(k)) <= dec_val(s),
    decreases s.len(),
{
    if k == s.len() {
        assert(s.take(k) =~= s);
    } else {
        let p = s.drop_last();
        assert(s.take(k) =~= p.take(k));
        lemma_dec_val_take_le(p, k);
    }
}

/// Renders `n` as its canonical decimal numeral.
pub fn render_u64(n: u64) -> (r: Vec<u8>)
    ensures
        r@ == dec_rep(n as nat),
    decreases n,
{
    if n < 10 {
        let mut v: Vec<u8> = Vec::new();
        v.push((n as u8) + 48);
        proof {
            assert(v@ =~= dec_rep(n as nat));
        }
        v
    } else {
        let mut v = render_u64(n / 10);
        v.push((n % 10) as u8 + 48);
        proof {
            assert(v@ =~= dec_rep(n as nat));
        }
        v
    }
}

/// Reads a canonical decimal numeral back into a number.
///
/// Returns `Some(n)` exactly when the input is the numeral of a number
/// `n` that fits in a `u64`; anything else (empty input, a stray
/// character, a leading zero, a number too large) yields `None`.
pub fn parse_u64(s: &[u8]) -> (r: Option<u64>)
    ensures
        r matches Some(n) ==> s@ == dec_rep(n as nat),
        r is None ==> forall|n: u64| s@ != dec_rep(n as nat),
{
    if s.len() == 0 {
        proof {
            assert forall|n: u64| s@ != dec_rep(n as nat) by {
                lemma_dec_rep_wf(n as nat);
            }
        }
        return None;
    }
    if s.len() > 1 && s[0] == 48 {
        proof {
            assert forall|n: u64| s@ != dec_rep(n as nat) by {
                lemma_dec_rep_wf(n as nat);
                if n >= 10 {
                    assert(dec_rep(n as nat)[0] != 48);
                } else {
                    assert(dec_rep(n as nat).len() == 1);
                }
            }
        }
        return None;
    }
    let ghost first_ok: bool = s@.len() == 1 || s@[0] != 48;
    let mut acc: u64 = 0;
    let mut i: usize = 0;
    while i < s.len()
        invariant
            0 <= i <= s@.len(),
            s@.len() >= 1,
            first_ok,
            first_ok == (s@.len() == 1 || s@[0] != 48),
            forall|j: int| 0 <= j < i ==> is_digit(#[trigger] s@[j]),
            acc as nat == dec_val(s@.take(i as int)),
        decreases s@.len() - i,
    {
        let b = s[i];
        if b < 48 || b > 57 {
            proof {
                assert forall|n: u64| s@ != dec_rep(n as nat) by {
                    lemma_dec_rep_wf(n as nat);
                    if s@ == dec_rep(n as nat) {
                        assert(is_digit(s@[i as int]));
                    }
                }
            }
            return None;
        }
        let d = (b - 48) as u64;
        proof {
            assert(s@.take(i + 1).drop_last() =~= s@.take(i as int));
            assert(s@.take(i + 1).last() == s@[i as int]);
            assert(dec_val(s@.take(i + 1)) == dec_val(s@.take(i as int)) * 10 + d);
        }
        if acc > (u64::MAX - d) / 10 {
            proof {
                let q = ((u64::MAX - d) / 10) as nat;
                assert(q * 10 + d <= u64::MAX < (q + 1) * 10 + d) by (nonlinear_arith)
                    requires
                        q == ((u64::MAX - d) as nat) / 10,
                        d <= 9,
                ;
                assert(acc * 10 + d > u64::MAX) by (nonlinear_arith)
                    requires
                        acc as nat >= q + 1,
                        u64::MAX < (q + 1) * 10 + d,
                ;
                assert(dec_val(s@.take(i + 1)) > u64::MAX);
                assert forall|n: u64| s@ != dec_rep(n as nat) by {
                    lemma_dec_rep_wf(n as nat);
                    if s@ == dec_rep(n as nat) {
                        lemma_dec_val_take_le(s@, i + 1);
                        assert(dec_val(s@) == n as nat);
                    }
                }
            }
            return None;
        }
        proof {
            let q = ((u64::MAX - d) / 10) as nat;
            assert(q * 10 <= (u64::MAX - d) as nat) by (nonlinear_arith)
                requires
                    q == ((u64::MAX - d) as nat) / 10,
            ;
            assert(acc * 10 + d <= u64::MAX) by (nonlinear_arith)
                requires
                    acc as nat <= q,
                    q * 10 <= (u64::MAX - d) as nat,
            ;
        }
        acc = acc * 10 + d;
        i = i + 1;
    }
    proof {
        assert(s@.take(i as int) =~= s@);
        assert(dec_canonical(s@));
        lemma_dec_rep_of_val(s@);
    }
    Some(acc)
}

} // verus!
