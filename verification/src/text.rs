//! Verified text utilities: string-slice equality and decimal rendering of
//! integers, used to compare OSM tags and to build edge identifiers.

use vstd::prelude::*;
use vstd::string::StringExecFns;
use vstd::string::StringSliceAdditionalSpecFns;

verus! {

/// Equality of two string slices, decided on their UTF-8 bytes and proved
/// equivalent to equality of their character-sequence views.
pub fn str_eq(a: &str, b: &str) -> (r: bool)
    ensures
        r == (a@ == b@),
{
    let ab = a.as_bytes();
    let bb = b.as_bytes();
    if ab.len() != bb.len() {
        proof {
            if a@ == b@ {
                assert(a.spec_bytes() == b.spec_bytes());
            }
        }
        return false;
    }
    let n = ab.len();
    let mut i: usize = 0;
    while i < n
        invariant
            i <= n,
            n == ab@.len(),
            n == bb@.len(),
            ab@ == a.spec_bytes(),
            bb@ == b.spec_bytes(),
            forall|j: int| 0 <= j < i ==> ab@[j] == bb@[j],
        decreases n - i,
    {
        if ab[i] != bb[i] {
            proof {
                if a@ == b@ {
                    assert(a.spec_bytes() == b.spec_bytes());
                }
            }
            return false;
        }
        i = i + 1;
    }
    proof {
        assert(a.spec_bytes() =~= b.spec_bytes());
        vstd::utf8::encode_utf8_decode_utf8(a@);
        vstd::utf8::encode_utf8_decode_utf8(b@);
    }
    true
}

/// The character for one decimal digit.
pub open spec fn dec_digit(d: int) -> char
    recommends
        0 <= d < 10,
{
    if d == 0 {
        '0'
    } else if d == 1 {
        '1'
    } else if d == 2 {
        '2'
    } else if d == 3 {
        '3'
    } else if d == 4 {
        '4'
    } else if d == 5 {
        '5'
    } else if d == 6 {
        '6'
    } else if d == 7 {
        '7'
    } else if d == 8 {
        '8'
    } else {
        '9'
    }
}

/// The decimal rendering of a natural number, most significant digit first.
pub open spec fn dec_nat(n: nat) -> Seq<char>
    decreases n,
{
    if n < 10 {
        seq![dec_digit(n as int)]
    } else {
        dec_nat(n / 10) + seq![dec_digit((n % 10) as int)]
    }
}

/// The decimal rendering of an integer: a leading minus sign for negative
/// values, digits otherwise.
pub open spec fn dec_int(n: int) -> Seq<char> {
    if n < 0 {
        seq!['-'] + dec_nat((-n) as nat)
    } else {
        dec_nat(n as nat)
    }
}

fn dec_digit_str(d: u64) -> (r: &'static str)
    requires
        d < 10,
    ensures
        r@ =~= seq![dec_digit(d as int)],
{
    proof {
        reveal_strlit("0");
        reveal_strlit("1");
        reveal_strlit("2");
        reveal_strlit("3");
        reveal_strlit("4");
        reveal_strlit("5");
        reveal_strlit("6");
        reveal_strlit("7");
        reveal_strlit("8");
        reveal_strlit("9");
    }
    if d == 0 {
        "0"
    } else if d == 1 {
        "1"
    } else if d == 2 {
        "2"
    } else if d == 3 {
        "3"
    } else if d == 4 {
        "4"
    } else if d == 5 {
        "5"
    } else if d == 6 {
        "6"
    } else if d == 7 {
        "7"
    } else if d == 8 {
        "8"
    } else {
        "9"
    }
}

/// The decimal rendering of a `u64`, as an owned string.
pub fn u64_dec(n: u64) -> (r: String)
    ensures
        r@ == dec_nat(n as nat),
    decreases n,
{
    if n < 10 {
        dec_digit_str(n).to_owned()
    } else {
        let mut s = u64_dec(n / 10);
        s.append(dec_digit_str(n % 10));
        s
    }
}

/// The decimal rendering of an `i64`, as an owned string.
pub fn i64_dec(n: i64) -> (r: String)
    ensures
        r@ == dec_int(n as int),
{
    if n >= 0 {
        u64_dec(n as u64)
    } else {
        let mag: u64 = (-(n as i128)) as u64;
        proof {
            reveal_strlit("-");
        }
        let mut s = String::from_str("-");
        let digits = u64_dec(mag);
        s.append(digits.as_str());
        assert(s@ =~= dec_int(n as int));
        s
    }
}

/// The identifier of the `index`-th edge split out of way `way_id`.
#[verifier::opaque]
pub open spec fn edge_id_seq(way_id: int, index: int) -> Seq<char>
    recommends
        index >= 0,
{
    dec_int(way_id) + seq!['-'] + dec_nat(index as nat)
}

/// Builds the identifier of the `index`-th edge split out of way `way_id`.
pub fn edge_id_string(way_id: i64, index: usize) -> (r: String)
    ensures
        r@ == edge_id_seq(way_id as int, index as int),
{
    let mut s = i64_dec(way_id);
    proof {
        reveal(edge_id_seq);
        reveal_strlit("-");
    }
    s.append("-");
    let digits = u64_dec(index as u64);
    s.append(digits.as_str());
    assert(s@ =~= edge_id_seq(way_id as int, index as int));
    s
}

/// Every character of a rendered natural number is a digit; in particular
/// none is the minus sign.
proof fn lemma_dec_nat_no_minus(n: nat)
    ensures
        forall|i: int| 0 <= i < dec_nat(n).len() ==> dec_nat(n)[i] != '-',
    decreases n,
{
    if n < 10 {
        assert(dec_nat(n) =~= seq![dec_digit(n as int)]);
        assert(dec_nat(n)[0] != '-');
    } else {
        lemma_dec_nat_no_minus(n / 10);
        let prefix = dec_nat(n / 10);
        let d = dec_digit((n % 10) as int);
        assert(dec_nat(n) =~= prefix + seq![d]);
        assert(forall|i: int|
            0 <= i < dec_nat(n).len() ==> dec_nat(n)[i] == (if i < prefix.len() {
                prefix[i]
            } else {
                d
            }));
        assert(d != '-');
    }
}

/// The rendering of a natural number below ten is one character long, and of
/// any larger number strictly longer.
proof fn lemma_dec_nat_len(n: nat)
    ensures
        dec_nat(n).len() >= 1,
        n >= 10 ==> dec_nat(n).len() >= 2,
    decreases n,
{
    if n >= 10 {
        lemma_dec_nat_len(n / 10);
    }
}

/// Decimal rendering of natural numbers is injective.
proof fn lemma_dec_nat_injective(a: nat, b: nat)
    requires
        dec_nat(a) == dec_nat(b),
    ensures
        a == b,
    decreases a,
{
    lemma_dec_nat_len(a);
    lemma_dec_nat_len(b);
    if a < 10 && b < 10 {
        assert(dec_nat(a)[0] == dec_nat(b)[0]);
        assert(dec_nat(a)[0] == dec_digit(a as int));
        assert(dec_nat(b)[0] == dec_digit(b as int));
        assert(a == b);
    } else if a < 10 {
        assert(dec_nat(a).len() == 1);
        assert(dec_nat(b).len() >= 2);
    } else if b < 10 {
        assert(dec_nat(a).len() >= 2);
        assert(dec_nat(b).len() == 1);
    } else {
        let la = dec_nat(a).len() as int;
        assert(dec_nat(a) == dec_nat(a / 10) + seq![dec_digit((a % 10) as int)]);
        assert(dec_nat(b) == dec_nat(b / 10) + seq![dec_digit((b % 10) as int)]);
        assert(dec_nat(a)[la - 1] == dec_digit((a % 10) as int));
        assert(dec_nat(b)[la - 1] == dec_digit((b % 10) as int));
        assert(a % 10 == b % 10);
        assert(dec_nat(a / 10) =~= dec_nat(a).subrange(0, la - 1));
        assert(dec_nat(b / 10) =~= dec_nat(b).subrange(0, la - 1));
        lemma_dec_nat_injective(a / 10, b / 10);
        vstd::arithmetic::div_mod::lemma_fundamental_div_mod(a as int, 10);
        vstd::arithmetic::div_mod::lemma_fundamental_div_mod(b as int, 10);
    }
}

/// Only the first character of a rendered integer can be the minus sign.
proof fn lemma_dec_int_no_minus_tail(n: int)
    ensures
        dec_int(n).len() >= 1,
        forall|i: int| 1 <= i < dec_int(n).len() ==> dec_int(n)[i] != '-',
        dec_int(n)[0] == '-' <==> n < 0,
    decreases (if n < 0 { -n } else { n }),
{
    if n < 0 {
        lemma_dec_nat_no_minus((-n) as nat);
        lemma_dec_nat_len((-n) as nat);
    } else {
        lemma_dec_nat_no_minus(n as nat);
        lemma_dec_nat_len(n as nat);
    }
}

/// Decimal rendering of integers is injective.
proof fn lemma_dec_int_injective(a: int, b: int)
    requires
        dec_int(a) == dec_int(b),
    ensures
        a == b,
{
    lemma_dec_int_no_minus_tail(a);
    lemma_dec_int_no_minus_tail(b);
    if a < 0 && b < 0 {
        let la = dec_int(a).len() as int;
        assert(dec_nat((-a) as nat) =~= dec_int(a).subrange(1, la));
        assert(dec_nat((-b) as nat) =~= dec_int(b).subrange(1, la));
        lemma_dec_nat_injective((-a) as nat, (-b) as nat);
    } else if a >= 0 && b >= 0 {
        lemma_dec_nat_injective(a as nat, b as nat);
    }
}

/// Edge identifiers are injective in the pair of way identifier and split
/// index: two identifiers agree only if both components agree.
pub proof fn lemma_edge_id_injective(w1: int, k1: int, w2: int, k2: int)
    requires
        k1 >= 0,
        k2 >= 0,
        edge_id_seq(w1, k1) == edge_id_seq(w2, k2),
    ensures
        w1 == w2,
        k1 == k2,
{
    reveal(edge_id_seq);
    let a1 = dec_int(w1);
    let a2 = dec_int(w2);
    let b1 = dec_nat(k1 as nat);
    let b2 = dec_nat(k2 as nat);
    let s1 = edge_id_seq(w1, k1);
    let s2 = edge_id_seq(w2, k2);
    lemma_dec_int_no_minus_tail(w1);
    lemma_dec_int_no_minus_tail(w2);
    lemma_dec_nat_no_minus(k1 as nat);
    lemma_dec_nat_no_minus(k2 as nat);
    lemma_dec_nat_len(k1 as nat);
    lemma_dec_nat_len(k2 as nat);
    if a1.len() < a2.len() {
        let p = a1.len() as int;
        assert(s1[p] == '-');
        // In s2, position p lies inside dec_int(w2) past its first character,
        // so it is a digit, never the minus sign.
        assert(s2[p] == a2[p]);
        assert(false);
    } else if a2.len() < a1.len() {
        let p = a2.len() as int;
        assert(s2[p] == '-');
        assert(s1[p] == a1[p]);
        assert(false);
    } else {
        let la = a1.len() as int;
        assert(a1 =~= s1.subrange(0, la));
        assert(a2 =~= s2.subrange(0, la));
        lemma_dec_int_injective(w1, w2);
        assert(b1 =~= s1.subrange(la + 1, s1.len() as int));
        assert(b2 =~= s2.subrange(la + 1, s2.len() as int));
        lemma_dec_nat_injective(k1 as nat, k2 as nat);
    }
}

} // verus!
