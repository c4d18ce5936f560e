use vstd::prelude::*;
use vstd::string::StrSliceExecFns;
use vstd::string::StringExecFns;

verus! {

/// Character-by-character equality of two string slices.
pub fn str_eq(a: &str, b: &str) -> (r: bool)
    ensures
        r == (a@ == b@),
{
    let a_len = a.unicode_len();
    let b_len = b.unicode_len();
    if a_len != b_len {
        return false;
    }
    let mut i: usize = 0;
    while i < a_len
        invariant
            a_len == a@.len(),
            b_len == b@.len(),
            a_len == b_len,
            0 <= i <= a_len,
            forall|j: int| 0 <= j < i ==> a@[j] == b@[j],
        decreases a_len - i,
    {
        if a.get_char(i) != b.get_char(i) {
            return false;
        }
        i = i + 1;
    }
    proof {
        assert(a@ =~= b@);
    }
    true
}

/// Whether `s` begins with `prefix`, compared character by character.
pub fn starts_with_str(s: &str, prefix: &str) -> (r: bool)
    ensures
        r == (s@.len() >= prefix@.len() && s@.subrange(0, prefix@.len() as int) == prefix@),
{
    let s_len = s.unicode_len();
    let p_len = prefix.unicode_len();
    if s_len < p_len {
        return false;
    }
    let mut i: usize = 0;
    while i < p_len
        invariant
            s_len == s@.len(),
            p_len == prefix@.len(),
            p_len <= s_len,
            0 <= i <= p_len,
            forall|j: int| 0 <= j < i ==> s@[j] == prefix@[j],
        decreases p_len - i,
    {
        if s.get_char(i) != prefix.get_char(i) {
            proof {
                assert(s@.subrange(0, p_len as int)[i as int] == s@[i as int]);
            }
            return false;
        }
        i = i + 1;
    }
    proof {
        assert(s@.subrange(0, p_len as int) =~= prefix@);
    }
    true
}

/// The character standing for a single decimal digit.
pub open spec fn digit_char(d: u128) -> char {
    if d == 0 {
        '0'
    } else if d == 1 {
        '1'
    } else if d == 2 {
        '2'
    } else if d == 3 {
        '3'
    } else if d == 4 {
        '4'
    } else if d == 5 {
        '5'
    } else if d == 6 {
        '6'
    } else if d == 7 {
        '7'
    } else if d == 8 {
        '8'
    } else {
        '9'
    }
}

/// The decimal rendering of `n`, with no leading zeros (and `"0"` for zero).
pub open spec fn dec_of(n: u128) -> Seq<char>
    decreases n,
{
    if n < 10 {
        seq![digit_char(n as u128)]
    } else {
        dec_of(n / 10).push(digit_char(n % 10))
    }
}

/// A decimal rendering is never empty.
pub proof fn lemma_dec_of_len(n: u128)
    ensures
        dec_of(n).len() >= 1,
    decreases n,
{
    if n >= 10 {
        lemma_dec_of_len(n / 10);
    }
}

/// Distinct numbers render to distinct decimal strings.
pub proof fn lemma_dec_of_injective(a: u128, b: u128)
    ensures
        a != b ==> dec_of(a) != dec_of(b),
    decreases a + b,
{
    if a != b && dec_of(a) == dec_of(b) {
        lemma_dec_of_len(a);
        lemma_dec_of_len(b);
        if a < 10 && b < 10 {
            assert(dec_of(a) == seq![digit_char(a)]);
            assert(dec_of(b) == seq![digit_char(b)]);
            assert(seq![digit_char(a)][0] == seq![digit_char(b)][0]);
            assert(digit_char(a) == digit_char(b));
            assert(a == b);
        } else if a < 10 {
            assert(dec_of(b).len() >= 2) by {
                lemma_dec_of_len(b / 10);
            }
            assert(dec_of(a).len() == 1);
        } else if b < 10 {
            assert(dec_of(a).len() >= 2) by {
                lemma_dec_of_len(a / 10);
            }
            assert(dec_of(b).len() == 1);
        } else {
            assert(dec_of(a) == dec_of(a / 10).push(digit_char(a % 10)));
            assert(dec_of(b) == dec_of(b / 10).push(digit_char(b % 10)));
            assert(dec_of(a).last() == digit_char(a % 10));
            assert(dec_of(b).last() == digit_char(b % 10));
            assert(a % 10 == b % 10);
            assert(dec_of(a).drop_last() =~= dec_of(a / 10));
            assert(dec_of(b).drop_last() =~= dec_of(b / 10));
            assert(dec_of(a / 10) == dec_of(b / 10));
            lemma_dec_of_injective(a / 10, b / 10);
            assert(a / 10 == b / 10);
            assert(a == (a / 10) * 10 + a % 10) by (nonlinear_arith);
            assert(b == (b / 10) * 10 + b % 10) by (nonlinear_arith);
            assert(a == b);
        }
    }
}

/// Lexicographic order on strings, by character code.
pub open spec fn lex_le(a: Seq<char>, b: Seq<char>) -> bool
    decreases a.len(),
{
    if a.len() == 0 {
        true
    } else if b.len() == 0 {
        false
    } else if (a[0] as u32) < (b[0] as u32) {
        true
    } else if (a[0] as u32) > (b[0] as u32) {
        false
    } else {
        lex_le(a.drop_first(), b.drop_first())
    }
}

/// Any two strings compare one way or the other.
pub proof fn lemma_lex_le_total(a: Seq<char>, b: Seq<char>)
    ensures
        lex_le(a, b) || lex_le(b, a),
    decreases a.len(),
{
    if a.len() > 0 && b.len() > 0 && !((a[0] as u32) < (b[0] as u32)) && !((b[0] as u32) < (
    a[0] as u32)) {
        lemma_lex_le_total(a.drop_first(), b.drop_first());
    }
}

/// The lexicographic order is transitive.
pub proof fn lemma_lex_le_trans(a: Seq<char>, b: Seq<char>, c: Seq<char>)
    requires
        lex_le(a, b),
        lex_le(b, c),
    ensures
        lex_le(a, c),
    decreases a.len(),
{
    if a.len() > 0 {
        assert(b.len() > 0);
        assert(c.len() > 0);
        if (a[0] as u32) == (b[0] as u32) && (b[0] as u32) == (c[0] as u32) {
            lemma_lex_le_trans(a.drop_first(), b.drop_first(), c.drop_first());
        }
    }
}

/// Compares two string slices in lexicographic order by character code.
pub fn lex_le_str(a: &str, b: &str) -> (r: bool)
    ensures
        r == lex_le(a@, b@),
{
    let a_len = a.unicode_len();
    let b_len = b.unicode_len();
    let mut i: usize = 0;
    proof {
        assert(a@.skip(0) =~= a@);
        assert(b@.skip(0) =~= b@);
    }
    while i < a_len && i < b_len
        invariant
            a_len == a@.len(),
            b_len == b@.len(),
            0 <= i <= a_len,
            0 <= i <= b_len,
            lex_le(a@, b@) == lex_le(a@.skip(i as int), b@.skip(i as int)),
        decreases a_len - i,
    {
        let ca = a.get_char(i) as u32;
        let cb = b.get_char(i) as u32;
        proof {
            assert(a@.skip(i as int)[0] == a@[i as int]);
            assert(b@.skip(i as int)[0] == b@[i as int]);
            assert(a@.skip(i as int).drop_first() =~= a@.skip(i as int + 1));
            assert(b@.skip(i as int).drop_first() =~= b@.skip(i as int + 1));
        }
        if ca < cb {
            return true;
        }
        if ca > cb {
            return false;
        }
        i = i + 1;
    }
    proof {
        if i == a_len {
            assert(a@.skip(i as int) =~= Seq::<char>::empty());
        } else {
            assert(b@.skip(i as int) =~= Seq::<char>::empty());
            assert(a@.skip(i as int).len() > 0);
        }
    }
    i >= a_len
}

/// Appending different strings to one prefix gives different strings.
pub proof fn lemma_append_ne(prefix: Seq<char>, s1: Seq<char>, s2: Seq<char>)
    ensures
        s1 != s2 ==> prefix + s1 != prefix + s2,
{
    if s1 != s2 && prefix + s1 == prefix + s2 {
        assert((prefix + s1).len() == (prefix + s2).len());
        assert(s1.len() == s2.len());
        assert forall|k: int| 0 <= k < s1.len() implies s1[k] == s2[k] by {
            assert((prefix + s1)[prefix.len() + k] == s1[k]);
            assert((prefix + s2)[prefix.len() + k] == s2[k]);
        }
        assert(s1 =~= s2);
    }
}

fn digit_str(d: u128) -> (s: &'static str)
    requires
        d < 10,
    ensures
        s@ =~= seq![digit_char(d)],
{
    proof {
        reveal_strlit("0");
        reveal_strlit("1");
        reveal_strlit("2");
        reveal_strlit("3");
        reveal_strlit("4");
        reveal_strlit("5");
        reveal_strlit("6");
        reveal_strlit("7");
        reveal_strlit("8");
        reveal_strlit("9");
    }
    if d == 0 {
        "0"
    } else if d == 1 {
        "1"
    } else if d == 2 {
        "2"
    } else if d == 3 {
        "3"
    } else if d == 4 {
        "4"
    } else if d == 5 {
        "5"
    } else if d == 6 {
        "6"
    } else if d == 7 {
        "7"
    } else if d == 8 {
        "8"
    } else {
        "9"
    }
}

/// Renders `n` in decimal.
pub fn u128_to_dec(n: u128) -> (r: String)
    ensures
        r@ == dec_of(n),
{
    let mut digits: Vec<u128> = Vec::new();
    let mut m: u128 = n;
    digits.push(m % 10);
    m = m / 10;
    while m != 0
        invariant
            forall|j: int| 0 <= j < digits@.len() ==> digits@[j] < 10,
            digits@.len() >= 1,
            if m == 0 {
                dec_of(n) =~= digits@.map_values(|d: u128| digit_char(d)).reverse()
            } else {
                dec_of(n) =~= dec_of(m) + digits@.map_values(|d: u128| digit_char(d)).reverse()
            },
        decreases m,
    {
        proof {
            let old_rev = digits@.map_values(|d: u128| digit_char(d)).reverse();
            let new_rev = digits@.push(m % 10).map_values(|d: u128| digit_char(d)).reverse();
            assert(new_rev =~= seq![digit_char(m % 10)] + old_rev);
            if m < 10 {
                assert(dec_of(m) =~= seq![digit_char(m)]);
            } else {
                assert(dec_of(m) =~= dec_of(m / 10).push(digit_char(m % 10)));
                assert(dec_of(m) + old_rev =~= dec_of(m / 10) + new_rev);
            }
        }
        digits.push(m % 10);
        m = m / 10;
    }
    let mut r = String::new();
    let mut i: usize = digits.len();
    while i > 0
        invariant
            forall|j: int| 0 <= j < digits@.len() ==> digits@[j] < 10,
            0 <= i <= digits@.len(),
            r@ =~= digits@.subrange(i as int, digits@.len() as int).map_values(
                |d: u128| digit_char(d),
            ).reverse(),
            dec_of(n) =~= digits@.map_values(|d: u128| digit_char(d)).reverse(),
        decreases i,
    {
        i = i - 1;
        let ghost prev = r@;
        r.append(digit_str(digits[i]));
        proof {
            assert(r@ =~= digits@.subrange(i as int, digits@.len() as int).map_values(
                |d: u128| digit_char(d),
            ).reverse());
        }
    }
    proof {
        assert(r@ =~= dec_of(n));
    }
    r
}

} // verus!
