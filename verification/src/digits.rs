//! Canonical decimal text for the unsigned numbers the service stores:
//! report identifiers, listing offsets and creation timestamps.
//!
//! `dec_rep` is the mathematical spelling of a number (no sign, no leading
//! zero); the executable encoder and parser are proved to agree with it in
//! both directions, so a number and its text form can stand for each other
//! in cache keys and persisted rows.

use vstd::prelude::*;
use vstd::string::StrSliceExecFns;
use vstd::string::StringExecFns;

verus! {

/// The character for one decimal digit.
pub open spec fn char_of_digit(d: nat) -> char {
    if d == 0 {
        '0'
    } else if d == 1 {
        '1'
    } else if d == 2 {
        '2'
    } else if d == 3 {
        '3'
    } else if d == 4 {
        '4'
    } else if d == 5 {
        '5'
    } else if d == 6 {
        '6'
    } else if d == 7 {
        '7'
    } else if d == 8 {
        '8'
    } else {
        '9'
    }
}

/// The value of one digit character; ten marks a non-digit.
pub open spec fn digit_of_char(c: char) -> nat {
    if c == '0' {
        0
    } else if c == '1' {
        1
    } else if c == '2' {
        2
    } else if c == '3' {
        3
    } else if c == '4' {
        4
    } else if c == '5' {
        5
    } else if c == '6' {
        6
    } else if c == '7' {
        7
    } else if c == '8' {
        8
    } else if c == '9' {
        9
    } else {
        10
    }
}

pub open spec fn spec_is_digit(c: char) -> bool {
    digit_of_char(c) < 10
}

/// The canonical decimal spelling of a number.
pub open spec fn dec_rep(n: nat) -> Seq<char>
    decreases n,
{
    if n < 10 {
        seq![char_of_digit(n)]
    } else {
        dec_rep(n / 10).push(char_of_digit(n % 10))
    }
}

/// The number a digit string denotes.
pub open spec fn dec_val(s: Seq<char>) -> nat
    decreases s.len(),
{
    if s.len() == 0 {
        0
    } else {
        dec_val(s.drop_last()) * 10 + digit_of_char(s.last())
    }
}

pub open spec fn all_digits(s: Seq<char>) -> bool {
    forall|i: int| 0 <= i < s.len() ==> spec_is_digit(#[trigger] s[i])
}

proof fn lemma_digit_char_roundtrip(d: nat)
    requires
        d < 10,
    ensures
        digit_of_char(char_of_digit(d)) == d,
        spec_is_digit(char_of_digit(d)),
{
}

/// A spelled number reads back as itself, is all digits, and never
/// starts with a superfluous zero.
pub proof fn lemma_dec_rep_canonical(n: nat)
    ensures
        dec_val(dec_rep(n)) == n,
        all_digits(dec_rep(n)),
        dec_rep(n).len() >= 1,
        n > 0 ==> dec_rep(n)[0] != '0',
        n < 10 ==> dec_rep(n).len() == 1,
        n >= 10 ==> dec_rep(n).len() >= 2,
    decreases n,
{
    if n < 10 {
        lemma_digit_char_roundtrip(n);
        assert(dec_rep(n) == seq![char_of_digit(n)]);
        assert(dec_rep(n).drop_last() =~= Seq::<char>::empty());
        assert(dec_val(Seq::<char>::empty()) == 0);
    } else {
        lemma_dec_rep_canonical(n / 10);
        lemma_digit_char_roundtrip(n % 10);
        let s = dec_rep(n);
        assert(s == dec_rep(n / 10).push(char_of_digit(n % 10)));
        assert(s.drop_last() =~= dec_rep(n / 10));
        assert(s.last() == char_of_digit(n % 10));
        assert(dec_val(s) == dec_val(dec_rep(n / 10)) * 10 + (n % 10));
        assert(s[0] == dec_rep(n / 10)[0]);
    }
}

/// A nonempty digit string without a leading zero denotes a positive number.
proof fn lemma_dec_val_pos(s: Seq<char>)
    requires
        all_digits(s),
        s.len() >= 1,
        s[0] != '0',
    ensures
        dec_val(s) >= 1,
    decreases s.len(),
{
    if s.len() == 1 {
        assert(s.last() == s[0]);
        assert(s.drop_last() =~= Seq::<char>::empty());
        assert(dec_val(Seq::<char>::empty()) == 0);
        assert(digit_of_char(s[0]) >= 1);
    } else {
        let t = s.drop_last();
        assert(t[0] == s[0]);
        assert(all_digits(t));
        lemma_dec_val_pos(t);
    }
}

/// Reading a canonical digit string and spelling the value again gives
/// the string back: the decimal form is unique.
pub proof fn lemma_canonical_val_rep(s: Seq<char>)
    requires
        all_digits(s),
        s.len() >= 1,
        s.len() > 1 ==> s[0] != '0',
    ensures
        dec_rep(dec_val(s)) == s,
    decreases s.len(),
{
    if s.len() == 1 {
        let d = digit_of_char(s[0]);
        assert(s.last() == s[0]);
        assert(s.drop_last() =~= Seq::<char>::empty());
        assert(dec_val(Seq::<char>::empty()) == 0);
        assert(dec_val(s) == d);
        assert(d < 10);
        assert(char_of_digit(digit_of_char(s[0])) == s[0]);
        assert(dec_rep(d) =~= s);
    } else {
        let t = s.drop_last();
        let d = digit_of_char(s.last());
        assert(all_digits(t));
        assert(t[0] == s[0]);
        assert(t[0] != '0');
        lemma_canonical_val_rep(t);
        lemma_dec_val_pos(t);
        assert(d < 10);
        assert(dec_val(s) == dec_val(t) * 10 + d);
        assert(dec_val(s) >= 10);
        assert(dec_val(s) / 10 == dec_val(t)) by (nonlinear_arith)
            requires
                d < 10,
                dec_val(s) == dec_val(t) * 10 + d,
        ;
        assert(dec_val(s) % 10 == d) by (nonlinear_arith)
            requires
                d < 10,
                dec_val(s) == dec_val(t) * 10 + d,
        ;
        assert(char_of_digit(digit_of_char(s.last())) == s.last());
        assert(dec_rep(dec_val(s)) == dec_rep(dec_val(t)).push(s.last()));
        assert(t.push(s.last()) =~= s);
    }
}

/// A longer digit prefix never denotes a smaller number.
proof fn lemma_dec_val_prefix_monotone(s: Seq<char>, i: int)
    requires
        0 <= i < s.len(),
    ensures
        dec_val(s.subrange(0, i)) <= dec_val(s.subrange(0, i + 1)),
{
    let p = s.subrange(0, i);
    let q = s.subrange(0, i + 1);
    assert(q.drop_last() =~= p);
    assert(dec_val(q) == dec_val(p) * 10 + digit_of_char(q.last()));
}

proof fn lemma_dec_val_prefix_le(s: Seq<char>, i: int)
    requires
        0 <= i <= s.len(),
    ensures
        dec_val(s.subrange(0, i)) <= dec_val(s),
    decreases s.len() - i,
{
    if i == s.len() {
        assert(s.subrange(0, i) =~= s);
    } else {
        lemma_dec_val_prefix_monotone(s, i);
        lemma_dec_val_prefix_le(s, i + 1);
    }
}

fn digit_string(d: u128) -> (r: String)
    requires
        d < 10,
    ensures
        r@ == seq![char_of_digit(d as nat)],
{
    let r = if d == 0 {
        proof {
            reveal_strlit("0");
        }
        String::from_str("0")
    } else if d == 1 {
        proof {
            reveal_strlit("1");
        }
        String::from_str("1")
    } else if d == 2 {
        proof {
            reveal_strlit("2");
        }
        String::from_str("2")
    } else if d == 3 {
        proof {
            reveal_strlit("3");
        }
        String::from_str("3")
    } else if d == 4 {
        proof {
            reveal_strlit("4");
        }
        String::from_str("4")
    } else if d == 5 {
        proof {
            reveal_strlit("5");
        }
        String::from_str("5")
    } else if d == 6 {
        proof {
            reveal_strlit("6");
        }
        String::from_str("6")
    } else if d == 7 {
        proof {
            reveal_strlit("7");
        }
        String::from_str("7")
    } else if d == 8 {
        proof {
            reveal_strlit("8");
        }
        String::from_str("8")
    } else {
        proof {
            reveal_strlit("9");
        }
        String::from_str("9")
    };
    proof {
        assert(r@ =~= seq![char_of_digit(d as nat)]);
    }
    r
}

/// Spell a number in canonical decimal.
pub fn u128_to_dec(n: u128) -> (r: String)
    ensures
        r@ == dec_rep(n as nat),
    decreases n,
{
    if n < 10 {
        digit_string(n)
    } else {
        let mut s = u128_to_dec(n / 10);
        let tail = digit_string(n % 10);
        s.append(tail.as_str());
        proof {
            assert(s@ =~= dec_rep((n / 10) as nat).push(char_of_digit((n % 10) as nat)));
        }
        s
    }
}

fn digit_value(c: char) -> (r: Option<u128>)
    ensures
        r matches Some(d) ==> d < 10 && d as nat == digit_of_char(c),
        r is None ==> !spec_is_digit(c),
{
    if c == '0' {
        Some(0)
    } else if c == '1' {
        Some(1)
    } else if c == '2' {
        Some(2)
    } else if c == '3' {
        Some(3)
    } else if c == '4' {
        Some(4)
    } else if c == '5' {
        Some(5)
    } else if c == '6' {
        Some(6)
    } else if c == '7' {
        Some(7)
    } else if c == '8' {
        Some(8)
    } else if c == '9' {
        Some(9)
    } else {
        None
    }
}

/// Parse canonical decimal text; exactly the strings `dec_rep` produces
/// are accepted, and each reads back as the number it spells.
pub fn parse_u128_dec(s: &str) -> (r: Option<u128>)
    ensures
        r matches Some(n) ==> s@ == dec_rep(n as nat),
        forall|n: u128| s@ == dec_rep(n as nat) ==> r == Some(n),
{
    let len = s.unicode_len();
    if len == 0 {
        proof {
            assert forall|n: u128| s@ != dec_rep(n as nat) by {
                lemma_dec_rep_canonical(n as nat);
            }
        }
        return None;
    }
    if len > 1 && s.get_char(0) == '0' {
        proof {
            assert forall|n: u128| s@ != dec_rep(n as nat) by {
                lemma_dec_rep_canonical(n as nat);
            }
        }
        return None;
    }
    let mut v: u128 = 0;
    let mut i: usize = 0;
    proof {
        assert(s@.subrange(0, 0) =~= Seq::<char>::empty());
        assert(dec_val(Seq::<char>::empty()) == 0);
    }
    while i < len
        invariant
            0 <= i <= len,
            len == s@.len(),
            len >= 1,
            len > 1 ==> s@[0] != '0',
            v as nat == dec_val(s@.subrange(0, i as int)),
            all_digits(s@.subrange(0, i as int)),
        decreases len - i,
    {
        let ghost prefix = s@.subrange(0, i as int);
        let c = s.get_char(i);
        let d_opt = digit_value(c);
        let d = match d_opt {
            Some(d) => d,
            None => {
                proof {
                    assert forall|n: u128| s@ != dec_rep(n as nat) by {
                        lemma_dec_rep_canonical(n as nat);
                        if s@ == dec_rep(n as nat) {
                            assert(spec_is_digit(s@[i as int]));
                        }
                    }
                }
                return None;
            },
        };
        proof {
            assert(s@.subrange(0, i as int + 1).drop_last() =~= prefix);
            assert(s@.subrange(0, i as int + 1).last() == s@[i as int]);
            assert(dec_val(s@.subrange(0, i as int + 1)) == dec_val(prefix) * 10 + digit_of_char(
                s@[i as int],
            ));
            // if the whole string spells some number, the next accumulator
            // value stays within that number, hence within range
            assert forall|n: u128| s@ == dec_rep(n as nat) implies dec_val(
                s@.subrange(0, i as int + 1),
            ) <= n as nat by {
                lemma_dec_rep_canonical(n as nat);
                lemma_dec_val_prefix_le(s@, i as int + 1);
            }
        }
        let v10 = match v.checked_mul(10) {
            Some(v10) => v10,
            None => {
                return None;
            },
        };
        let vnext = match v10.checked_add(d) {
            Some(vnext) => vnext,
            None => {
                return None;
            },
        };
        v = vnext;
        i = i + 1;
        proof {
            assert(all_digits(s@.subrange(0, i as int)));
        }
    }
    proof {
        assert(s@.subrange(0, len as int) =~= s@);
        assert(v as nat == dec_val(s@));
        lemma_canonical_val_rep(s@);
        assert forall|n: u128| s@ == dec_rep(n as nat) implies Some(v) == Some(n) by {
            lemma_dec_rep_canonical(n as nat);
        }
    }
    Some(v)
}

} // verus!
