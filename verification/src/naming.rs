//! The naming scheme: a bidirectional mapping between a 0-based numeric
//! identifier and a prefixed, 1-based display name, shared by every named
//! entity type through the `FactoryID` trait.

use vstd::prelude::*;
use vstd::string::StrSliceExecFns;
use vstd::string::StringExecFns;
use crate::errors::NetError;

verus! {

/// Whether a character is a decimal digit.
pub open spec fn is_digit(c: char) -> bool {
    c == '0' || c == '1' || c == '2' || c == '3' || c == '4' || c == '5' || c == '6' || c == '7'
        || c == '8' || c == '9'
}

/// The numeric value of a decimal digit character (0 for any other character).
pub open spec fn digit_val(c: char) -> nat {
    if c == '1' {
        1
    } else if c == '2' {
        2
    } else if c == '3' {
        3
    } else if c == '4' {
        4
    } else if c == '5' {
        5
    } else if c == '6' {
        6
    } else if c == '7' {
        7
    } else if c == '8' {
        8
    } else if c == '9' {
        9
    } else {
        0
    }
}

/// The character for a decimal digit value below ten.
pub open spec fn digit_char(d: nat) -> char {
    if d == 1 {
        '1'
    } else if d == 2 {
        '2'
    } else if d == 3 {
        '3'
    } else if d == 4 {
        '4'
    } else if d == 5 {
        '5'
    } else if d == 6 {
        '6'
    } else if d == 7 {
        '7'
    } else if d == 8 {
        '8'
    } else if d == 9 {
        '9'
    } else {
        '0'
    }
}

/// The decimal representation of a number, most significant digit first,
/// without leading zeros (a single '0' for zero).
pub open spec fn dec_rep(n: nat) -> Seq<char>
    decreases n,
{
    if n < 10 {
        seq![digit_char(n)]
    } else {
        dec_rep(n / 10).push(digit_char(n % 10))
    }
}

/// Whether every character of the sequence is a decimal digit.
pub open spec fn all_digits(s: Seq<char>) -> bool {
    forall|i: int| 0 <= i < s.len() ==> is_digit(s[i])
}

/// The number a digit sequence denotes, reading left to right.
pub open spec fn dec_val(s: Seq<char>) -> nat
    decreases s.len(),
{
    if s.len() == 0 {
        0
    } else {
        dec_val(s.drop_last()) * 10 + digit_val(s.last())
    }
}

/// A digit character round-trips through its value.
proof fn lemma_digit_round_trip(d: nat)
    requires
        d < 10,
    ensures
        is_digit(digit_char(d)),
        digit_val(digit_char(d)) == d,
{
}

/// The decimal representation is a non-empty digit string denoting the
/// number it was built from.
pub proof fn lemma_dec_rep_val(n: nat)
    ensures
        dec_rep(n).len() >= 1,
        all_digits(dec_rep(n)),
        dec_val(dec_rep(n)) == n,
    decreases n,
{
    if n < 10 {
        lemma_digit_round_trip(n);
        assert(dec_rep(n) == seq![digit_char(n)]);
        assert(dec_rep(n)[0] == digit_char(n));
        assert(dec_rep(n).last() == digit_char(n));
        assert(dec_rep(n).drop_last() =~= Seq::<char>::empty());
        assert(dec_val(Seq::<char>::empty()) == 0);
        assert(dec_val(dec_rep(n)) == dec_val(dec_rep(n).drop_last()) * 10 + digit_val(
            dec_rep(n).last(),
        ));
    } else {
        lemma_dec_rep_val(n / 10);
        lemma_digit_round_trip(n % 10);
        assert(dec_rep(n).drop_last() =~= dec_rep(n / 10));
        assert(dec_rep(n).last() == digit_char(n % 10));
        assert(dec_val(dec_rep(n)) == (n / 10) * 10 + (n % 10));
        assert((n / 10) * 10 + (n % 10) == n) by {
            vstd::arithmetic::div_mod::lemma_fundamental_div_mod(n as int, 10);
        }
    }
}

/// Extending a sequence on the right can only grow its denoted value.
proof fn lemma_dec_val_prefix(p: Seq<char>, s: Seq<char>)
    requires
        p.is_prefix_of(s),
    ensures
        dec_val(p) <= dec_val(s),
    decreases s.len(),
{
    if s.len() == p.len() {
        assert(p =~= s);
    } else {
        assert(p.is_prefix_of(s.drop_last()));
        lemma_dec_val_prefix(p, s.drop_last());
    }
}

/// The digit value of a character, or `None` if it is not a digit.
fn char_digit(c: char) -> (r: Option<usize>)
    ensures
        r is Some <==> is_digit(c),
        r matches Some(d) ==> d == digit_val(c),
{
    match c {
        '0' => Some(0),
        '1' => Some(1),
        '2' => Some(2),
        '3' => Some(3),
        '4' => Some(4),
        '5' => Some(5),
        '6' => Some(6),
        '7' => Some(7),
        '8' => Some(8),
        '9' => Some(9),
        _ => None,
    }
}

/// The string for one decimal digit value.
fn digit_str(d: usize) -> (r: &'static str)
    requires
        d < 10,
    ensures
        r@ =~= seq![digit_char(d as nat)],
{
    proof {
        reveal_strlit("0");
        reveal_strlit("1");
        reveal_strlit("2");
        reveal_strlit("3");
        reveal_strlit("4");
        reveal_strlit("5");
        reveal_strlit("6");
        reveal_strlit("7");
        reveal_strlit("8");
        reveal_strlit("9");
    }
    match d {
        0 => "0",
        1 => "1",
        2 => "2",
        3 => "3",
        4 => "4",
        5 => "5",
        6 => "6",
        7 => "7",
        8 => "8",
        _ => "9",
    }
}

/// Renders a number in decimal.
pub fn to_dec_string(n: usize) -> (r: String)
    ensures
        r@ == dec_rep(n as nat),
    decreases n,
{
    if n < 10 {
        String::from_str(digit_str(n))
    } else {
        let mut s = to_dec_string(n / 10);
        s.append(digit_str(n % 10));
        proof {
            assert(dec_rep((n / 10) as nat).push(digit_char((n % 10) as nat)) =~= dec_rep(
                (n / 10) as nat,
            ) + seq![digit_char((n % 10) as nat)]);
        }
        s
    }
}

/// Parses the suffix of `s` starting at character `from` as a decimal
/// number. Fails on an empty suffix, a non-digit character, or a value too
/// large for `usize`.
pub fn parse_dec(s: &str, from: usize) -> (r: Option<usize>)
    requires
        from as int <= s@.len(),
    ensures
        r is Some <==> (s@.skip(from as int).len() > 0 && all_digits(s@.skip(from as int))
            && dec_val(s@.skip(from as int)) <= usize::MAX),
        r matches Some(v) ==> v == dec_val(s@.skip(from as int)),
{
    let n = s.unicode_len();
    if from == n {
        return None;
    }
    let ghost suf = s@.skip(from as int);
    let mut i: usize = from;
    let mut acc: usize = 0;
    while i < n
        invariant
            from <= i <= n,
            n == s@.len(),
            suf == s@.skip(from as int),
            all_digits(s@.subrange(from as int, i as int)),
            acc == dec_val(s@.subrange(from as int, i as int)),
        decreases n - i,
    {
        let c = s.get_char(i);
        proof {
            assert(suf[i - from] == s@[i as int]);
        }
        let d: usize = match char_digit(c) {
            Some(d) => d,
            None => {
                return None;
            },
        };
        if acc > (usize::MAX - d) / 10 {
            proof {
                let p = s@.subrange(from as int, i + 1 as int);
                assert(p =~= s@.subrange(from as int, i as int).push(c));
                assert(dec_val(p.drop_last()) == acc) by {
                    assert(p.drop_last() =~= s@.subrange(from as int, i as int));
                }
                assert(dec_val(p) == acc * 10 + digit_val(c));
                assert(acc * 10 + d > usize::MAX);
                assert(p.is_prefix_of(suf)) by {
                    assert(forall|k: int|
                        0 <= k < p.len() ==> p[k] == #[trigger] suf[k]);
                }
                lemma_dec_val_prefix(p, suf);
            }
            return None;
        }
        proof {
            let q = s@.subrange(from as int, (i + 1) as int);
            assert(q =~= s@.subrange(from as int, i as int).push(c));
            assert(q.drop_last() =~= s@.subrange(from as int, i as int));
            assert(q.last() == c);
            assert(dec_val(q) == acc * 10 + digit_val(c));
            assert(acc * 10 + d <= usize::MAX) by {
                vstd::arithmetic::div_mod::lemma_fundamental_div_mod(
                    (usize::MAX - d) as int,
                    10,
                );
            }
        }
        acc = acc * 10 + d;
        i = i + 1;
    }
    proof {
        assert(s@.subrange(from as int, n as int) =~= suf);
    }
    Some(acc)
}

/// The display name for a prefix and a 0-based identifier: the prefix
/// followed by the 1-based number in decimal.
pub open spec fn spec_to_name(prefix: Seq<char>, id: nat) -> Seq<char> {
    prefix + dec_rep(id + 1)
}

/// The identifier a display name denotes, given the prefix length to strip:
/// the remaining characters read as a decimal number, minus one. `None` when
/// the remainder is empty, holds a non-digit, denotes zero, or does not fit.
pub open spec fn spec_from_name(name: Seq<char>, plen: nat) -> Option<nat> {
    if plen <= name.len() {
        let suf = name.skip(plen as int);
        if suf.len() > 0 && all_digits(suf) && 1 <= dec_val(suf) && dec_val(suf) <= usize::MAX {
            Some((dec_val(suf) - 1) as nat)
        } else {
            None
        }
    } else {
        None
    }
}

/// Renders `prefix` followed by the 1-based number for `id`.
pub fn make_name(prefix: &str, id: usize) -> (r: String)
    requires
        id < usize::MAX,
    ensures
        r@ == spec_to_name(prefix@, id as nat),
{
    let digits = to_dec_string(id + 1);
    let mut s = String::from_str(prefix);
    s.append(digits.as_str());
    s
}

/// Strips `prefix`'s length from `name` and parses the remainder as a
/// 1-based number, returning the 0-based identifier.
pub fn parse_name(prefix: &str, name: &str) -> (r: Result<usize, NetError>)
    ensures
        r matches Ok(v) ==> spec_from_name(name@, prefix@.len()) == Some(v as nat),
        r is Err <==> spec_from_name(name@, prefix@.len()) is None,
        r is Err ==> r == Err::<usize, NetError>(NetError::ParseName),
{
    let plen = prefix.unicode_len();
    let n = name.unicode_len();
    if plen > n {
        return Err(NetError::ParseName);
    }
    match parse_dec(name, plen) {
        None => Err(NetError::ParseName),
        Some(0) => Err(NetError::ParseName),
        Some(v) => Ok(v - 1),
    }
}

/// Naming round-trip: for every prefix and every identifier, parsing the
/// rendered display name yields the identifier back.
pub proof fn lemma_name_round_trip(prefix: Seq<char>, id: usize)
    requires
        id < usize::MAX,
    ensures
        spec_from_name(spec_to_name(prefix, id as nat), prefix.len()) == Some(id as nat),
{
    lemma_dec_rep_val((id + 1) as nat);
    assert(spec_to_name(prefix, id as nat).skip(prefix.len() as int) =~= dec_rep(
        (id + 1) as nat,
    ));
}

/// FactoryID gives every named entity type its display naming: a unique
/// string prefix, plus conversions between the 0-based identifier and the
/// 1-based display name derived from that prefix.
pub trait FactoryID {
    /// The characters of the type's prefix.
    spec fn spec_prefix() -> Seq<char>;

    /// The prefix this type has in routing text.
    fn prefix() -> (r: &'static str)
        ensures
            r@ == Self::spec_prefix(),
    ;

    /// Converts a display name to the 0-based identifier.
    fn from_str(name: &str) -> (r: Result<usize, NetError>)
        ensures
            r matches Ok(v) ==> spec_from_name(name@, Self::spec_prefix().len()) == Some(
                v as nat,
            ),
            r is Err <==> spec_from_name(name@, Self::spec_prefix().len()) is None,
            r is Err ==> r == Err::<usize, NetError>(NetError::ParseName),
    {
        parse_name(Self::prefix(), name)
    }

    /// Converts a 0-based identifier to its display name.
    fn from_numeric(id: usize) -> (r: Result<String, NetError>)
        requires
            id < usize::MAX,
        ensures
            r matches Ok(s) && s@ == spec_to_name(Self::spec_prefix(), id as nat),
    {
        Ok(make_name(Self::prefix(), id))
    }
}

} // verus!
