//! Character-level helpers shared by the protocol, the configuration parser
//! and the log encoder: canonical decimal text for `u64` values, parsing of
//! decimal text, and whitespace trimming.

use vstd::prelude::*;
use vstd::std_specs::iter::IteratorSpec;

verus! {

broadcast use vstd::string::group_string_axioms;

/// The decimal digit character for `d`, which must be below ten.
pub open spec fn digit_char(d: nat) -> char {
    if d == 0 {
        '0'
    } else if d == 1 {
        '1'
    } else if d == 2 {
        '2'
    } else if d == 3 {
        '3'
    } else if d == 4 {
        '4'
    } else if d == 5 {
        '5'
    } else if d == 6 {
        '6'
    } else if d == 7 {
        '7'
    } else if d == 8 {
        '8'
    } else {
        '9'
    }
}

/// Canonical decimal representation of `n`: most significant digit first,
/// no leading zeros (except for `n == 0` itself).
pub open spec fn dec_rep(n: nat) -> Seq<char>
    decreases n,
{
    if n < 10 {
        seq![digit_char(n)]
    } else {
        dec_rep(n / 10).push(digit_char(n % 10))
    }
}

pub open spec fn is_dec_digit(c: char) -> bool {
    48 <= c as int && c as int <= 57
}

pub open spec fn all_dec_digits(s: Seq<char>) -> bool {
    forall|i: int| 0 <= i < s.len() ==> is_dec_digit(#[trigger] s[i])
}

pub open spec fn digit_val(c: char) -> nat {
    (c as int - 48) as nat
}

/// The numeric value of a sequence of decimal digit characters.
pub open spec fn digits_val(s: Seq<char>) -> nat
    decreases s.len(),
{
    if s.len() == 0 {
        0
    } else {
        digits_val(s.drop_last()) * 10 + digit_val(s.last())
    }
}

/// The value of a single digit character.
proof fn lemma_digits_val_singleton(c: char)
    ensures
        digits_val(seq![c]) == digit_val(c),
{
    let s = seq![c];
    assert(s.drop_last() =~= Seq::<char>::empty());
    assert(digits_val(Seq::<char>::empty()) == 0);
    assert(s.last() == c);
    assert(digits_val(s) == digits_val(s.drop_last()) * 10 + digit_val(s.last()));
}

/// `digit_char` and `digit_val` are inverses on single digits.
proof fn lemma_digit_char_val(d: nat)
    requires
        d < 10,
    ensures
        is_dec_digit(digit_char(d)),
        digit_val(digit_char(d)) == d,
{
    assert('0' as int == 48);
    assert('9' as int == 57);
}

/// `dec_rep` produces only digits, never a leading zero for a positive
/// number, and its value is the number it came from.
pub proof fn lemma_dec_rep_correct(n: nat)
    ensures
        dec_rep(n).len() >= 1,
        all_dec_digits(dec_rep(n)),
        digits_val(dec_rep(n)) == n,
        n >= 1 ==> dec_rep(n)[0] != '0',
    decreases n,
{
    lemma_digit_char_val(if n < 10 { n } else { n % 10 });
    if n < 10 {
        assert(dec_rep(n) =~= seq![digit_char(n)]);
        lemma_digits_val_singleton(digit_char(n));
    } else {
        lemma_dec_rep_correct(n / 10);
        assert(dec_rep(n) == dec_rep(n / 10).push(digit_char(n % 10)));
        assert(dec_rep(n).drop_last() =~= dec_rep(n / 10));
        assert(dec_rep(n).last() == digit_char(n % 10));
        assert(digits_val(dec_rep(n)) == digits_val(dec_rep(n).drop_last()) * 10 + digit_val(
            dec_rep(n).last(),
        ));
        assert(n == (n / 10) * 10 + n % 10) by (nonlinear_arith);
        assert(dec_rep(n)[0] == dec_rep(n / 10)[0]);
    }
}

/// A positive canonical digit string has a positive value.
pub proof fn lemma_digits_val_pos(s: Seq<char>)
    requires
        s.len() >= 1,
        all_dec_digits(s),
        s[0] != '0',
    ensures
        digits_val(s) >= 1,
    decreases s.len(),
{
    if s.len() == 1 {
        assert(s.last() == s[0]);
        assert(is_dec_digit(s[0]));
        assert(s[0] as int != 48) by {
            if s[0] as int == 48 {
                assert(s[0] == '0');
            }
        }
    } else {
        lemma_digits_val_pos(s.drop_last());
    }
}

/// Canonical digit strings are uniquely decoded: re-encoding the value
/// gives back the same characters.
pub proof fn lemma_digits_canonical(s: Seq<char>)
    requires
        s.len() >= 1,
        all_dec_digits(s),
        s.len() >= 2 ==> s[0] != '0',
    ensures
        dec_rep(digits_val(s)) == s,
    decreases s.len(),
{
    if s.len() == 1 {
        let c = s[0];
        assert(s =~= seq![c]);
        lemma_digits_val_singleton(c);
        assert(digit_val(c) < 10) by {
            assert('0' as int == 48 && '9' as int == 57);
        }
        assert(digit_char(digit_val(c)) == c) by {
            assert('0' as int == 48 && '9' as int == 57);
        }
        assert(dec_rep(digits_val(s)) =~= s);
    } else {
        let t = s.drop_last();
        lemma_digits_canonical(t);
        lemma_digits_val_pos(t);
        let v = digits_val(s);
        assert(v == digits_val(t) * 10 + digit_val(s.last()));
        assert(digit_val(s.last()) < 10) by {
            assert(is_dec_digit(s.last()));
        }
        assert(v >= 10) by (nonlinear_arith)
            requires
                v == digits_val(t) * 10 + digit_val(s.last()),
                digits_val(t) >= 1,
        ;
        assert(v / 10 == digits_val(t) && v % 10 == digit_val(s.last())) by (nonlinear_arith)
            requires
                v == digits_val(t) * 10 + digit_val(s.last()),
                digit_val(s.last()) < 10,
        ;
        assert(digit_char(digit_val(s.last())) == s.last());
        assert(dec_rep(v) == dec_rep(digits_val(t)).push(s.last()));
        assert(t.push(s.last()) =~= s);
    }
}

/// Appending more digits never decreases the value.
pub proof fn lemma_digits_val_extend(s: Seq<char>, t: Seq<char>)
    requires
        s.len() <= t.len(),
        t.take(s.len() as int) == s,
    ensures
        digits_val(s) <= digits_val(t),
    decreases t.len(),
{
    if t.len() > s.len() {
        let u = t.drop_last();
        assert(u.take(s.len() as int) =~= s);
        lemma_digits_val_extend(s, u);
        assert(digits_val(t) == digits_val(u) * 10 + digit_val(t.last()));
        assert(digits_val(u) * 10 >= digits_val(u)) by (nonlinear_arith);
    } else {
        assert(t.take(s.len() as int) =~= t);
    }
}

/// Writes the canonical decimal representation of `n` onto the end of `out`.
pub fn push_dec(out: &mut Vec<char>, n: u64)
    ensures
        final(out)@ == old(out)@ + dec_rep(n as nat),
    decreases n,
{
    if n >= 10 {
        push_dec(out, n / 10);
    }
    let d: u64 = n % 10;
    let c: char = if d == 0 {
        '0'
    } else if d == 1 {
        '1'
    } else if d == 2 {
        '2'
    } else if d == 3 {
        '3'
    } else if d == 4 {
        '4'
    } else if d == 5 {
        '5'
    } else if d == 6 {
        '6'
    } else if d == 7 {
        '7'
    } else if d == 8 {
        '8'
    } else {
        '9'
    };
    assert(c == digit_char((n % 10) as nat));
    out.push(c);
    assert(out@ =~= old(out)@ + dec_rep(n as nat));
}

/// The canonical decimal text of `n`.
pub fn u64_to_chars(n: u64) -> (v: Vec<char>)
    ensures
        v@ == dec_rep(n as nat),
{
    let mut v: Vec<char> = Vec::new();
    push_dec(&mut v, n);
    proof {
        assert(v@ =~= dec_rep(n as nat));
    }
    v
}

/// Decimal text accepted as a `u64`: an optional leading `+`, then at least
/// one digit, with a value that fits.
pub open spec fn u64_digits_of(s: Seq<char>) -> Seq<char> {
    if s.len() > 0 && s[0] == '+' {
        s.drop_first()
    } else {
        s
    }
}

pub open spec fn is_u64_text(s: Seq<char>) -> bool {
    let d = u64_digits_of(s);
    d.len() > 0 && all_dec_digits(d) && digits_val(d) <= u64::MAX
}

pub open spec fn u64_text_val(s: Seq<char>) -> nat {
    digits_val(u64_digits_of(s))
}

/// Parses decimal text as the original configuration and protocol did:
/// an optional leading `+`, then decimal digits; anything else, or a value
/// that does not fit in a `u64`, is rejected.
pub fn parse_u64_chars(v: &Vec<char>) -> (r: Option<u64>)
    ensures
        r == if is_u64_text(v@) {
            Some(u64_text_val(v@) as u64)
        } else {
            None::<u64>
        },
{
    let ghost d = u64_digits_of(v@);
    let start: usize = if v.len() > 0 && v[0] == '+' {
        1
    } else {
        0
    };
    proof {
        assert(d =~= v@.skip(start as int));
    }
    if v.len() == start {
        return None;
    }
    let mut acc: u64 = 0;
    let mut i: usize = start;
    while i < v.len()
        invariant
            start <= i <= v.len(),
            d == u64_digits_of(v@),
            d == v@.skip(start as int),
            d.len() > 0,
            all_dec_digits(d.take(i - start)),
            acc == digits_val(d.take(i - start)),
        decreases v.len() - i,
    {
        let c = v[i];
        if c < '0' || c > '9' {
            assert(!is_dec_digit(d[i - start]));
            return None;
        }
        let dig: u64 = if c == '0' {
            0
        } else if c == '1' {
            1
        } else if c == '2' {
            2
        } else if c == '3' {
            3
        } else if c == '4' {
            4
        } else if c == '5' {
            5
        } else if c == '6' {
            6
        } else if c == '7' {
            7
        } else if c == '8' {
            8
        } else {
            9
        };
        assert(is_dec_digit(c) && digit_val(c) == dig);
        let ghost prefix = d.take(i - start);
        let ghost prefix2 = d.take(i + 1 - start);
        proof {
            assert(prefix2.drop_last() =~= prefix);
            assert(prefix2.last() == c);
            assert(digits_val(prefix2) == acc * 10 + dig);
        }
        if acc > (u64::MAX - dig) / 10 {
            proof {
                assert(acc * 10 + dig > u64::MAX) by (nonlinear_arith)
                    requires
                        acc > (u64::MAX - dig) / 10,
                        dig <= 9,
                ;
                lemma_digits_val_extend(prefix2, d);
                assert(!is_u64_text(v@));
            }
            return None;
        }
        acc = acc * 10 + dig;
        i = i + 1;
    }
    proof {
        assert(d.take(i - start) =~= d);
    }
    Some(acc)
}

/// ASCII whitespace, as it occurs in protocol payloads and configuration
/// text.
pub open spec fn is_space_char(c: char) -> bool {
    c == ' ' || c == '\t' || c == '\n' || c == '\r'
}

pub open spec fn trim_front(s: Seq<char>) -> Seq<char>
    decreases s.len(),
{
    if s.len() > 0 && is_space_char(s[0]) {
        trim_front(s.drop_first())
    } else {
        s
    }
}

pub open spec fn trim_back(s: Seq<char>) -> Seq<char>
    decreases s.len(),
{
    if s.len() > 0 && is_space_char(s.last()) {
        trim_back(s.drop_last())
    } else {
        s
    }
}

/// The characters of `s` with leading and trailing ASCII whitespace removed.
pub open spec fn trim_spec(s: Seq<char>) -> Seq<char> {
    trim_back(trim_front(s))
}

fn is_space(c: char) -> (r: bool)
    ensures
        r == is_space_char(c),
{
    c == ' ' || c == '\t' || c == '\n' || c == '\r'
}

proof fn lemma_trim_front_skip(s: Seq<char>, i: int)
    requires
        0 <= i <= s.len(),
        forall|j: int| 0 <= j < i ==> is_space_char(#[trigger] s[j]),
    ensures
        trim_front(s) == trim_front(s.skip(i)),
    decreases i,
{
    if i > 0 {
        assert(is_space_char(s[0]));
        assert(s.drop_first() =~= s.skip(1));
        lemma_trim_front_skip(s.skip(1), i - 1);
        assert(s.skip(1).skip(i - 1) =~= s.skip(i));
    } else {
        assert(s.skip(0) =~= s);
    }
}

proof fn lemma_trim_back_take(s: Seq<char>, i: int)
    requires
        0 <= i <= s.len(),
        forall|j: int| i <= j < s.len() ==> is_space_char(#[trigger] s[j]),
    ensures
        trim_back(s) == trim_back(s.take(i)),
    decreases s.len() - i,
{
    if i < s.len() {
        assert(is_space_char(s.last()));
        assert(s.drop_last() =~= s.take(s.len() - 1));
        lemma_trim_back_take(s.take(s.len() - 1), i);
        assert(s.take(s.len() - 1).take(i) =~= s.take(i));
    } else {
        assert(s.take(i) =~= s);
    }
}

/// A copy of `v` with leading and trailing ASCII whitespace removed.
pub fn trim_chars(v: &Vec<char>) -> (w: Vec<char>)
    ensures
        w@ == trim_spec(v@),
{
    let mut a: usize = 0;
    while a < v.len() && is_space(v[a])
        invariant
            0 <= a <= v.len(),
            forall|j: int| 0 <= j < a ==> is_space_char(#[trigger] v@[j]),
        decreases v.len() - a,
    {
        a = a + 1;
    }
    proof {
        lemma_trim_front_skip(v@, a as int);
        assert(trim_front(v@) == trim_front(v@.skip(a as int)));
        if a < v@.len() {
            assert(v@.skip(a as int)[0] == v@[a as int]);
            assert(trim_front(v@.skip(a as int)) == v@.skip(a as int));
        } else {
            assert(v@.skip(a as int) =~= Seq::<char>::empty());
        }
    }
    let mut b: usize = v.len();
    while b > a && is_space(v[b - 1])
        invariant
            a <= b <= v.len(),
            forall|j: int| b <= j < v.len() ==> is_space_char(#[trigger] v@[j]),
        decreases b,
    {
        b = b - 1;
    }
    let ghost m = v@.skip(a as int);
    proof {
        assert(forall|j: int| (b - a) <= j < m.len() ==> is_space_char(#[trigger] m[j]));
        lemma_trim_back_take(m, b - a);
        assert(trim_back(m) == trim_back(m.take(b - a)));
        if b > a {
            assert(m.take(b - a).last() == v@[b - 1]);
            assert(trim_back(m.take(b - a)) == m.take(b - a));
        } else {
            assert(m.take(b - a) =~= Seq::<char>::empty());
        }
        assert(trim_spec(v@) == m.take(b - a));
    }
    let mut w: Vec<char> = Vec::new();
    let mut i: usize = a;
    while i < b
        invariant
            a <= i <= b <= v.len(),
            w@ == v@.subrange(a as int, i as int),
        decreases b - i,
    {
        w.push(v[i]);
        assert(w@ =~= v@.subrange(a as int, i + 1 as int));
        i = i + 1;
    }
    proof {
        assert(v@.subrange(a as int, b as int) =~= m.take(b - a));
    }
    w
}

/// The characters of `s`, in order.
pub fn chars_to_vec(s: &str) -> (v: Vec<char>)
    ensures
        v@ == s@,
{
    let mut it = s.chars();
    let mut v: Vec<char> = Vec::new();
    loop
        invariant
            it.obeys_prophetic_iter_laws(),
            it.decrease() is Some,
            v@ + it.remaining() == s@,
        decreases it.decrease()->0,
    {
        match it.next() {
            Some(c) => {
                v.push(c);
                proof {
                    assert(v@ + it.remaining() =~= s@);
                }
            },
            None => {
                proof {
                    assert(v@ =~= s@);
                }
                return v;
            },
        }
    }
}

/// Relies on `String` as `FromIterator<char>`: collecting characters yields
/// the string whose characters are exactly those collected, in order.
#[verifier::external_body]
pub fn string_from_chars(v: &Vec<char>) -> (s: String)
    ensures
        s@ == v@,
{
    v.iter().collect()
}

/// Whether two character vectors hold the same characters.
pub fn chars_eq(a: &Vec<char>, b: &Vec<char>) -> (r: bool)
    ensures
        r == (a@ == b@),
{
    if a.len() != b.len() {
        return false;
    }
    let mut i: usize = 0;
    while i < a.len()
        invariant
            0 <= i <= a.len(),
            a.len() == b.len(),
            forall|j: int| 0 <= j < i ==> a@[j] == b@[j],
        decreases a.len() - i,
    {
        if a[i] != b[i] {
            return false;
        }
        i = i + 1;
    }
    proof {
        assert(a@ =~= b@);
    }
    true
}

/// Whether `v` starts with the characters of `p`.
pub fn starts_with(v: &Vec<char>, p: &Vec<char>) -> (r: bool)
    ensures
        r == (v@.len() >= p@.len() && v@.subrange(0, p@.len() as int) == p@),
{
    if v.len() < p.len() {
        return false;
    }
    let mut i: usize = 0;
    while i < p.len()
        invariant
            0 <= i <= p.len() <= v.len(),
            forall|j: int| 0 <= j < i ==> v@[j] == p@[j],
        decreases p.len() - i,
    {
        if v[i] != p[i] {
            assert(v@.subrange(0, p@.len() as int)[i as int] == v@[i as int]);
            return false;
        }
        i = i + 1;
    }
    proof {
        assert(v@.subrange(0, p@.len() as int) =~= p@);
    }
    true
}

/// A copy of `v[from..to]`.
pub fn subrange_chars(v: &Vec<char>, from: usize, to: usize) -> (w: Vec<char>)
    requires
        from <= to <= v@.len(),
    ensures
        w@ == v@.subrange(from as int, to as int),
{
    let mut w: Vec<char> = Vec::new();
    let mut i: usize = from;
    while i < to
        invariant
            from <= i <= to <= v@.len(),
            w@ == v@.subrange(from as int, i as int),
        decreases to - i,
    {
        w.push(v[i]);
        assert(w@ =~= v@.subrange(from as int, i + 1 as int));
        i = i + 1;
    }
    w
}

} // verus!
