//! Character-level string helpers: suffix tests, substring copies and
//! decimal rendering, all specified over `Seq<char>` views.

use vstd::prelude::*;

verus! {

/// Relies on alloc's `String::push`: appends the given character to the
/// end of the string.
pub assume_specification[ String::push ](s: &mut String, c: char)
    ensures
        final(s)@ == old(s)@.push(c),
;

/// `sfx` is a suffix of `s`.
pub open spec fn has_suffix(s: Seq<char>, sfx: Seq<char>) -> bool {
    sfx.len() <= s.len() && s.subrange(s.len() - sfx.len(), s.len() as int) == sfx
}

/// Whether `s` ends with `sfx`, by characters.
pub fn str_has_suffix(s: &str, sfx: &str) -> (r: bool)
    ensures
        r == has_suffix(s@, sfx@),
{
    let n = s.unicode_len();
    let m = sfx.unicode_len();
    if m > n {
        return false;
    }
    let mut i: usize = 0;
    while i < m
        invariant
            m <= n,
            n == s@.len(),
            m == sfx@.len(),
            i <= m,
            forall|j: int| 0 <= j < i ==> s@[n - m + j] == sfx@[j],
        decreases m - i,
    {
        if s.get_char(n - m + i) != sfx.get_char(i) {
            assert(s@.subrange(n - m, n as int)[i as int] != sfx@[i as int]);
            return false;
        }
        i += 1;
    }
    assert(s@.subrange(n - m, n as int) =~= sfx@);
    true
}

/// Whether the two strings hold the same characters.
pub fn str_eq(a: &str, b: &str) -> (r: bool)
    ensures
        r == (a@ == b@),
{
    let n = a.unicode_len();
    if n != b.unicode_len() {
        return false;
    }
    let mut i: usize = 0;
    while i < n
        invariant
            n == a@.len(),
            n == b@.len(),
            i <= n,
            forall|j: int| 0 <= j < i ==> a@[j] == b@[j],
        decreases n - i,
    {
        if a.get_char(i) != b.get_char(i) {
            return false;
        }
        i += 1;
    }
    assert(a@ =~= b@);
    true
}

/// Whether `pat` occurs in `s` starting at position `from`.
pub fn str_matches_at(s: &str, from: usize, pat: &str) -> (r: bool)
    ensures
        r == (from + pat@.len() <= s@.len() && s@.subrange(
            from as int,
            from + pat@.len(),
        ) == pat@),
{
    let n = s.unicode_len();
    let m = pat.unicode_len();
    if m > n || from > n - m {
        return false;
    }
    let mut i: usize = 0;
    while i < m
        invariant
            n == s@.len(),
            m == pat@.len(),
            from + m <= n,
            i <= m,
            forall|j: int| 0 <= j < i ==> s@[from + j] == pat@[j],
        decreases m - i,
    {
        if s.get_char(from + i) != pat.get_char(i) {
            assert(s@.subrange(from as int, from + pat@.len())[i as int] != pat@[i as int]);
            return false;
        }
        i += 1;
    }
    assert(s@.subrange(from as int, from + pat@.len()) =~= pat@);
    true
}

/// A fresh `String` holding `s@.subrange(from, to)`.
pub fn substring_copy(s: &str, from: usize, to: usize) -> (r: String)
    requires
        from <= to <= s@.len(),
    ensures
        r@ == s@.subrange(from as int, to as int),
{
    s.substring_char(from, to).to_owned()
}

/// The digit character for `d < 10`.
pub open spec fn digit_char(d: nat) -> char {
    if d == 0 {
        '0'
    } else if d == 1 {
        '1'
    } else if d == 2 {
        '2'
    } else if d == 3 {
        '3'
    } else if d == 4 {
        '4'
    } else if d == 5 {
        '5'
    } else if d == 6 {
        '6'
    } else if d == 7 {
        '7'
    } else if d == 8 {
        '8'
    } else {
        '9'
    }
}

/// The numeric value of a digit character, for reading `dec_str` back.
pub open spec fn digit_val(c: char) -> nat {
    if c == '0' {
        0
    } else if c == '1' {
        1
    } else if c == '2' {
        2
    } else if c == '3' {
        3
    } else if c == '4' {
        4
    } else if c == '5' {
        5
    } else if c == '6' {
        6
    } else if c == '7' {
        7
    } else if c == '8' {
        8
    } else {
        9
    }
}

/// The usual decimal rendering of `n`, most significant digit first.
pub open spec fn dec_str(n: nat) -> Seq<char>
    decreases n,
{
    if n < 10 {
        seq![digit_char(n)]
    } else {
        dec_str(n / 10).push(digit_char(n % 10))
    }
}

/// The number a digit sequence denotes.
pub open spec fn dec_val(s: Seq<char>) -> nat
    decreases s.len(),
{
    if s.len() == 0 {
        0
    } else {
        dec_val(s.drop_last()) * 10 + digit_val(s.last())
    }
}

/// Reading a decimal rendering back gives the number itself; in
/// particular `dec_str` is injective.
pub proof fn lemma_dec_val_of_dec_str(n: nat)
    ensures
        dec_val(dec_str(n)) == n,
    decreases n,
{
    if n < 10 {
        let s = dec_str(n);
        assert(s == seq![digit_char(n)]);
        assert(s.len() == 1);
        assert(s.last() == digit_char(n));
        assert(s.drop_last() =~= Seq::<char>::empty());
        assert(dec_val(s.drop_last()) == 0);
        assert(dec_val(s) == digit_val(digit_char(n)));
        assert(digit_val(digit_char(n)) == n);
    } else {
        assert(digit_val(digit_char(n % 10)) == n % 10);
        lemma_dec_val_of_dec_str(n / 10);
        assert(dec_str(n).drop_last() =~= dec_str(n / 10));
        assert(dec_str(n).last() == digit_char(n % 10));
        vstd::arithmetic::div_mod::lemma_fundamental_div_mod(n as int, 10);
    }
}

/// Appends the decimal rendering of `n` to `out`.
pub fn push_decimal(out: &mut String, n: u128)
    ensures
        final(out)@ == old(out)@ + dec_str(n as nat),
    decreases n,
{
    if n >= 10 {
        push_decimal(out, n / 10);
    }
    let d = n % 10;
    let c: char = if d == 0 {
        '0'
    } else if d == 1 {
        '1'
    } else if d == 2 {
        '2'
    } else if d == 3 {
        '3'
    } else if d == 4 {
        '4'
    } else if d == 5 {
        '5'
    } else if d == 6 {
        '6'
    } else if d == 7 {
        '7'
    } else if d == 8 {
        '8'
    } else {
        '9'
    };
    assert(c == digit_char((n % 10) as nat));
    out.push(c);
    if n < 10 {
        assert(old(out)@ + dec_str(n as nat) =~= old(out)@.push(c));
    } else {
        assert(old(out)@ + dec_str(n as nat) =~= (old(out)@ + dec_str((n / 10) as nat)).push(c));
    }
}

} // verus!
