//! Character-sequence utilities: hexadecimal and decimal digits, fixed- and
//! variable-width number rendering, and their exact parsing inverses.

use vstd::prelude::*;
use vstd::arithmetic::power::pow;

verus! {

/// The character for one digit value, lowercase for values above nine.
pub open spec fn digit_char(d: int) -> char {
    if d == 0 { '0' } else if d == 1 { '1' } else if d == 2 { '2' } else if d == 3 { '3' }
    else if d == 4 { '4' } else if d == 5 { '5' } else if d == 6 { '6' } else if d == 7 { '7' }
    else if d == 8 { '8' } else if d == 9 { '9' } else if d == 10 { 'a' } else if d == 11 { 'b' }
    else if d == 12 { 'c' } else if d == 13 { 'd' } else if d == 14 { 'e' } else if d == 15 { 'f' }
    else { '?' }
}

/// The value of one digit character, or -1 if it is no digit.
/// Letter digits are accepted in both cases.
pub open spec fn digit_val(c: char) -> int {
    if c == '0' { 0 } else if c == '1' { 1 } else if c == '2' { 2 } else if c == '3' { 3 }
    else if c == '4' { 4 } else if c == '5' { 5 } else if c == '6' { 6 } else if c == '7' { 7 }
    else if c == '8' { 8 } else if c == '9' { 9 }
    else if c == 'a' || c == 'A' { 10 } else if c == 'b' || c == 'B' { 11 }
    else if c == 'c' || c == 'C' { 12 } else if c == 'd' || c == 'D' { 13 }
    else if c == 'e' || c == 'E' { 14 } else if c == 'f' || c == 'F' { 15 }
    else { -1 }
}

/// All characters of `s` are digits of the given base.
pub open spec fn all_digits(s: Seq<char>, base: int) -> bool {
    forall|i: int| 0 <= i < s.len() ==> 0 <= #[trigger] digit_val(s[i]) < base
}

/// The number a digit string denotes, most significant digit first.
pub open spec fn digits_val(s: Seq<char>, base: int) -> int
    decreases s.len(),
{
    if s.len() == 0 {
        0
    } else {
        digits_val(s.drop_last(), base) * base + digit_val(s.last())
    }
}

/// `v` rendered as exactly `digits` digits of the given base.
pub open spec fn num_seq(v: int, digits: int, base: int) -> Seq<char>
    decreases digits,
{
    if digits <= 0 {
        Seq::empty()
    } else {
        num_seq(v / base, digits - 1, base).push(digit_char(v % base))
    }
}

/// A `u32` as eight hexadecimal digits.
pub open spec fn hex8(v: u32) -> Seq<char> {
    num_seq(v as int, 8, 16)
}

/// A nonnegative number in decimal, without leading zeroes.
pub open spec fn dec_seq(v: int) -> Seq<char>
    decreases v,
{
    if v < 10 {
        seq![digit_char(v)]
    } else {
        dec_seq(v / 10).push(digit_char(v % 10))
    }
}

/// A digit character carries exactly the value it was made from.
proof fn lemma_digit_char_val(d: int)
    requires
        0 <= d < 16,
    ensures
        digit_val(digit_char(d)) == d,
{
}

/// Fixed-width rendering has the stated width, holds only digits, and
/// parses back to the value it was made from.
pub proof fn lemma_num_seq_val(v: int, digits: int, base: int)
    requires
        2 <= base <= 16,
        digits >= 0,
        0 <= v < pow(base as int, digits as nat),
    ensures
        num_seq(v, digits, base).len() == digits,
        all_digits(num_seq(v, digits, base), base),
        digits_val(num_seq(v, digits, base), base) == v,
    decreases digits,
{
    if digits > 0 {
        let q = v / base;
        let r = v % base;
        assert(pow(base as int, digits as nat) == base * pow(base as int, (digits - 1) as nat))
            by {
            reveal(pow);
        }
        assert(0 <= q < pow(base as int, (digits - 1) as nat) && 0 <= r < base && v == q * base
            + r) by (nonlinear_arith)
            requires
                base >= 2,
                0 <= v,
                v < base * pow(base as int, (digits - 1) as nat),
                q == v / base,
                r == v % base,
        ;
        lemma_num_seq_val(q, digits - 1, base);
        lemma_digit_char_val(r);
        let w = num_seq(q, digits - 1, base);
        let s = num_seq(v, digits, base);
        assert(s == w.push(digit_char(r)));
        assert(s.drop_last() =~= w);
        assert(digits_val(s, base) == digits_val(w, base) * base + digit_val(s.last()));
        assert(forall|i: int|
            0 <= i < s.len() ==> 0 <= #[trigger] digit_val(s[i]) < base) by {
            assert(forall|i: int| 0 <= i < w.len() ==> s[i] == w[i]);
            assert(s[s.len() - 1] == digit_char(r));
        }
        assert(s.last() == digit_char(r));
        assert(digits_val(w, base) == q);
        assert(digits_val(s, base) == q * base + r);
    } else {
        assert(pow(base as int, 0) == 1) by {
            reveal(pow);
        }
        assert(v == 0);
    }
}

/// A digit string of at most `digits` digits denotes less than base^digits.
pub proof fn lemma_digits_val_bound(s: Seq<char>, base: int)
    requires
        2 <= base <= 16,
        all_digits(s, base),
    ensures
        0 <= digits_val(s, base) < pow(base as int, s.len()),
    decreases s.len(),
{
    if s.len() == 0 {
        assert(pow(base as int, 0) == 1) by {
            reveal(pow);
        }
    } else {
        let w = s.drop_last();
        assert(all_digits(w, base)) by {
            assert(forall|i: int| 0 <= i < w.len() ==> w[i] == s[i]);
        }
        lemma_digits_val_bound(w, base);
        assert(pow(base as int, s.len()) == base * pow(base as int, w.len())) by {
            reveal(pow);
        }
        assert(0 <= digits_val(w, base) * base + digit_val(s.last()) < base * pow(
            base as int,
            w.len(),
        )) by (nonlinear_arith)
            requires
                base >= 2,
                0 <= digits_val(w, base) < pow(base as int, w.len()),
                0 <= digit_val(s.last()) < base,
        ;
    }
}

/// Variable-width decimal rendering holds only digits, never starts with a
/// zero unless it is "0", and parses back to the value it was made from.
pub proof fn lemma_dec_seq_val(v: int)
    requires
        v >= 0,
    ensures
        dec_seq(v).len() >= 1,
        all_digits(dec_seq(v), 10),
        digits_val(dec_seq(v), 10) == v,
    decreases v,
{
    if v < 10 {
        lemma_digit_char_val(v);
        let s = dec_seq(v);
        assert(s.drop_last() =~= Seq::<char>::empty());
        assert(s.last() == digit_char(v));
        assert(digits_val(s, 10) == digits_val(s.drop_last(), 10) * 10 + digit_val(s.last()));
    } else {
        lemma_dec_seq_val(v / 10);
        lemma_digit_char_val(v % 10);
        vstd::arithmetic::div_mod::lemma_fundamental_div_mod(v, 10);
        let w = dec_seq(v / 10);
        let s = dec_seq(v);
        assert(s == w.push(digit_char(v % 10)));
        assert(s.drop_last() =~= w);
        assert(s.last() == digit_char(v % 10));
        assert(digits_val(s, 10) == digits_val(w, 10) * 10 + digit_val(s.last()));
        assert(digits_val(s, 10) == (v / 10) * 10 + (v % 10));
        assert(forall|i: int|
            0 <= i < s.len() ==> 0 <= #[trigger] digit_val(s[i]) < 10) by {
            assert(forall|i: int| 0 <= i < w.len() ==> s[i] == w[i]);
            assert(s[s.len() - 1] == digit_char(v % 10));
        }
    }
}

/// The decimal rendering of a number below 10^k is at most k digits long.
pub proof fn lemma_dec_seq_len(v: int, k: int)
    requires
        0 <= v < pow(10, k as nat),
        k >= 1,
    ensures
        dec_seq(v).len() <= k,
    decreases k,
{
    if v < 10 {
    } else {
        assert(pow(10, k as nat) == 10 * pow(10, (k - 1) as nat)) by {
            reveal(pow);
        }
        assert(v / 10 < pow(10, (k - 1) as nat) && v / 10 >= 1) by (nonlinear_arith)
            requires
                10 <= v,
                v < 10 * pow(10, (k - 1) as nat),
        ;
        assert(k >= 2) by {
            if k == 1 {
                assert(pow(10, 1nat) == 10 * pow(10, 0nat)) by {
                    reveal(pow);
                }
                assert(pow(10, 0nat) == 1) by {
                    reveal(pow);
                }
            }
        }
        lemma_dec_seq_len(v / 10, k - 1);
    }
}

/// Exact powers used by the parsers, spelled as numbers.
pub proof fn lemma_pow_constants()
    ensures
        pow(16, 8) == 0x1_0000_0000,
        pow(10, 5) == 100000,
{
    reveal_with_fuel(pow, 9);
    assert(pow(16, 8) == 0x1_0000_0000);
    assert(pow(10, 5) == 100000);
}

/// Whether two character vectors hold the same characters.
pub fn chars_eq(a: &Vec<char>, b: &Vec<char>) -> (r: bool)
    ensures
        r == (a@ == b@),
{
    if a.len() != b.len() {
        return false;
    }
    let mut i: usize = 0;
    while i < a.len()
        invariant
            0 <= i <= a.len(),
            a@.len() == b@.len(),
            forall|j: int| 0 <= j < i ==> a@[j] == b@[j],
        decreases a.len() - i,
    {
        if a[i] != b[i] {
            return false;
        }
        i += 1;
    }
    proof {
        assert(a@ =~= b@);
    }
    true
}

/// Append every character of `src` to `out`.
pub fn push_all(out: &mut Vec<char>, src: &Vec<char>)
    ensures
        final(out)@ == old(out)@ + src@,
{
    let mut i: usize = 0;
    while i < src.len()
        invariant
            0 <= i <= src.len(),
            out@ == old(out)@ + src@.subrange(0, i as int),
        decreases src.len() - i,
    {
        out.push(src[i]);
        proof {
            assert(old(out)@ + src@.subrange(0, i as int + 1) =~= (old(out)@ + src@.subrange(
                0,
                i as int,
            )).push(src@[i as int]));
        }
        i += 1;
    }
    proof {
        assert(src@.subrange(0, src@.len() as int) =~= src@);
    }
}

/// The character for one digit value.
pub fn digit_char_of(d: u8) -> (c: char)
    requires
        d < 16,
    ensures
        c == digit_char(d as int),
{
    match d {
        0 => '0',
        1 => '1',
        2 => '2',
        3 => '3',
        4 => '4',
        5 => '5',
        6 => '6',
        7 => '7',
        8 => '8',
        9 => '9',
        10 => 'a',
        11 => 'b',
        12 => 'c',
        13 => 'd',
        14 => 'e',
        _ => 'f',
    }
}

/// The value of one digit character of the given base, if it is one.
pub fn digit_val_of(c: char, base: u32) -> (r: Option<u32>)
    requires
        2 <= base <= 16,
    ensures
        match r {
            Some(v) => digit_val(c) == v as int && 0 <= v < base,
            None => !(0 <= digit_val(c) < base),
        },
{
    let v: u32 = match c {
        '0' => 0,
        '1' => 1,
        '2' => 2,
        '3' => 3,
        '4' => 4,
        '5' => 5,
        '6' => 6,
        '7' => 7,
        '8' => 8,
        '9' => 9,
        'a' | 'A' => 10,
        'b' | 'B' => 11,
        'c' | 'C' => 12,
        'd' | 'D' => 13,
        'e' | 'E' => 14,
        'f' | 'F' => 15,
        _ => 16,
    };
    if v < base {
        Some(v)
    } else {
        None
    }
}

/// Append `v` to `out` as exactly `digits` digits of base 16.
fn push_hex_digits(out: &mut Vec<char>, v: u32, digits: u8)
    ensures
        final(out)@ == old(out)@ + num_seq(v as int, digits as int, 16),
    decreases digits,
{
    if digits == 0 {
        proof {
            assert(old(out)@ + num_seq(v as int, 0, 16) =~= old(out)@);
        }
        return ;
    }
    push_hex_digits(out, v / 16, digits - 1);
    let d = (v % 16) as u8;
    out.push(digit_char_of(d));
}

/// Append a `u32` to `out` as eight hexadecimal digits.
pub fn push_hex8(out: &mut Vec<char>, v: u32)
    ensures
        final(out)@ == old(out)@ + hex8(v),
{
    push_hex_digits(out, v, 8);
}

/// Append a `u16` to `out` in decimal, without leading zeroes.
pub fn push_dec_u16(out: &mut Vec<char>, v: u16)
    ensures
        final(out)@ == old(out)@ + dec_seq(v as int),
    decreases v,
{
    if v < 10 {
        out.push(digit_char_of(v as u8));
    } else {
        push_dec_u16(out, v / 10);
        out.push(digit_char_of((v % 10) as u8));
    }
}

/// Parse `s[lo..hi]` as digits of the given base, most significant first.
/// Returns the value exactly when the range is nonempty, holds only digits
/// of the base, and is no longer than `max_digits`.
pub fn parse_digits(s: &Vec<char>, lo: usize, hi: usize, base: u32, max_digits: usize) -> (r:
    Option<u32>)
    requires
        lo <= hi <= s@.len(),
        2 <= base <= 16,
        max_digits >= 1,
        pow(base as int, max_digits as nat) <= 0x1_0000_0000,
    ensures
        match r {
            Some(v) => {
                &&& all_digits(s@.subrange(lo as int, hi as int), base as int)
                &&& 1 <= hi - lo <= max_digits
                &&& v as int == digits_val(s@.subrange(lo as int, hi as int), base as int)
            },
            None => !{
                &&& all_digits(s@.subrange(lo as int, hi as int), base as int)
                &&& 1 <= hi - lo <= max_digits
            },
        },
{
    if lo == hi || hi - lo > max_digits {
        return None;
    }
    let ghost whole = s@.subrange(lo as int, hi as int);
    proof {
        assert(pow(base as int, 0) == 1) by {
            reveal(pow);
        }
    }
    let mut acc: u32 = 0;
    let mut i: usize = lo;
    while i < hi
        invariant
            lo <= i <= hi <= s@.len(),
            hi - lo <= max_digits,
            2 <= base <= 16,
            pow(base as int, max_digits as nat) <= 0x1_0000_0000,
            whole == s@.subrange(lo as int, hi as int),
            all_digits(s@.subrange(lo as int, i as int), base as int),
            acc as int == digits_val(s@.subrange(lo as int, i as int), base as int),
            (acc as int) < pow(base as int, (i - lo) as nat),
        decreases hi - i,
    {
        let d = match digit_val_of(s[i], base) {
            Some(d) => d,
            None => {
                proof {
                    assert(whole[i - lo] == s@[i as int]);
                }
                return None;
            },
        };
        proof {
            let prefix = s@.subrange(lo as int, i as int);
            let next = s@.subrange(lo as int, i as int + 1);
            assert(next.drop_last() =~= prefix);
            assert(next.last() == s@[i as int]);
            assert(pow(base as int, (i + 1 - lo) as nat) == base * pow(
                base as int,
                (i - lo) as nat,
            )) by {
                reveal(pow);
            }
            vstd::arithmetic::power::lemma_pow_increases(
                base as nat,
                (i + 1 - lo) as nat,
                max_digits as nat,
            );
            assert(acc as int * base + d < base * pow(base as int, (i - lo) as nat))
                by (nonlinear_arith)
                requires
                    0 <= acc as int,
                    (acc as int) < pow(base as int, (i - lo) as nat),
                    0 <= d < base,
                    2 <= base,
            ;
        }
        acc = acc * base + d;
        i += 1;
    }
    proof {
        assert(s@.subrange(lo as int, i as int) == whole);
        assert(forall|j: int|
            0 <= j < whole.len() ==> 0 <= #[trigger] digit_val(whole[j]) < base);
    }
    Some(acc)
}

/// Whitespace as the attribute format understands it.
pub open spec fn is_space_char(c: char) -> bool {
    c == ' ' || c == '\t'
}

/// A word: nonempty and free of whitespace.
pub open spec fn word_ok(w: Seq<char>) -> bool {
    w.len() > 0 && forall|j: int| 0 <= j < w.len() ==> !is_space_char(#[trigger] w[j])
}

/// A sequence free of the character `sep`.
pub open spec fn free_of(w: Seq<char>, sep: char) -> bool {
    forall|j: int| 0 <= j < w.len() ==> #[trigger] w[j] != sep
}

/// The words of `s`: maximal runs of non-whitespace characters, in order.
pub open spec fn split_ws(s: Seq<char>) -> Seq<Seq<char>>
    decreases s.len(),
{
    if s.len() == 0 {
        Seq::empty()
    } else if is_space_char(s.first()) {
        split_ws(s.drop_first())
    } else {
        let rest = split_ws(s.drop_first());
        if s.drop_first().len() == 0 || is_space_char(s.drop_first().first()) {
            seq![seq![s.first()]] + rest
        } else {
            seq![seq![s.first()] + rest.first()] + rest.drop_first()
        }
    }
}

/// The pieces of `s` between occurrences of `sep`; empty pieces are kept,
/// so there is always one piece more than there are separators.
pub open spec fn split_sep(s: Seq<char>, sep: char) -> Seq<Seq<char>>
    decreases s.len(),
{
    if s.len() == 0 {
        seq![Seq::<char>::empty()]
    } else if s.first() == sep {
        seq![Seq::<char>::empty()] + split_sep(s.drop_first(), sep)
    } else {
        let rest = split_sep(s.drop_first(), sep);
        seq![seq![s.first()] + rest.first()] + rest.drop_first()
    }
}

/// The part of `s` before the first `sep` and the part after it, if any.
pub open spec fn split_first(s: Seq<char>, sep: char) -> Option<(Seq<char>, Seq<char>)>
    decreases s.len(),
{
    if s.len() == 0 {
        None
    } else if s.first() == sep {
        Some((Seq::<char>::empty(), s.drop_first()))
    } else {
        match split_first(s.drop_first(), sep) {
            None => None,
            Some((k, v)) => Some((seq![s.first()] + k, v)),
        }
    }
}

/// `ws` joined with single occurrences of `sep` between elements.
pub open spec fn join_with(ws: Seq<Seq<char>>, sep: char) -> Seq<char>
    decreases ws.len(),
{
    if ws.len() == 0 {
        Seq::empty()
    } else if ws.len() == 1 {
        ws.first()
    } else {
        ws.first() + seq![sep] + join_with(ws.drop_first(), sep)
    }
}

/// A split always yields at least one piece.
pub proof fn lemma_split_sep_nonempty(s: Seq<char>, sep: char)
    ensures
        split_sep(s, sep).len() >= 1,
    decreases s.len(),
{
    if s.len() == 0 {
    } else if s.first() == sep {
        lemma_split_sep_nonempty(s.drop_first(), sep)
    } else {
        lemma_split_sep_nonempty(s.drop_first(), sep)
    }
}

/// Splitting a word followed by a space boundary takes off exactly that word.
proof fn lemma_split_ws_prepend(w: Seq<char>, t: Seq<char>)
    requires
        word_ok(w),
        t.len() == 0 || is_space_char(t.first()),
    ensures
        split_ws(w + t) == seq![w] + split_ws(t),
    decreases w.len(),
{
    let s = w + t;
    assert(!is_space_char(s.first()));
    assert(s.drop_first() =~= w.drop_first() + t);
    if w.len() == 1 {
        assert(s.drop_first() =~= t);
        assert(seq![s.first()] =~= w);
        assert(seq![seq![s.first()]] =~~= seq![w]);
        assert(split_ws(s) == seq![w] + split_ws(t));
    } else {
        assert(word_ok(w.drop_first())) by {
            assert(forall|j: int|
                0 <= j < w.drop_first().len() ==> w.drop_first()[j] == w[j + 1]);
        }
        lemma_split_ws_prepend(w.drop_first(), t);
        let rest = split_ws(s.drop_first());
        assert(rest == seq![w.drop_first()] + split_ws(t));
        assert(s.drop_first().first() == w[1]);
        assert(!is_space_char(s.drop_first().first()));
        assert(rest.first() == w.drop_first());
        assert(rest.drop_first() =~= split_ws(t));
        assert(seq![s.first()] + rest.first() =~= w);
        assert(split_ws(s) =~= seq![w] + split_ws(t));
    }
}

/// Words joined with spaces split back into exactly those words.
pub proof fn lemma_split_join_ws(ws: Seq<Seq<char>>)
    requires
        forall|i: int| 0 <= i < ws.len() ==> word_ok(#[trigger] ws[i]),
    ensures
        split_ws(join_with(ws, ' ')) == ws,
    decreases ws.len(),
{
    if ws.len() == 0 {
        assert(split_ws(join_with(ws, ' ')) =~= ws);
    } else if ws.len() == 1 {
        let w = ws.first();
        assert(join_with(ws, ' ') =~= w + Seq::<char>::empty());
        lemma_split_ws_prepend(w, Seq::<char>::empty());
        assert(split_ws(Seq::<char>::empty()) =~= Seq::<Seq<char>>::empty());
        assert(seq![w] + Seq::<Seq<char>>::empty() =~= ws);
    } else {
        let w = ws.first();
        let t = seq![' '] + join_with(ws.drop_first(), ' ');
        assert(join_with(ws, ' ') =~= w + t);
        assert(is_space_char(t.first()));
        lemma_split_ws_prepend(w, t);
        assert(t.drop_first() =~= join_with(ws.drop_first(), ' '));
        lemma_split_join_ws(ws.drop_first());
        assert(split_ws(t) == split_ws(join_with(ws.drop_first(), ' ')));
        assert(seq![w] + ws.drop_first() =~= ws);
    }
}

/// Splitting a separator-free piece followed by a separator boundary takes
/// off exactly that piece.
pub proof fn lemma_split_sep_prepend(p: Seq<char>, t: Seq<char>, sep: char)
    requires
        free_of(p, sep),
    ensures
        t.len() == 0 ==> split_sep(p + t, sep) == seq![p],
        t.len() > 0 && t.first() == sep ==> split_sep(p + t, sep) == seq![p] + split_sep(
            t.drop_first(),
            sep,
        ),
    decreases p.len(),
{
    let s = p + t;
    if p.len() == 0 {
        assert(s =~= t);
        assert(p =~= Seq::<char>::empty());
        if t.len() == 0 {
            assert(split_sep(s, sep) =~~= seq![p]);
        } else if t.first() == sep {
            assert(seq![Seq::<char>::empty()] =~~= seq![p]);
        }
    } else {
        assert(s.first() == p.first());
        assert(s.first() != sep);
        assert(s.drop_first() =~= p.drop_first() + t);
        assert(free_of(p.drop_first(), sep)) by {
            assert(forall|j: int|
                0 <= j < p.drop_first().len() ==> p.drop_first()[j] == p[j + 1]);
        }
        lemma_split_sep_prepend(p.drop_first(), t, sep);
        let rest = split_sep(s.drop_first(), sep);
        if t.len() == 0 {
            assert(rest == seq![p.drop_first()]);
            assert(rest.first() == p.drop_first());
            assert(seq![s.first()] + rest.first() =~= p);
            assert(rest.drop_first() =~= Seq::<Seq<char>>::empty());
            assert(split_sep(s, sep) =~= seq![p]);
        } else if t.first() == sep {
            assert(rest == seq![p.drop_first()] + split_sep(t.drop_first(), sep));
            assert(rest.first() == p.drop_first());
            assert(seq![s.first()] + rest.first() =~= p);
            assert(rest.drop_first() =~= split_sep(t.drop_first(), sep));
            assert(split_sep(s, sep) =~= seq![p] + split_sep(t.drop_first(), sep));
        }
    }
}

/// Pieces joined with a separator split back into exactly those pieces.
pub proof fn lemma_split_join_sep(ps: Seq<Seq<char>>, sep: char)
    requires
        ps.len() >= 1,
        forall|i: int| 0 <= i < ps.len() ==> free_of(#[trigger] ps[i], sep),
    ensures
        split_sep(join_with(ps, sep), sep) == ps,
    decreases ps.len(),
{
    if ps.len() == 1 {
        let p = ps.first();
        assert(join_with(ps, sep) =~= p + Seq::<char>::empty());
        lemma_split_sep_prepend(p, Seq::<char>::empty(), sep);
        assert(seq![p] =~= ps);
    } else {
        let p = ps.first();
        let t = seq![sep] + join_with(ps.drop_first(), sep);
        assert(join_with(ps, sep) =~= p + t);
        assert(t.first() == sep);
        lemma_split_sep_prepend(p, t, sep);
        assert(t.drop_first() =~= join_with(ps.drop_first(), sep));
        lemma_split_join_sep(ps.drop_first(), sep);
        assert(seq![p] + ps.drop_first() =~= ps);
    }
}

/// Splitting at the first separator undoes gluing a separator-free prefix
/// to anything with that separator.
pub proof fn lemma_split_first_glue(k: Seq<char>, v: Seq<char>, sep: char)
    requires
        free_of(k, sep),
    ensures
        split_first(k + seq![sep] + v, sep) == Some((k, v)),
    decreases k.len(),
{
    let s = k + seq![sep] + v;
    if k.len() == 0 {
        assert(s.first() == sep);
        assert(s.drop_first() =~= v);
        assert(Seq::<char>::empty() =~= k);
    } else {
        assert(s.first() == k.first());
        assert(s.first() != sep);
        assert(s.drop_first() =~= k.drop_first() + seq![sep] + v);
        assert(free_of(k.drop_first(), sep)) by {
            assert(forall|j: int|
                0 <= j < k.drop_first().len() ==> k.drop_first()[j] == k[j + 1]);
        }
        lemma_split_first_glue(k.drop_first(), v, sep);
        assert(seq![s.first()] + k.drop_first() =~= k);
    }
}

/// A sequence without the separator has nothing to split at.
pub proof fn lemma_split_first_absent(s: Seq<char>, sep: char)
    requires
        free_of(s, sep),
    ensures
        split_first(s, sep) is None,
    decreases s.len(),
{
    if s.len() > 0 {
        assert(free_of(s.drop_first(), sep)) by {
            assert(forall|j: int|
                0 <= j < s.drop_first().len() ==> s.drop_first()[j] == s[j + 1]);
        }
        lemma_split_first_absent(s.drop_first(), sep);
    }
}

/// Pushing onto a vector of vectors pushes its view onto the deep view.
proof fn lemma_deep_view_push(r: Vec<Vec<char>>, r0: Vec<Vec<char>>, w: Seq<char>)
    requires
        r@.len() == r0@.len() + 1,
        forall|k: int| 0 <= k < r0@.len() ==> r@[k] == r0@[k],
        r@[r0@.len() as int]@ == w,
    ensures
        r.deep_view() == r0.deep_view().push(w),
{
    assert forall|k: int| 0 <= k < r.deep_view().len() implies r.deep_view()[k]
        == r0.deep_view().push(w)[k] by {
        if k == r0@.len() {
            assert(r@[k].deep_view() =~= w);
        }
    }
    assert(r.deep_view() =~= r0.deep_view().push(w));
}

/// Copy `s[lo..hi]` into a fresh vector.
pub fn subvec(s: &Vec<char>, lo: usize, hi: usize) -> (r: Vec<char>)
    requires
        lo <= hi <= s@.len(),
    ensures
        r@ == s@.subrange(lo as int, hi as int),
{
    let mut r: Vec<char> = Vec::new();
    let mut i: usize = lo;
    while i < hi
        invariant
            lo <= i <= hi <= s@.len(),
            r@ == s@.subrange(lo as int, i as int),
        decreases hi - i,
    {
        r.push(s[i]);
        proof {
            assert(s@.subrange(lo as int, i as int + 1) =~= s@.subrange(lo as int, i as int).push(
                s@[i as int],
            ));
        }
        i += 1;
    }
    r
}

/// The words of `s`, as vectors, in order.
pub fn split_ws_exec(s: &Vec<char>) -> (r: Vec<Vec<char>>)
    ensures
        r.deep_view() == split_ws(s@),
{
    let mut r: Vec<Vec<char>> = Vec::new();
    let mut i: usize = 0;
    proof {
        assert(s@.skip(0) =~= s@);
        assert(r.deep_view() =~= Seq::<Seq<char>>::empty());
        assert(Seq::<Seq<char>>::empty() + split_ws(s@) =~= split_ws(s@));
    }
    while i < s.len()
        invariant
            0 <= i <= s@.len(),
            split_ws(s@) == r.deep_view() + split_ws(s@.skip(i as int)),
        decreases s@.len() - i,
    {
        if is_space_exec(s[i]) {
            proof {
                assert(s@.skip(i as int).drop_first() =~= s@.skip(i as int + 1));
            }
            i += 1;
        } else {
            let mut j: usize = i + 1;
            while j < s.len() && !is_space_exec(s[j])
                invariant
                    i < j <= s@.len(),
                    forall|k: int| i <= k < j ==> !is_space_char(#[trigger] s@[k]),
                    !is_space_char(s@[i as int]),
                decreases s@.len() - j,
            {
                j += 1;
            }
            let w = subvec(s, i, j);
            let ghost r_old = r.deep_view();
            let ghost w_view = w@;
            proof {
                let tail = s@.skip(j as int);
                assert(s@.skip(i as int) =~= w@ + tail);
                assert(word_ok(w@));
                assert(tail.len() == 0 || is_space_char(tail.first()));
                lemma_split_ws_prepend(w@, tail);
            }
            let ghost r_before = r;
            r.push(w);
            proof {
                let tail = s@.skip(j as int);
                lemma_deep_view_push(r, r_before, w_view);
                assert(r.deep_view() =~= r_old.push(w_view));
                assert(r_old.push(w_view) =~= r_old + seq![w_view]);
                assert(r_old + split_ws(s@.skip(i as int)) =~= (r_old + seq![w_view])
                    + split_ws(tail));
            }
            i = j;
        }
    }
    proof {
        assert(s@.skip(s@.len() as int) =~= Seq::<char>::empty());
        assert(r.deep_view() + split_ws(Seq::<char>::empty()) =~= r.deep_view());
    }
    r
}

/// Whether a character counts as whitespace.
pub fn is_space_exec(c: char) -> (r: bool)
    ensures
        r == is_space_char(c),
{
    c == ' ' || c == '\t'
}

/// The pieces of `s` between occurrences of `sep`, as vectors.
pub fn split_sep_exec(s: &Vec<char>, sep: char) -> (r: Vec<Vec<char>>)
    ensures
        r.deep_view() == split_sep(s@, sep),
        r@.len() >= 1,
{
    let mut r: Vec<Vec<char>> = Vec::new();
    let mut cur: Vec<char> = Vec::new();
    let mut i: usize = 0;
    proof {
        lemma_split_sep_nonempty(s@, sep);
        let x = split_sep(s@, sep);
        assert(s@.skip(0) =~= s@);
        assert(prepend_piece(cur@, x) =~= x) by {
            assert(cur@ + x.first() =~= x.first());
            assert(seq![x.first()] + x.drop_first() =~= x);
        }
        assert(r.deep_view() =~= Seq::<Seq<char>>::empty());
    }
    while i < s.len()
        invariant
            0 <= i <= s@.len(),
            split_sep(s@, sep) == r.deep_view() + prepend_piece(
                cur@,
                split_sep(s@.skip(i as int), sep),
            ),
        decreases s@.len() - i,
    {
        let ghost tail = s@.skip(i as int);
        proof {
            assert(tail.first() == s@[i as int]);
            assert(tail.drop_first() =~= s@.skip(i as int + 1));
            lemma_split_sep_nonempty(s@.skip(i as int + 1), sep);
        }
        if s[i] == sep {
            let ghost r_old = r.deep_view();
            let ghost cur_old = cur@;
            let ghost r_before = r;
            r.push(cur);
            cur = Vec::new();
            proof {
                let next = split_sep(s@.skip(i as int + 1), sep);
                assert(prepend_piece(cur_old, split_sep(tail, sep)) =~= seq![cur_old]
                    + prepend_piece(Seq::<char>::empty(), next)) by {
                    assert(split_sep(tail, sep) == seq![Seq::<char>::empty()] + next);
                    assert((seq![Seq::<char>::empty()] + next).first() =~= Seq::<char>::empty());
                    assert((seq![Seq::<char>::empty()] + next).drop_first() =~= next);
                    assert(cur_old + Seq::<char>::empty() =~= cur_old);
                    assert(Seq::<char>::empty() + next.first() =~= next.first());
                }
                lemma_deep_view_push(r, r_before, cur_old);
                assert(r_old.push(cur_old) =~= r_old + seq![cur_old]);
                assert(cur@ =~= Seq::<char>::empty());
            }
            i += 1;
        } else {
            let ghost cur_old = cur@;
            cur.push(s[i]);
            proof {
                let next = split_sep(s@.skip(i as int + 1), sep);
                assert(split_sep(tail, sep) == seq![seq![tail.first()] + next.first()]
                    + next.drop_first());
                assert(prepend_piece(cur_old, split_sep(tail, sep)) =~= prepend_piece(cur@, next))
                    by {
                    assert(split_sep(tail, sep).first() == seq![tail.first()] + next.first());
                    assert(split_sep(tail, sep).drop_first() =~= next.drop_first());
                    assert(cur_old + (seq![tail.first()] + next.first()) =~= cur@ + next.first());
                }
            }
            i += 1;
        }
    }
    let ghost r_old = r.deep_view();
    let ghost cur_old = cur@;
    let ghost r_before = r;
    proof {
        assert(s@.skip(s@.len() as int) =~= Seq::<char>::empty());
        assert(prepend_piece(cur@, split_sep(Seq::<char>::empty(), sep)) =~= seq![cur@]) by {
            assert(split_sep(Seq::<char>::empty(), sep).first() =~= Seq::<char>::empty());
            assert(cur@ + Seq::<char>::empty() =~= cur@);
            assert(split_sep(Seq::<char>::empty(), sep).drop_first() =~= Seq::<
                Seq<char>,
            >::empty());
        }
    }
    r.push(cur);
    proof {
        lemma_deep_view_push(r, r_before, cur_old);
        assert(r_old.push(cur_old) =~= r_old + seq![cur_old]);
    }
    r
}

/// The first piece of a split, extended on the left with `cur`.
pub open spec fn prepend_piece(cur: Seq<char>, pieces: Seq<Seq<char>>) -> Seq<Seq<char>> {
    seq![cur + pieces.first()] + pieces.drop_first()
}

/// The part of `s` before the first `sep` and the part after it, if any.
pub fn split_first_exec(s: &Vec<char>, sep: char) -> (r: Option<(Vec<char>, Vec<char>)>)
    ensures
        match r {
            Some(kv) => split_first(s@, sep) == Some((kv.0@, kv.1@)),
            None => split_first(s@, sep) is None,
        },
{
    let mut i: usize = 0;
    while i < s.len()
        invariant
            0 <= i <= s@.len(),
            forall|k: int| 0 <= k < i ==> s@[k] != sep,
        decreases s@.len() - i,
    {
        if s[i] == sep {
            let k = subvec(s, 0, i);
            let v = subvec(s, i + 1, s.len());
            proof {
                assert(free_of(k@, sep));
                assert(s@ =~= k@ + seq![sep] + v@);
                lemma_split_first_glue(k@, v@, sep);
            }
            return Some((k, v));
        }
        i += 1;
    }
    proof {
        assert(free_of(s@, sep));
        lemma_split_first_absent(s@, sep);
    }
    None
}

} // verus!
