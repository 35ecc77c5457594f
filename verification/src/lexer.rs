//! Byte-level text primitives for the assembler's lexer: comment stripping,
//! whitespace trimming and collapsing, splitting on semicolons, case
//! handling, and decimal operand parsing and printing.

use crate::ascii::{CR, D0, D9, FF, HASH, LF, L_A, L_Z, PERCENT, SEMI, SLASH, SP, TAB, UP_A, UP_Z, VT};
use vstd::prelude::*;

verus! {

/// ASCII whitespace, as the lexer understands it.
pub open spec fn is_space_b(b: u8) -> bool {
    b == SP || b == TAB || b == LF || b == VT || b == FF || b == CR
}

/// Does a comment start at position `i` of `line`? Comments are introduced
/// by `//`, `#` or `%` and run to the end of the line.
pub open spec fn comment_at(line: Seq<u8>, i: int) -> bool {
    line[i] == HASH || line[i] == PERCENT || (line[i] == SLASH && i + 1 < line.len()
        && line[i + 1] == SLASH)
}

/// The position of the first comment marker at or after `i`, or the length
/// of the line when there is none.
pub open spec fn comment_cut_from(line: Seq<u8>, i: int) -> int
    decreases line.len() - i,
{
    if i >= line.len() {
        line.len() as int
    } else if comment_at(line, i) {
        i
    } else {
        comment_cut_from(line, i + 1)
    }
}

/// The line with its comment (if any) removed.
pub open spec fn strip_comment(line: Seq<u8>) -> Seq<u8> {
    line.take(comment_cut_from(line, 0))
}

/// The first non-whitespace position at or after `i`.
pub open spec fn skip_spaces_from(s: Seq<u8>, i: int) -> int
    decreases s.len() - i,
{
    if i >= s.len() || !is_space_b(s[i]) {
        i
    } else {
        skip_spaces_from(s, i + 1)
    }
}

/// The position after the last non-whitespace byte before `j`.
pub open spec fn trim_end_from(s: Seq<u8>, j: int) -> int
    decreases j,
{
    if j <= 0 || !is_space_b(s[j - 1]) {
        j
    } else {
        trim_end_from(s, j - 1)
    }
}

/// The content of `s` with leading and trailing whitespace removed.
pub open spec fn trim(s: Seq<u8>) -> Seq<u8> {
    let a = skip_spaces_from(s, 0);
    if a == s.len() {
        Seq::empty()
    } else {
        s.subrange(a, trim_end_from(s, s.len() as int))
    }
}

/// Copies `s[a..b]` into a fresh vector.
pub fn subvec(s: &[u8], a: usize, b: usize) -> (r: Vec<u8>)
    requires
        a <= b <= s@.len(),
    ensures
        r@ == s@.subrange(a as int, b as int),
{
    let mut r: Vec<u8> = Vec::new();
    let mut i: usize = a;
    while i < b
        invariant
            a <= i <= b <= s@.len(),
            r@ == s@.subrange(a as int, i as int),
        decreases b - i,
    {
        r.push(s[i]);
        proof {
            assert(s@.subrange(a as int, i + 1) =~= s@.subrange(a as int, i as int).push(
                s@[i as int],
            ));
        }
        i = i + 1;
    }
    r
}

/// Copies `s` into a fresh vector.
pub fn copy_bytes(s: &[u8]) -> (r: Vec<u8>)
    ensures
        r@ == s@,
{
    let r = subvec(s, 0, s.len());
    proof {
        assert(s@.subrange(0, s@.len() as int) =~= s@);
    }
    r
}

/// Appends all bytes of `src` to `dst`.
pub fn append_bytes(dst: &mut Vec<u8>, src: &[u8])
    ensures
        final(dst)@ == old(dst)@ + src@,
{
    let n = src.len();
    let mut k: usize = 0;
    proof {
        assert(old(dst)@ + src@.take(0) =~= old(dst)@);
    }
    while k < n
        invariant
            0 <= k <= n == src@.len(),
            dst@ == old(dst)@ + src@.take(k as int),
        decreases n - k,
    {
        dst.push(src[k]);
        proof {
            assert(src@.take(k + 1) =~= src@.take(k as int).push(src@[k as int]));
            assert(old(dst)@ + src@.take(k + 1) =~= (old(dst)@ + src@.take(k as int)).push(
                src@[k as int],
            ));
        }
        k = k + 1;
    }
    proof {
        assert(src@.take(n as int) =~= src@);
    }
}

/// The position where the comment of `line` begins, or its length.
pub fn comment_cut(line: &[u8]) -> (r: usize)
    ensures
        r == comment_cut_from(line@, 0),
        r <= line@.len(),
{
    let n = line.len();
    let mut i: usize = 0;
    while i < n
        invariant
            0 <= i <= n == line@.len(),
            comment_cut_from(line@, 0) == comment_cut_from(line@, i as int),
        decreases n - i,
    {
        let b = line[i];
        if b == HASH || b == PERCENT {
            return i;
        }
        if b == SLASH && i + 1 < n && line[i + 1] == SLASH {
            return i;
        }
        proof {
            assert(!comment_at(line@, i as int));
        }
        i = i + 1;
    }
    i
}

/// Trims ASCII whitespace from both ends of `s`.
pub fn trim_bytes(s: &[u8]) -> (r: Vec<u8>)
    ensures
        r@ == trim(s@),
{
    let n = s.len();
    let mut a: usize = 0;
    while a < n && is_space_exec(s[a])
        invariant
            0 <= a <= n == s@.len(),
            skip_spaces_from(s@, 0) == skip_spaces_from(s@, a as int),
        decreases n - a,
    {
        a = a + 1;
    }
    if a == n {
        return Vec::new();
    }
    let mut b: usize = n;
    while is_space_exec(s[b - 1])
        invariant
            a < n == s@.len(),
            a + 1 <= b <= n,
            !is_space_b(s@[a as int]),
            trim_end_from(s@, n as int) == trim_end_from(s@, b as int),
        decreases b,
    {
        b = b - 1;
    }
    subvec(s, a, b)
}

/// Is `b` ASCII whitespace?
pub fn is_space_exec(b: u8) -> (r: bool)
    ensures
        r == is_space_b(b),
{
    b == SP || b == TAB || b == LF || b == VT || b == FF || b == CR
}

/// The position of the first occurrence of `sep` at or after `i`, or the
/// length of `s` when there is none.
pub open spec fn find_from(s: Seq<u8>, sep: u8, i: int) -> int
    decreases s.len() - i,
{
    if i >= s.len() {
        s.len() as int
    } else if s[i] == sep {
        i
    } else {
        find_from(s, sep, i + 1)
    }
}

/// The position of the first occurrence of `sep` in `s`, or its length.
pub fn find_byte(s: &[u8], sep: u8) -> (r: usize)
    ensures
        r == find_from(s@, sep, 0),
        r <= s@.len(),
{
    let n = s.len();
    let mut i: usize = 0;
    while i < n
        invariant
            0 <= i <= n == s@.len(),
            find_from(s@, sep, 0) == find_from(s@, sep, i as int),
        decreases n - i,
    {
        if s[i] == sep {
            return i;
        }
        i = i + 1;
    }
    i
}

/// The fragments of `s` split on `sep`, scanning from `i` with the bytes
/// already read into the current fragment in `cur`. Splitting a sequence
/// with `n` separators yields `n + 1` fragments.
pub open spec fn split_from(s: Seq<u8>, sep: u8, i: int, cur: Seq<u8>) -> Seq<Seq<u8>>
    decreases s.len() - i,
{
    if i >= s.len() {
        seq![cur]
    } else if s[i] == sep {
        seq![cur] + split_from(s, sep, i + 1, Seq::empty())
    } else {
        split_from(s, sep, i + 1, cur.push(s[i]))
    }
}

/// The fragments of `s` split on the separator byte `sep`.
pub open spec fn split_on(s: Seq<u8>, sep: u8) -> Seq<Seq<u8>> {
    split_from(s, sep, 0, Seq::empty())
}

/// Splits `s` on the byte `sep`.
pub fn split_bytes(s: &[u8], sep: u8) -> (r: Vec<Vec<u8>>)
    ensures
        r@.map_values(|v: Vec<u8>| v@) == split_on(s@, sep),
        r@.len() >= 1,
{
    let n = s.len();
    let mut out: Vec<Vec<u8>> = Vec::new();
    let mut cur: Vec<u8> = Vec::new();
    let mut i: usize = 0;
    while i < n
        invariant
            0 <= i <= n == s@.len(),
            split_on(s@, sep) == out@.map_values(|v: Vec<u8>| v@) + split_from(
                s@,
                sep,
                i as int,
                cur@,
            ),
        decreases n - i,
    {
        if s[i] == sep {
            let ghost prev = out@;
            out.push(cur);
            cur = Vec::new();
            proof {
                assert(out@.map_values(|v: Vec<u8>| v@) =~= prev.map_values(|v: Vec<u8>| v@)
                    + seq![out@[out@.len() - 1]@]);
            }
        } else {
            cur.push(s[i]);
        }
        i = i + 1;
    }
    let ghost prev = out@;
    out.push(cur);
    proof {
        assert(out@.map_values(|v: Vec<u8>| v@) =~= prev.map_values(|v: Vec<u8>| v@) + seq![
            out@[out@.len() - 1]@,
        ]);
        assert(out@.map_values(|v: Vec<u8>| v@) =~= split_on(s@, sep));
    }
    out
}

/// `s` with every run of whitespace replaced by a single space, scanning
/// from position `i`: all but the last byte of a run are dropped, and the
/// last byte of a run becomes a space.
pub open spec fn collapse_from(s: Seq<u8>, i: int) -> Seq<u8>
    decreases s.len() - i,
{
    if i >= s.len() {
        Seq::empty()
    } else if is_space_b(s[i]) {
        if i + 1 < s.len() && is_space_b(s[i + 1]) {
            collapse_from(s, i + 1)
        } else {
            seq![SP] + collapse_from(s, i + 1)
        }
    } else {
        seq![s[i]] + collapse_from(s, i + 1)
    }
}

/// `s` with every run of whitespace replaced by a single space.
pub open spec fn collapse_spaces(s: Seq<u8>) -> Seq<u8> {
    collapse_from(s, 0)
}

/// Collapses every whitespace run in `s` to a single space.
pub fn collapse_bytes(s: &[u8]) -> (r: Vec<u8>)
    ensures
        r@ == collapse_spaces(s@),
{
    let n = s.len();
    let mut out: Vec<u8> = Vec::new();
    let mut i: usize = 0;
    while i < n
        invariant
            0 <= i <= n == s@.len(),
            collapse_spaces(s@) == out@ + collapse_from(s@, i as int),
        decreases n - i,
    {
        let ghost prev = out@;
        if is_space_exec(s[i]) {
            if !(i + 1 < n && is_space_exec(s[i + 1])) {
                out.push(SP);
                proof {
                    assert(prev + (seq![SP] + collapse_from(s@, i + 1)) =~= out@ + collapse_from(
                        s@,
                        i + 1,
                    ));
                }
            }
        } else {
            out.push(s[i]);
            proof {
                assert(prev + (seq![s@[i as int]] + collapse_from(s@, i + 1)) =~= out@
                    + collapse_from(s@, i + 1));
            }
        }
        i = i + 1;
    }
    proof {
        assert(collapse_spaces(s@) =~= out@);
    }
    out
}

/// Is `b` an ASCII upper-case letter?
pub open spec fn is_upper_b(b: u8) -> bool {
    UP_A <= b <= UP_Z
}

/// Is `b` an ASCII lower-case letter?
pub open spec fn is_lower_b(b: u8) -> bool {
    L_A <= b <= L_Z
}

/// `b` folded to lower case.
pub open spec fn to_lower_b(b: u8) -> u8 {
    if is_upper_b(b) {
        (b + 32) as u8
    } else {
        b
    }
}

/// `s` folded to lower case, byte by byte.
pub open spec fn to_lower(s: Seq<u8>) -> Seq<u8> {
    s.map_values(|b: u8| to_lower_b(b))
}

/// Does `s` mix upper- and lower-case letters?
pub open spec fn mixed_case(s: Seq<u8>) -> bool {
    (exists|i: int| 0 <= i < s.len() && is_upper_b(s[i])) && (exists|i: int|
        0 <= i < s.len() && is_lower_b(s[i]))
}

/// Does `s` mix upper- and lower-case letters?
pub fn mixed_case_exec(s: &[u8]) -> (r: bool)
    ensures
        r == mixed_case(s@),
{
    let n = s.len();
    let mut has_up = false;
    let mut has_low = false;
    let mut i: usize = 0;
    while i < n
        invariant
            0 <= i <= n == s@.len(),
            has_up == exists|k: int| 0 <= k < i && is_upper_b(s@[k]),
            has_low == exists|k: int| 0 <= k < i && is_lower_b(s@[k]),
        decreases n - i,
    {
        let b = s[i];
        if UP_A <= b && b <= UP_Z {
            has_up = true;
        }
        if L_A <= b && b <= L_Z {
            has_low = true;
        }
        i = i + 1;
    }
    has_up && has_low
}

/// Folds `s` to lower case, byte by byte.
pub fn to_lower_exec(s: &[u8]) -> (r: Vec<u8>)
    ensures
        r@ == to_lower(s@),
{
    let n = s.len();
    let mut out: Vec<u8> = Vec::new();
    let mut i: usize = 0;
    while i < n
        invariant
            0 <= i <= n == s@.len(),
            out@.len() == i,
            forall|k: int| 0 <= k < i ==> out@[k] == to_lower_b(s@[k]),
        decreases n - i,
    {
        let b = s[i];
        if UP_A <= b && b <= UP_Z {
            out.push(b + 32);
        } else {
            out.push(b);
        }
        i = i + 1;
    }
    proof {
        assert(out@ =~= to_lower(s@));
    }
    out
}

/// Is `b` an ASCII decimal digit?
pub open spec fn is_digit_b(b: u8) -> bool {
    D0 <= b <= D9
}

/// Are all bytes of `s` decimal digits?
pub open spec fn all_digits(s: Seq<u8>) -> bool {
    forall|i: int| 0 <= i < s.len() ==> is_digit_b(s[i])
}

/// The numeric value of the digit string `s`.
pub open spec fn dec_value(s: Seq<u8>) -> int
    decreases s.len(),
{
    if s.len() == 0 {
        0
    } else {
        dec_value(s.drop_last()) * 10 + (s.last() - D0)
    }
}

/// The operand value of `s`: its numeric value, provided `s` is a non-empty
/// digit string whose value fits in a byte.
pub open spec fn parse_u8(s: Seq<u8>) -> Option<u8> {
    if s.len() > 0 && all_digits(s) && dec_value(s) <= 255 {
        Some(dec_value(s) as u8)
    } else {
        None
    }
}

/// The value of a digit string is non-negative.
pub proof fn lemma_dec_value_nonneg(s: Seq<u8>)
    requires
        all_digits(s),
    ensures
        dec_value(s) >= 0,
    decreases s.len(),
{
    if s.len() > 0 {
        assert(all_digits(s.drop_last()));
        lemma_dec_value_nonneg(s.drop_last());
    }
}

/// Extending a digit string cannot shrink its value.
pub proof fn lemma_dec_value_grows(s: Seq<u8>, i: int)
    requires
        all_digits(s),
        0 <= i <= s.len(),
    ensures
        dec_value(s) >= dec_value(s.take(i)),
    decreases s.len() - i,
{
    if i == s.len() {
        assert(s.take(i) =~= s);
    } else {
        lemma_dec_value_grows(s, i + 1);
        let t = s.take(i + 1);
        assert(t.drop_last() =~= s.take(i));
        assert(all_digits(s.take(i)));
        lemma_dec_value_nonneg(s.take(i));
        assert(dec_value(t) == dec_value(s.take(i)) * 10 + (s[i] - D0));
    }
}

/// Parses `s` as a decimal operand in `[0, 255]`.
pub fn parse_u8_exec(s: &[u8]) -> (r: Option<u8>)
    ensures
        r == parse_u8(s@),
{
    let n = s.len();
    if n == 0 {
        return None;
    }
    let mut acc: u16 = 0;
    let mut i: usize = 0;
    while i < n
        invariant
            0 <= i <= n == s@.len(),
            acc <= 255,
            all_digits(s@.take(i as int)),
            acc == dec_value(s@.take(i as int)),
        decreases n - i,
    {
        let b = s[i];
        if !(D0 <= b && b <= D9) {
            return None;
        }
        proof {
            assert(s@.take(i + 1).drop_last() =~= s@.take(i as int));
            assert(all_digits(s@.take(i + 1)));
        }
        let next: u16 = acc * 10 + (b - D0) as u16;
        if next > 255 {
            proof {
                if all_digits(s@) {
                    lemma_dec_value_grows(s@, i + 1);
                    assert(s@.take(s@.len() as int) =~= s@);
                }
            }
            return None;
        }
        acc = next;
        i = i + 1;
    }
    proof {
        assert(s@.take(n as int) =~= s@);
    }
    Some(acc as u8)
}

/// The decimal rendering of `n`, without leading zeros.
pub open spec fn u8_dec(n: u8) -> Seq<u8> {
    if n < 10 {
        seq![(D0 + n) as u8]
    } else if n < 100 {
        seq![(D0 + n / 10) as u8, (D0 + n % 10) as u8]
    } else {
        seq![(D0 + n / 100) as u8, (D0 + (n / 10) % 10) as u8, (D0 + n % 10) as u8]
    }
}

/// Printing an operand and parsing it back yields the operand.
pub proof fn lemma_print_parse(n: u8)
    ensures
        parse_u8(u8_dec(n)) == Some(n),
{
    let s = u8_dec(n);
    assert(dec_value(Seq::<u8>::empty()) == 0);
    if n < 10 {
        assert(s.drop_last() =~= Seq::<u8>::empty());
        assert(dec_value(s) == n);
    } else if n < 100 {
        assert(s.drop_last() =~= seq![(D0 + n / 10) as u8]);
        assert(s.drop_last().drop_last() =~= Seq::<u8>::empty());
        assert(dec_value(s.drop_last()) == n / 10);
        assert(dec_value(s) == (n / 10) * 10 + n % 10);
        assert((n / 10) * 10 + n % 10 == n) by (nonlinear_arith);
    } else {
        assert(s.drop_last() =~= seq![(D0 + n / 100) as u8, (D0 + (n / 10) % 10) as u8]);
        assert(s.drop_last().drop_last() =~= seq![(D0 + n / 100) as u8]);
        assert(s.drop_last().drop_last().drop_last() =~= Seq::<u8>::empty());
        assert(dec_value(s.drop_last().drop_last()) == n / 100);
        assert(n / 100 == (n / 10) / 10) by (nonlinear_arith);
        assert(dec_value(s.drop_last()) == (n / 10) / 10 * 10 + (n / 10) % 10);
        assert((n / 10) / 10 * 10 + (n / 10) % 10 == n / 10) by (nonlinear_arith);
        assert(dec_value(s) == (n / 10) * 10 + n % 10);
        assert((n / 10) * 10 + n % 10 == n) by (nonlinear_arith);
    }
}

/// Renders `n` in decimal, without leading zeros.
pub fn u8_dec_exec(n: u8) -> (r: Vec<u8>)
    ensures
        r@ == u8_dec(n),
{
    let mut out: Vec<u8> = Vec::new();
    if n < 10 {
        out.push(D0 + n);
        proof {
            assert(out@ =~= u8_dec(n));
        }
    } else if n < 100 {
        out.push(D0 + n / 10);
        out.push(D0 + n % 10);
        proof {
            assert(out@ =~= u8_dec(n));
        }
    } else {
        out.push(D0 + n / 100);
        out.push(D0 + (n / 10) % 10);
        out.push(D0 + n % 10);
        proof {
            assert(out@ =~= u8_dec(n));
        }
    }
    out
}

} // verus!
