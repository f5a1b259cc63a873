//! Small verified string utilities shared across the crate.

use vstd::prelude::*;
use vstd::string::StrSliceExecFns;

verus! {

/// The characters of `s`, as a vector.
pub fn chars_of(s: &str) -> (r: Vec<char>)
    ensures
        r@ == s@,
{
    let n = s.unicode_len();
    let mut r: Vec<char> = Vec::new();
    let mut i: usize = 0;
    while i < n
        invariant
            n == s@.len(),
            0 <= i <= n,
            r@ == s@.take(i as int),
        decreases n - i,
    {
        let c = s.get_char(i);
        r.push(c);
        proof {
            assert(s@.take(i + 1) =~= s@.take(i as int).push(s@[i as int]));
        }
        i = i + 1;
    }
    proof {
        assert(s@.take(n as int) =~= s@);
    }
    r
}

/// Relies on `String: FromIterator<char>`: collecting characters yields the
/// string of exactly those characters, in order.
#[verifier::external_body]
pub fn chars_to_string(v: &Vec<char>) -> (r: String)
    ensures
        r@ == v@,
{
    v.iter().collect()
}

/// String-slice equality by view.
pub fn str_eq(a: &str, b: &str) -> (r: bool)
    ensures
        r == (a@ == b@),
{
    let sa = a.to_owned();
    let sb = b.to_owned();
    sa == sb
}

/// Byte-vector equality by view.
pub fn bytes_eq(a: &Vec<u8>, b: &Vec<u8>) -> (r: bool)
    ensures
        r == (a@ == b@),
{
    if a.len() != b.len() {
        return false;
    }
    let mut i: usize = 0;
    while i < a.len()
        invariant
            a@.len() == b@.len(),
            0 <= i <= a@.len(),
            forall|j: int| 0 <= j < i ==> a@[j] == b@[j],
        decreases a@.len() - i,
    {
        if a[i] != b[i] {
            return false;
        }
        i = i + 1;
    }
    proof {
        assert(a@ =~= b@);
    }
    true
}

/// A copy of a byte vector.
pub fn clone_bytes(src: &Vec<u8>) -> (r: Vec<u8>)
    ensures
        r@ == src@,
{
    let mut r: Vec<u8> = Vec::new();
    let mut i: usize = 0;
    while i < src.len()
        invariant
            0 <= i <= src@.len(),
            r@ == src@.take(i as int),
        decreases src@.len() - i,
    {
        let b = src[i];
        r.push(b);
        proof {
            assert(src@.take(i + 1) =~= src@.take(i as int).push(src@[i as int]));
        }
        i = i + 1;
    }
    proof {
        assert(src@.take(src@.len() as int) =~= src@);
    }
    r
}


/// The decimal digit character for `d`.
pub open spec fn spec_digit_char(d: nat) -> char {
    if d == 0 {
        '0'
    } else if d == 1 {
        '1'
    } else if d == 2 {
        '2'
    } else if d == 3 {
        '3'
    } else if d == 4 {
        '4'
    } else if d == 5 {
        '5'
    } else if d == 6 {
        '6'
    } else if d == 7 {
        '7'
    } else if d == 8 {
        '8'
    } else {
        '9'
    }
}

/// The decimal representation of `n`, most significant digit first.
pub open spec fn spec_digits(n: nat) -> Seq<char>
    decreases n,
{
    if n < 10 {
        seq![spec_digit_char(n)]
    } else {
        spec_digits(n / 10).push(spec_digit_char(n % 10))
    }
}

fn digit_char(d: usize) -> (r: char)
    requires
        d < 10,
    ensures
        r == spec_digit_char(d as nat),
{
    if d == 0 {
        '0'
    } else if d == 1 {
        '1'
    } else if d == 2 {
        '2'
    } else if d == 3 {
        '3'
    } else if d == 4 {
        '4'
    } else if d == 5 {
        '5'
    } else if d == 6 {
        '6'
    } else if d == 7 {
        '7'
    } else if d == 8 {
        '8'
    } else {
        '9'
    }
}

/// The decimal digits of `n`, as characters.
#[verifier::loop_isolation(false)]
pub fn usize_to_chars(n: usize) -> (r: Vec<char>)
    ensures
        r@ == spec_digits(n as nat),
{
    let mut rev: Vec<char> = Vec::new();
    let mut m = n;
    let c0 = digit_char(m % 10);
    rev.push(c0);
    m = m / 10;
    proof {
        vstd::arithmetic::div_mod::lemma_fundamental_div_mod(n as int, 10);
        assert(rev@ =~= seq![spec_digit_char((n % 10) as nat)]);
        if n < 10 {
            assert(n % 10 == n) by {
                vstd::arithmetic::div_mod::lemma_small_mod(n as nat, 10);
            }
        }
    }
    while m > 0
        invariant
            rev@.len() >= 1,
            spec_digits(n as nat) == if m > 0 {
                spec_digits(m as nat) + rev@.reverse()
            } else {
                rev@.reverse()
            },
        decreases m,
    {
        let ghost m_old = m as nat;
        let ghost rev_old = rev@;
        let d = m % 10;
        let c = digit_char(d);
        rev.push(c);
        m = m / 10;
        proof {
            vstd::arithmetic::div_mod::lemma_fundamental_div_mod(m_old as int, 10);
            assert(rev@ =~= rev_old.push(spec_digit_char((m_old % 10) as nat)));
            assert(rev@.reverse() =~= seq![spec_digit_char((m_old % 10) as nat)] + rev_old.reverse());
            if m_old < 10 {
                vstd::arithmetic::div_mod::lemma_small_mod(m_old, 10);
                assert(m == 0);
                assert(spec_digits(m_old) == seq![spec_digit_char(m_old % 10)]);
                assert(spec_digits(n as nat) =~= rev@.reverse());
            } else {
                assert(m > 0);
                assert(spec_digits(m_old) == spec_digits(m_old / 10).push(
                    spec_digit_char(m_old % 10),
                ));
                assert(spec_digits(m_old / 10).push(spec_digit_char(m_old % 10)) + rev_old.reverse()
                    =~= spec_digits(m_old / 10) + (seq![spec_digit_char(m_old % 10)]
                    + rev_old.reverse()));
                assert(spec_digits(n as nat) =~= spec_digits(m as nat) + rev@.reverse());
            }
        }
    }
    let mut out: Vec<char> = Vec::new();
    let mut k: usize = rev.len();
    while k > 0
        invariant
            0 <= k <= rev@.len(),
            out@ == rev@.reverse().take(rev@.len() - k),
        decreases k,
    {
        out.push(rev[k - 1]);
        proof {
            assert(rev@.reverse()[rev@.len() - k] == rev@[k - 1]);
            assert(rev@.reverse().take(rev@.len() - (k - 1)) =~= rev@.reverse().take(
                rev@.len() - k,
            ).push(rev@.reverse()[rev@.len() - k]));
        }
        k = k - 1;
    }
    proof {
        assert(rev@.reverse().take(rev@.len() as int) =~= rev@.reverse());
    }
    out
}

/// `n` copies of the character `c`.
pub open spec fn spec_repeat_char(c: char, n: nat) -> Seq<char> {
    Seq::new(n, |i: int| c)
}

/// Append `src`'s characters to `dst`.
pub fn append_chars(dst: &mut Vec<char>, src: &Vec<char>)
    ensures
        final(dst)@ == old(dst)@ + src@,
{
    let mut i: usize = 0;
    while i < src.len()
        invariant
            0 <= i <= src@.len(),
            dst@ == old(dst)@ + src@.take(i as int),
        decreases src@.len() - i,
    {
        let c = src[i];
        dst.push(c);
        proof {
            assert(old(dst)@ + src@.take(i + 1) =~= (old(dst)@ + src@.take(i as int)).push(
                src@[i as int],
            ));
        }
        i = i + 1;
    }
    proof {
        assert(src@.take(src@.len() as int) =~= src@);
        assert(old(dst)@ + src@.take(0) =~= old(dst)@);
    }
}

/// Append a string's characters to `dst`.
pub fn append_str(dst: &mut Vec<char>, src: &str)
    ensures
        final(dst)@ == old(dst)@ + src@,
{
    let v = chars_of(src);
    append_chars(dst, &v);
}

/// Append `n` copies of `c` to `dst`.
pub fn append_repeat(dst: &mut Vec<char>, c: char, n: usize)
    ensures
        final(dst)@ == old(dst)@ + spec_repeat_char(c, n as nat),
{
    let mut i: usize = 0;
    while i < n
        invariant
            0 <= i <= n,
            dst@ == old(dst)@ + spec_repeat_char(c, i as nat),
        decreases n - i,
    {
        dst.push(c);
        proof {
            assert(old(dst)@ + spec_repeat_char(c, (i + 1) as nat) =~= (old(dst)@
                + spec_repeat_char(c, i as nat)).push(c));
        }
        i = i + 1;
    }
    proof {
        assert(old(dst)@ + spec_repeat_char(c, 0) =~= old(dst)@);
    }
}

/// `s` padded on the left with spaces to width `w` (unchanged when already
/// that wide).
pub open spec fn spec_pad_left(s: Seq<char>, w: nat) -> Seq<char> {
    if s.len() >= w {
        s
    } else {
        spec_repeat_char(' ', (w - s.len()) as nat) + s
    }
}

/// `s` padded on the right with spaces to width `w`.
pub open spec fn spec_pad_right(s: Seq<char>, w: nat) -> Seq<char> {
    if s.len() >= w {
        s
    } else {
        s + spec_repeat_char(' ', (w - s.len()) as nat)
    }
}

/// Append `src` left-padded with spaces to width `w`.
pub fn append_pad_left(dst: &mut Vec<char>, src: &Vec<char>, w: usize)
    ensures
        final(dst)@ == old(dst)@ + spec_pad_left(src@, w as nat),
{
    if src.len() < w {
        append_repeat(dst, ' ', w - src.len());
        append_chars(dst, src);
        proof {
            assert(old(dst)@ + (spec_repeat_char(' ', (w - src@.len()) as nat) + src@) =~= (old(
                dst,
            )@ + spec_repeat_char(' ', (w - src@.len()) as nat)) + src@);
        }
    } else {
        append_chars(dst, src);
    }
}

/// Append `src` right-padded with spaces to width `w`.
pub fn append_pad_right(dst: &mut Vec<char>, src: &Vec<char>, w: usize)
    ensures
        final(dst)@ == old(dst)@ + spec_pad_right(src@, w as nat),
{
    append_chars(dst, src);
    if src.len() < w {
        append_repeat(dst, ' ', w - src.len());
        proof {
            assert(old(dst)@ + (src@ + spec_repeat_char(' ', (w - src@.len()) as nat)) =~= (old(
                dst,
            )@ + src@) + spec_repeat_char(' ', (w - src@.len()) as nat));
        }
    }
}


/// Lexicographic order on character sequences, by code point: whether `a`
/// sorts at or before `b`.
pub open spec fn spec_lex_le(a: Seq<char>, b: Seq<char>) -> bool
    decreases a.len(),
{
    if a.len() == 0 {
        true
    } else if b.len() == 0 {
        false
    } else if a[0] == b[0] {
        spec_lex_le(a.skip(1), b.skip(1))
    } else {
        a[0] < b[0]
    }
}

/// The lexicographic order is total.
pub proof fn lemma_lex_le_total(a: Seq<char>, b: Seq<char>)
    ensures
        spec_lex_le(a, b) || spec_lex_le(b, a),
    decreases a.len(),
{
    if a.len() > 0 && b.len() > 0 {
        if a[0] == b[0] {
            lemma_lex_le_total(a.skip(1), b.skip(1));
        }
    }
}

/// The lexicographic order is transitive.
pub proof fn lemma_lex_le_trans(a: Seq<char>, b: Seq<char>, c: Seq<char>)
    requires
        spec_lex_le(a, b),
        spec_lex_le(b, c),
    ensures
        spec_lex_le(a, c),
    decreases a.len(),
{
    if a.len() > 0 && b.len() > 0 && c.len() > 0 {
        if a[0] == b[0] && b[0] == c[0] {
            lemma_lex_le_trans(a.skip(1), b.skip(1), c.skip(1));
        }
    }
}

/// Whether `x` sorts at or before `y`, lexicographically by code point.
#[verifier::loop_isolation(false)]
pub fn str_le(x: &str, y: &str) -> (r: bool)
    ensures
        r == spec_lex_le(x@, y@),
{
    let a = chars_of(x);
    let b = chars_of(y);
    let na = a.len();
    let nb = b.len();
    let min = if na <= nb {
        na
    } else {
        nb
    };
    let mut i: usize = 0;
    proof {
        assert(a@.skip(0) =~= a@);
        assert(b@.skip(0) =~= b@);
    }
    while i < min
        invariant
            0 <= i <= min,
            spec_lex_le(x@, y@) == spec_lex_le(a@.skip(i as int), b@.skip(i as int)),
        decreases min - i,
    {
        proof {
            assert(a@.skip(i as int)[0] == a@[i as int]);
            assert(b@.skip(i as int)[0] == b@[i as int]);
            assert(a@.skip(i as int).skip(1) =~= a@.skip(i + 1));
            assert(b@.skip(i as int).skip(1) =~= b@.skip(i + 1));
        }
        let ca = a[i];
        let cb = b[i];
        if ca != cb {
            return ca < cb;
        }
        i = i + 1;
    }
    proof {
        if na <= nb {
            assert(a@.skip(min as int).len() == 0);
        } else {
            assert(b@.skip(min as int).len() == 0);
            assert(a@.skip(min as int).len() > 0);
        }
    }
    na <= nb
}

} // verus!
