//! String helpers: building text from ASCII bytes, decimal rendering, and
//! lexicographic ordering of character sequences.

use vstd::prelude::*;

verus! {

/// Holds when every byte of `s` is an ASCII code.
pub open spec fn all_ascii(s: Seq<u8>) -> bool {
    forall|i: int| 0 <= i < s.len() ==> s[i] < 128
}

/// The characters spelled by a sequence of ASCII bytes, one per byte.
pub open spec fn ascii_chars(s: Seq<u8>) -> Seq<char> {
    s.map_values(|b: u8| b as char)
}

/// Relies on `String::push`: appends exactly the given character.
#[verifier::external_body]
fn push_char(s: &mut String, c: char)
    ensures
        final(s)@ == old(s)@.push(c),
{
    s.push(c);
}

/// Builds the string spelled by a sequence of ASCII bytes, one character
/// per byte.
pub fn ascii_to_string(bytes: &[u8]) -> (r: String)
    requires
        all_ascii(bytes@),
    ensures
        r@ == ascii_chars(bytes@),
{
    let mut r = String::new();
    let mut i: usize = 0;
    while i < bytes.len()
        invariant
            all_ascii(bytes@),
            i <= bytes@.len(),
            r@ == ascii_chars(bytes@.take(i as int)),
        decreases bytes@.len() - i,
    {
        let b = *vstd::slice::slice_index_get(bytes, i);
        push_char(&mut r, b as char);
        proof {
            assert(ascii_chars(bytes@.take(i + 1 as int)) =~= ascii_chars(
                bytes@.take(i as int),
            ).push(b as char));
        }
        i = i + 1;
    }
    proof {
        assert(bytes@.take(bytes@.len() as int) =~= bytes@);
    }
    r
}

/// Whether every byte of `bs` is an ASCII code.
pub fn check_ascii(bs: &[u8]) -> (r: bool)
    ensures
        r == all_ascii(bs@),
{
    let mut i: usize = 0;
    while i < bs.len()
        invariant
            i <= bs@.len(),
            all_ascii(bs@.take(i as int)),
        decreases bs@.len() - i,
    {
        let b = *vstd::slice::slice_index_get(bs, i);
        if b >= 128 {
            return false;
        }
        proof {
            assert(forall|j: int| 0 <= j < i + 1 ==> bs@.take(i + 1)[j] == bs@[j]);
        }
        i = i + 1;
    }
    proof {
        assert(bs@.take(bs@.len() as int) =~= bs@);
    }
    true
}

/// The character for one decimal digit.
pub open spec fn digit_char(d: nat) -> char
    recommends
        d < 10,
{
    ((48 + d) as u8) as char
}

/// The decimal digits of a nonnegative integer, most significant first,
/// with no leading zeros.
pub open spec fn dec_chars(n: nat) -> Seq<char>
    decreases n,
{
    if n < 10 {
        seq![digit_char(n)]
    } else {
        dec_chars(n / 10).push(digit_char(n % 10))
    }
}

/// A run of `n` spaces.
pub open spec fn space_chars(n: int) -> Seq<char> {
    Seq::new(n as nat, |i: int| ' ')
}

/// The decimal rendering of a signed integer: a minus sign and the digits
/// of the magnitude, or just the digits.
pub open spec fn dec_str(v: int) -> Seq<char> {
    if v < 0 {
        seq!['-'] + dec_chars((-v) as nat)
    } else {
        dec_chars(v as nat)
    }
}

/// A decimal rendering has at least one character, and no more than the
/// value's magnitude plus one.
proof fn lemma_dec_chars_len(n: nat)
    ensures
        1 <= dec_chars(n).len() <= n + 1,
    decreases n,
{
    if n >= 10 {
        lemma_dec_chars_len(n / 10);
    }
}

/// Appends the decimal digits of `n` to `s`.
fn push_dec(s: &mut String, n: u32)
    ensures
        final(s)@ == old(s)@ + dec_chars(n as nat),
    decreases n,
{
    if n < 10 {
        let d: u8 = 48 + (n as u8);
        push_char(s, d as char);
        proof {
            assert(final(s)@ =~= old(s)@ + dec_chars(n as nat));
        }
    } else {
        push_dec(s, n / 10);
        let d: u8 = 48 + ((n % 10) as u8);
        push_char(s, d as char);
        proof {
            assert(final(s)@ =~= old(s)@ + dec_chars(n as nat));
        }
    }
}

/// The number of decimal digits of `n`.
fn dec_len(n: u32) -> (l: usize)
    ensures
        l == dec_chars(n as nat).len(),
    decreases n,
{
    if n < 10 {
        1
    } else {
        proof {
            lemma_dec_chars_len((n / 10) as nat);
        }
        1 + dec_len(n / 10)
    }
}

/// Builds the decimal rendering of `v`, right-aligned with spaces to at
/// least `width` characters; a longer rendering is kept whole.
pub fn right_aligned_dec(v: i32, width: usize) -> (r: String)
    ensures
        r@ == (if dec_str(v as int).len() >= width {
            dec_str(v as int)
        } else {
            space_chars(width - dec_str(v as int).len()) + dec_str(v as int)
        }),
{
    let neg: bool = v < 0;
    let mag: u32 = if v < 0 {
        (-(v as i64)) as u32
    } else {
        v as u32
    };
    let digits = dec_len(mag);
    proof {
        lemma_dec_chars_len(mag as nat);
    }
    let total: usize = if neg {
        1 + digits
    } else {
        digits
    };
    let mut r = String::new();
    let mut pad: usize = 0;
    let ghost padding: int = if total >= width {
        0
    } else {
        width - total
    };
    while total < width && pad < width - total
        invariant
            pad <= padding,
            total < width ==> pad <= width - total,
            padding == (if total >= width {
                0int
            } else {
                width - total
            }),
            r@ =~= space_chars(pad as int),
        decreases width - total - pad,
    {
        push_char(&mut r, ' ');
        proof {
            assert(r@ =~= space_chars(pad + 1 as int));
        }
        pad = pad + 1;
    }
    proof {
        assert(r@ =~= space_chars(padding));
    }
    if neg {
        push_char(&mut r, '-');
    }
    push_dec(&mut r, mag);
    proof {
        assert(dec_str(v as int).len() == total);
        assert(r@ =~= space_chars(padding) + dec_str(v as int));
        if padding == 0 {
            assert(r@ =~= dec_str(v as int));
        }
    }
    r
}

/// Strict lexicographic order on character sequences, by code point.
pub open spec fn lex_lt(a: Seq<char>, b: Seq<char>) -> bool
    decreases a.len(),
{
    if b.len() == 0 {
        false
    } else if a.len() == 0 {
        true
    } else if (a[0] as u32) < (b[0] as u32) {
        true
    } else if a[0] == b[0] {
        lex_lt(a.drop_first(), b.drop_first())
    } else {
        false
    }
}

/// Compares two strings in strict lexicographic order by code point.
pub fn str_lt(a: &String, b: &String) -> (r: bool)
    ensures
        r == lex_lt(a@, b@),
{
    let r = lex_lt_rec(a.as_str(), b.as_str(), 0);
    proof {
        assert(a@.skip(0) =~= a@);
        assert(b@.skip(0) =~= b@);
    }
    r
}

/// Compares the suffixes of two strings starting at character `i`.
fn lex_lt_rec(a: &str, b: &str, i: usize) -> (r: bool)
    requires
        i <= a@.len(),
        i <= b@.len(),
    ensures
        r == lex_lt(a@.skip(i as int), b@.skip(i as int)),
    decreases a@.len() - i,
{
    let alen = a.unicode_len();
    let blen = b.unicode_len();
    if i == blen {
        false
    } else if i == alen {
        true
    } else {
        let ca = a.get_char(i);
        let cb = b.get_char(i);
        if (ca as u32) < (cb as u32) {
            true
        } else if ca == cb {
            let r = lex_lt_rec(a, b, i + 1);
            proof {
                assert(a@.skip(i as int).drop_first() =~= a@.skip(i + 1 as int));
                assert(b@.skip(i as int).drop_first() =~= b@.skip(i + 1 as int));
            }
            r
        } else {
            false
        }
    }
}

/// The order is total: of two distinct character sequences, exactly one
/// precedes the other.
pub proof fn lemma_lex_total(a: Seq<char>, b: Seq<char>)
    ensures
        a == b || lex_lt(a, b) || lex_lt(b, a),
        lex_lt(a, b) ==> !lex_lt(b, a),
        lex_lt(a, b) ==> a != b,
    decreases a.len(),
{
    broadcast use vstd::utf8::char_is_scalar;

    if b.len() == 0 || a.len() == 0 {
        if a.len() == b.len() {
            assert(a =~= b);
        }
    } else {
        if (a[0] as u32) == (b[0] as u32) {
            assert(a[0] == b[0]) by {
                vstd::utf8::char_u32_cast(a[0], a[0] as u32);
                vstd::utf8::char_u32_cast(b[0], b[0] as u32);
            }
        }
        if a[0] == b[0] {
            lemma_lex_total(a.drop_first(), b.drop_first());
            if a.drop_first() == b.drop_first() {
                assert forall|i: int| 0 <= i < a.len() implies a[i] == b[i] by {
                    if i > 0 {
                        assert(a[i] == a.drop_first()[i - 1]);
                        assert(b[i] == b.drop_first()[i - 1]);
                    }
                }
                assert(a =~= b);
            }
        }
    }
}

/// The order is transitive.
pub proof fn lemma_lex_trans(a: Seq<char>, b: Seq<char>, c: Seq<char>)
    requires
        lex_lt(a, b),
        lex_lt(b, c),
    ensures
        lex_lt(a, c),
    decreases a.len(),
{
    if a.len() > 0 && b.len() > 0 && c.len() > 0 && a[0] == b[0] && b[0] == c[0] {
        lemma_lex_trans(a.drop_first(), b.drop_first(), c.drop_first());
    }
}

} // verus!
