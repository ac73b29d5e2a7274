//! Fragments of the canonical JSON text inside a token: string escaping and
//! decimal numbers, over UTF-8 bytes.
//!
//! A claims payload is rendered in one canonical form, so the scanners here
//! only have to recognise what the writers produce; anything else is refused
//! and surfaces as a malformed token.

use vstd::prelude::*;

verus! {

// ---------------------------------------------------------------------------
// String escaping
// ---------------------------------------------------------------------------
/// Lower-case hex digit of a value below sixteen.
pub open spec fn hex_digit(v: u8) -> u8
    recommends
        v < 16,
{
    if v < 10 {
        (48 + v) as u8
    } else {
        (87 + v) as u8
    }
}

pub open spec fn is_hex_lc(b: u8) -> bool {
    (48 <= b <= 57) || (97 <= b <= 102)
}

pub open spec fn hex_val(b: u8) -> u8
    recommends
        is_hex_lc(b),
{
    if 48 <= b <= 57 {
        (b - 48) as u8
    } else {
        (b - 87) as u8
    }
}

/// How one byte of string content is written: quote and backslash get a
/// backslash escape, control bytes a `\u00XX` escape, anything else stands
/// as itself. Bytes of a multi-byte UTF-8 character are all above the
/// control range, so escaping byte by byte leaves them intact.
pub open spec fn spec_escape_byte(b: u8) -> Seq<u8> {
    if b == 34 {
        seq![92u8, 34u8]
    } else if b == 92 {
        seq![92u8, 92u8]
    } else if b < 32 {
        seq![92u8, 117u8, 48u8, 48u8, hex_digit(b / 16), hex_digit(b % 16)]
    } else {
        seq![b]
    }
}

/// The escaped form of string content.
pub open spec fn spec_escape(s: Seq<u8>) -> Seq<u8>
    decreases s.len(),
{
    if s.len() == 0 {
        seq![]
    } else {
        spec_escape_byte(s[0]) + spec_escape(s.drop_first())
    }
}

/// Escaping distributes over concatenation.
pub proof fn lemma_escape_concat(a: Seq<u8>, b: Seq<u8>)
    ensures
        spec_escape(a + b) == spec_escape(a) + spec_escape(b),
    decreases a.len(),
{
    if a.len() == 0 {
        assert(a + b =~= b);
        assert(spec_escape(a) + spec_escape(b) =~= spec_escape(b));
    } else {
        assert((a + b).drop_first() =~= a.drop_first() + b);
        lemma_escape_concat(a.drop_first(), b);
        assert(spec_escape(a + b) =~= spec_escape(a) + spec_escape(b));
    }
}

/// One byte escapes to its own expansion.
pub proof fn lemma_escape_single(b: u8)
    ensures
        spec_escape(seq![b]) == spec_escape_byte(b),
{
    let s = seq![b];
    assert(s.drop_first() =~= Seq::<u8>::empty());
    assert(spec_escape(Seq::<u8>::empty()) == Seq::<u8>::empty());
    assert(spec_escape(s) == spec_escape_byte(b) + spec_escape(s.drop_first()));
    assert(spec_escape_byte(b) + Seq::<u8>::empty() =~= spec_escape_byte(b));
}

/// Helper shaping the result of a scanner that consumed one content byte.
pub open spec fn scan_cons(b: u8, r: Option<(Seq<u8>, Seq<u8>)>) -> Option<(Seq<u8>, Seq<u8>)> {
    match r {
        Some(p) => Some((seq![b] + p.0, p.1)),
        None => None,
    }
}

/// Reads string content up to and including its closing quote; returns the
/// unescaped content and what follows the quote. `None` when the text is not
/// a closed string in canonical form (only the escapes the writer produces
/// are recognised).
pub open spec fn spec_scan_string(t: Seq<u8>) -> Option<(Seq<u8>, Seq<u8>)>
    decreases t.len(),
{
    if t.len() == 0 {
        None
    } else if t[0] == 34 {
        Some((seq![], t.drop_first()))
    } else if t[0] == 92 {
        if t.len() >= 2 && t[1] == 34 {
            scan_cons(34u8, spec_scan_string(t.skip(2)))
        } else if t.len() >= 2 && t[1] == 92 {
            scan_cons(92u8, spec_scan_string(t.skip(2)))
        } else if t.len() >= 6 && t[1] == 117 && t[2] == 48 && t[3] == 48 && is_hex_lc(t[4])
            && is_hex_lc(t[5]) && hex_val(t[4]) * 16 + hex_val(t[5]) < 32 {
            scan_cons((hex_val(t[4]) * 16 + hex_val(t[5])) as u8, spec_scan_string(t.skip(6)))
        } else {
            None
        }
    } else if t[0] < 32 {
        None
    } else {
        scan_cons(t[0], spec_scan_string(t.drop_first()))
    }
}

/// Scanning inverts escaping: escaped content followed by a closing quote
/// reads back as the content, leaving the tail untouched.
pub proof fn lemma_scan_escape(s: Seq<u8>, rest: Seq<u8>)
    ensures
        spec_scan_string(spec_escape(s) + seq![34u8] + rest) == Some((s, rest)),
    decreases s.len(),
{
    let t = spec_escape(s) + seq![34u8] + rest;
    if s.len() == 0 {
        assert(t =~= seq![34u8] + rest);
        assert(t[0] == 34);
        assert(t.drop_first() =~= rest);
    } else {
        let b = s[0];
        lemma_scan_escape(s.drop_first(), rest);
        let t1 = spec_escape(s.drop_first()) + seq![34u8] + rest;
        assert(t =~= spec_escape_byte(b) + t1);
        if b == 34 {
            assert(t.skip(2) =~= t1);
            assert(seq![b] + s.drop_first() =~= s);
        } else if b == 92 {
            assert(t.skip(2) =~= t1);
            assert(seq![b] + s.drop_first() =~= s);
        } else if b < 32 {
            assert(t.skip(6) =~= t1);
            assert(b / 16 < 16 && b % 16 < 16);
            assert(is_hex_lc(hex_digit(b / 16)) && hex_val(hex_digit(b / 16)) == b / 16);
            assert(is_hex_lc(hex_digit(b % 16)) && hex_val(hex_digit(b % 16)) == b % 16);
            assert((b / 16) * 16 + b % 16 == b);
            assert(t[1] == 117 && t[2] == 48 && t[3] == 48);
            assert(seq![b] + s.drop_first() =~= s);
        } else {
            assert(t.drop_first() =~= t1);
            assert(seq![b] + s.drop_first() =~= s);
        }
    }
}

// ---------------------------------------------------------------------------
// Fixed literals
// ---------------------------------------------------------------------------
/// Consumes an exact literal from the front of the text.
pub open spec fn spec_expect(t: Seq<u8>, lit: Seq<u8>) -> Option<Seq<u8>> {
    if lit.len() <= t.len() && t.take(lit.len() as int) == lit {
        Some(t.skip(lit.len() as int))
    } else {
        None
    }
}

/// Checks for the literal at position `from`; returns the position right
/// after it.
pub fn expect_bytes(t: &[u8], from: usize, lit: &[u8]) -> (r: Option<usize>)
    requires
        from <= t@.len(),
    ensures
        match r {
            Some(j) => from <= j <= t@.len() && j == from + lit@.len() && spec_expect(
                t@.skip(from as int),
                lit@,
            ) == Some(t@.skip(j as int)),
            None => spec_expect(t@.skip(from as int), lit@) is None,
        },
{
    let n = t.len();
    let m = lit.len();
    if n - from < m {
        return None;
    }
    let mut k: usize = 0;
    while k < m
        invariant
            n == t@.len(),
            m == lit@.len(),
            from + m <= n,
            k <= m,
            forall|j: int| 0 <= j < k ==> t@[from + j] == lit@[j],
        decreases m - k,
    {
        if t[from + k] != lit[k] {
            proof {
                assert(t@.skip(from as int).take(m as int)[k as int] == t@[from + k]);
            }
            return None;
        }
        k += 1;
    }
    proof {
        assert(t@.skip(from as int).take(m as int) =~= lit@);
    }
    Some(from + m)
}

// ---------------------------------------------------------------------------
// Decimal numbers
// ---------------------------------------------------------------------------
pub open spec fn is_digit(b: u8) -> bool {
    48 <= b <= 57
}

/// The decimal digits of a number, most significant first, no sign, no
/// leading zero except for the number zero itself.
pub open spec fn spec_dec_digits(n: nat) -> Seq<u8>
    decreases n,
{
    if n < 10 {
        seq![(48 + n) as u8]
    } else {
        spec_dec_digits(n / 10) + seq![(48 + (n % 10)) as u8]
    }
}

/// How many leading bytes of the text are decimal digits.
pub open spec fn digit_prefix_len(t: Seq<u8>) -> int
    decreases t.len(),
{
    if t.len() > 0 && is_digit(t[0]) {
        1 + digit_prefix_len(t.drop_first())
    } else {
        0
    }
}

/// The value of a digit string.
pub open spec fn dec_val(ds: Seq<u8>) -> int
    decreases ds.len(),
{
    if ds.len() == 0 {
        0
    } else {
        dec_val(ds.drop_last()) * 10 + (ds.last() - 48)
    }
}

/// Reads the longest digit prefix as a number; `None` when there is no digit
/// or the value does not fit in a `u64`.
pub open spec fn spec_scan_u64(t: Seq<u8>) -> Option<(u64, Seq<u8>)> {
    let n = digit_prefix_len(t);
    if n == 0 {
        None
    } else if dec_val(t.take(n)) <= u64::MAX {
        Some((dec_val(t.take(n)) as u64, t.skip(n)))
    } else {
        None
    }
}

pub proof fn lemma_dec_digits_are_digits(n: nat)
    ensures
        spec_dec_digits(n).len() >= 1,
        forall|i: int| 0 <= i < spec_dec_digits(n).len() ==> is_digit(#[trigger] spec_dec_digits(n)[i]),
    decreases n,
{
    if n >= 10 {
        lemma_dec_digits_are_digits(n / 10);
    }
}

/// The digit prefix of a digit string followed by a non-digit is exactly the
/// digit string.
pub proof fn lemma_digit_prefix_concat(a: Seq<u8>, b: Seq<u8>)
    requires
        forall|i: int| 0 <= i < a.len() ==> is_digit(#[trigger] a[i]),
        b.len() == 0 || !is_digit(b[0]),
    ensures
        digit_prefix_len(a + b) == a.len(),
    decreases a.len(),
{
    if a.len() == 0 {
        assert(a + b =~= b);
    } else {
        assert((a + b).drop_first() =~= a.drop_first() + b);
        lemma_digit_prefix_concat(a.drop_first(), b);
    }
}

/// The digits of a number have that number as their value.
pub proof fn lemma_dec_val_of_digits(n: nat)
    ensures
        dec_val(spec_dec_digits(n)) == n,
    decreases n,
{
    if n < 10 {
        let ds = spec_dec_digits(n);
        assert(ds.drop_last() =~= Seq::<u8>::empty());
        assert(dec_val(Seq::<u8>::empty()) == 0);
        assert(dec_val(ds) == dec_val(ds.drop_last()) * 10 + (ds.last() - 48));
    } else {
        lemma_dec_val_of_digits(n / 10);
        let ds = spec_dec_digits(n);
        assert(ds.drop_last() =~= spec_dec_digits(n / 10));
        assert(dec_val(ds) == dec_val(ds.drop_last()) * 10 + (ds.last() - 48));
        assert(dec_val(ds.drop_last()) == n / 10);
        assert(n % 10 < 10);
        assert(ds.last() == (48 + (n % 10)) as u8);
        assert(ds.last() - 48 == n % 10);
        assert(dec_val(ds) == (n / 10) * 10 + (n % 10));
        assert((n / 10) * 10 + n % 10 == n) by {
            vstd::arithmetic::div_mod::lemma_fundamental_div_mod(n as int, 10);
        }
    }
}

/// Scanning inverts printing: the digits of a number followed by a non-digit
/// read back as the number.
pub proof fn lemma_scan_dec(n: u64, rest: Seq<u8>)
    requires
        rest.len() == 0 || !is_digit(rest[0]),
    ensures
        spec_scan_u64(spec_dec_digits(n as nat) + rest) == Some((n, rest)),
{
    let ds = spec_dec_digits(n as nat);
    lemma_dec_digits_are_digits(n as nat);
    lemma_digit_prefix_concat(ds, rest);
    lemma_dec_val_of_digits(n as nat);
    assert((ds + rest).take(ds.len() as int) =~= ds);
    assert((ds + rest).skip(ds.len() as int) =~= rest);
}

// ---------------------------------------------------------------------------
// Executable writers and scanners
// ---------------------------------------------------------------------------
/// Returns the lower-case hex digit of a value below sixteen.
fn hex_digit_byte(v: u8) -> (r: u8)
    requires
        v < 16,
    ensures
        r == hex_digit(v),
{
    if v < 10 {
        48 + v
    } else {
        87 + v
    }
}

/// Returns the value of a lower-case hex digit, or `None`.
fn hex_try_val(b: u8) -> (r: Option<u8>)
    ensures
        match r {
            Some(v) => is_hex_lc(b) && v == hex_val(b) && v < 16,
            None => !is_hex_lc(b),
        },
{
    if 48 <= b && b <= 57 {
        Some(b - 48)
    } else if 97 <= b && b <= 102 {
        Some(b - 87)
    } else {
        None
    }
}

/// Appends the escaped form of string content.
pub fn push_escaped(out: &mut Vec<u8>, s: &[u8])
    ensures
        final(out)@ == old(out)@ + spec_escape(s@),
{
    let n = s.len();
    let mut i: usize = 0;
    proof {
        assert(s@.take(0) =~= Seq::<u8>::empty());
        assert(out@ =~= out@ + spec_escape(s@.take(0)));
    }
    while i < n
        invariant
            n == s@.len(),
            i <= n,
            out@ == old(out)@ + spec_escape(s@.take(i as int)),
        decreases n - i,
    {
        let b = s[i];
        if b == 34 {
            out.push(92);
            out.push(34);
        } else if b == 92 {
            out.push(92);
            out.push(92);
        } else if b < 32 {
            out.push(92);
            out.push(117);
            out.push(48);
            out.push(48);
            out.push(hex_digit_byte(b / 16));
            out.push(hex_digit_byte(b % 16));
        } else {
            out.push(b);
        }
        proof {
            assert(s@.take(i + 1) =~= s@.take(i as int) + seq![b]);
            lemma_escape_concat(s@.take(i as int), seq![b]);
            lemma_escape_single(b);
            assert(out@ =~= old(out)@ + spec_escape(s@.take(i + 1)));
        }
        i += 1;
    }
    proof {
        assert(s@.take(n as int) =~= s@);
    }
}

/// Appends the decimal digits of a number.
pub fn push_dec(out: &mut Vec<u8>, n: u64)
    ensures
        final(out)@ == old(out)@ + spec_dec_digits(n as nat),
    decreases n,
{
    if n < 10 {
        out.push(48 + (n as u8));
        proof {
            assert(out@ =~= old(out)@ + spec_dec_digits(n as nat));
        }
    } else {
        push_dec(out, n / 10);
        out.push(48 + ((n % 10) as u8));
        proof {
            assert(out@ =~= old(out)@ + spec_dec_digits(n as nat));
        }
    }
}

/// Reads string content from position `from`, which must sit right after the
/// opening quote; returns the unescaped content and the position right after
/// the closing quote.
pub fn scan_string(t: &[u8], from: usize) -> (r: Option<(Vec<u8>, usize)>)
    requires
        from <= t@.len(),
    ensures
        match r {
            Some(p) => p.1 <= t@.len() && spec_scan_string(t@.skip(from as int)) == Some(
                (p.0@, t@.skip(p.1 as int)),
            ),
            None => spec_scan_string(t@.skip(from as int)) is None,
        },
{
    let n = t.len();
    let mut acc: Vec<u8> = Vec::new();
    let mut i: usize = from;
    loop
        invariant
            n == t@.len(),
            from <= i <= n,
            spec_scan_string(t@.skip(from as int)) == scan_acc(acc@, spec_scan_string(t@.skip(i as int))),
        decreases n - i,
    {
        if i == n {
            return None;
        }
        let b = t[i];
        proof {
            assert(t@.skip(i as int)[0] == b);
        }
        if b == 34 {
            proof {
                assert(t@.skip(i as int).drop_first() =~= t@.skip(i + 1));
                assert(acc@ + Seq::<u8>::empty() =~= acc@);
            }
            return Some((acc, i + 1));
        } else if b == 92 {
            if n - i < 2 {
                return None;
            }
            let e = t[i + 1];
            proof {
                assert(t@.skip(i as int)[1] == e);
            }
            if e == 34 {
                let ghost acc0 = acc@;
                acc.push(34);
                proof {
                    assert(t@.skip(i as int).skip(2) =~= t@.skip(i + 2));
                    lemma_scan_acc_step(acc0, 34u8, spec_scan_string(t@.skip(i + 2)));
                }
                i += 2;
            } else if e == 92 {
                let ghost acc0 = acc@;
                acc.push(92);
                proof {
                    assert(t@.skip(i as int).skip(2) =~= t@.skip(i + 2));
                    lemma_scan_acc_step(acc0, 92u8, spec_scan_string(t@.skip(i + 2)));
                }
                i += 2;
            } else if e == 117 && n - i >= 6 {
                let z0 = t[i + 2];
                let z1 = t[i + 3];
                let h0 = hex_try_val(t[i + 4]);
                let h1 = hex_try_val(t[i + 5]);
                proof {
                    assert(t@.skip(i as int)[2] == t@[i + 2] && t@.skip(i as int)[3] == t@[i + 3]
                        && t@.skip(i as int)[4] == t@[i + 4] && t@.skip(i as int)[5] == t@[i + 5]);
                }
                match (h0, h1) {
                    (Some(v0), Some(v1)) => {
                        let v = v0 * 16 + v1;
                        if z0 == 48 && z1 == 48 && v < 32 {
                            let ghost acc0 = acc@;
                            acc.push(v);
                            proof {
                                assert(t@.skip(i as int).skip(6) =~= t@.skip(i + 6));
                                lemma_scan_acc_step(acc0, v, spec_scan_string(t@.skip(i + 6)));
                            }
                            i += 6;
                        } else {
                            return None;
                        }
                    },
                    _ => {
                        return None;
                    },
                }
            } else {
                return None;
            }
        } else if b < 32 {
            return None;
        } else {
            let ghost acc0 = acc@;
            acc.push(b);
            proof {
                assert(t@.skip(i as int).drop_first() =~= t@.skip(i + 1));
                lemma_scan_acc_step(acc0, b, spec_scan_string(t@.skip(i + 1)));
            }
            i += 1;
        }
    }
}

/// The scanner's loop state: content gathered so far, glued onto whatever the
/// rest of the text scans to.
pub open spec fn scan_acc(acc: Seq<u8>, r: Option<(Seq<u8>, Seq<u8>)>) -> Option<(Seq<u8>, Seq<u8>)> {
    match r {
        Some(p) => Some((acc + p.0, p.1)),
        None => None,
    }
}

/// Moving one content byte from the text into the accumulator keeps the glued
/// result unchanged.
proof fn lemma_scan_acc_step(acc: Seq<u8>, b: u8, r: Option<(Seq<u8>, Seq<u8>)>)
    ensures
        scan_acc(acc, scan_cons(b, r)) == scan_acc(acc.push(b), r),
{
    match r {
        Some(p) => {
            assert(acc + (seq![b] + p.0) =~= acc.push(b) + p.0);
        },
        None => {},
    }
}

/// Reads a decimal `u64` from position `from`; returns the value and the
/// position of the first byte after the digits.
pub fn scan_u64(t: &[u8], from: usize) -> (r: Option<(u64, usize)>)
    requires
        from <= t@.len(),
    ensures
        match r {
            Some(p) => p.1 <= t@.len() && spec_scan_u64(t@.skip(from as int)) == Some(
                (p.0, t@.skip(p.1 as int)),
            ),
            None => spec_scan_u64(t@.skip(from as int)) is None,
        },
{
    let n = t.len();
    let ghost whole = t@.skip(from as int);
    let ghost dn = digit_prefix_len(whole);
    proof {
        lemma_digit_prefix_in_range(whole);
    }
    if from == n || !(48 <= t[from] && t[from] <= 57) {
        return None;
    }
    let mut i: usize = from;
    let mut v: u64 = 0;
    proof {
        assert(whole.take(0) =~= Seq::<u8>::empty());
    }
    while i < n && 48 <= t[i] && t[i] <= 57
        invariant
            n == t@.len(),
            from <= i <= n,
            whole == t@.skip(from as int),
            dn == digit_prefix_len(whole),
            i - from <= dn,
            forall|k: int| 0 <= k < i - from ==> is_digit(#[trigger] whole[k]),
            v == dec_val(whole.take(i - from)),
            v <= u64::MAX,
        decreases n - i,
    {
        let d = t[i] - 48;
        proof {
            assert(whole[i - from] == t@[i as int]);
            assert(whole.take(i - from + 1) =~= whole.take(i - from).push(t@[i as int]));
            assert(whole.take(i - from + 1).drop_last() =~= whole.take(i - from));
            lemma_digit_prefix_grows(whole, i - from);
        }
        if v > (u64::MAX - (d as u64)) / 10 {
            proof {
                lemma_dec_val_overflow(whole, i - from + 1, dn);
            }
            return None;
        }
        v = v * 10 + (d as u64);
        i += 1;
    }
    proof {
        lemma_digit_prefix_stops(whole, i - from);
        assert(whole.take(dn) =~= whole.take(i - from));
        assert(whole.skip(dn) =~= t@.skip(i as int));
    }
    Some((v, i))
}

/// The digit prefix is never longer than the text.
proof fn lemma_digit_prefix_in_range(t: Seq<u8>)
    ensures
        0 <= digit_prefix_len(t) <= t.len(),
        forall|k: int| 0 <= k < digit_prefix_len(t) ==> is_digit(#[trigger] t[k]),
    decreases t.len(),
{
    if t.len() > 0 && is_digit(t[0]) {
        lemma_digit_prefix_in_range(t.drop_first());
        assert(forall|k: int| 1 <= k < digit_prefix_len(t) ==> t[k] == t.drop_first()[k - 1]);
    }
}

/// While digits keep coming the digit prefix extends past them.
proof fn lemma_digit_prefix_grows(t: Seq<u8>, k: int)
    requires
        0 <= k < t.len(),
        forall|j: int| 0 <= j <= k ==> is_digit(#[trigger] t[j]),
    ensures
        digit_prefix_len(t) >= k + 1,
    decreases k,
{
    if k == 0 {
        lemma_digit_prefix_in_range(t.drop_first());
    } else {
        assert(forall|j: int| 0 <= j <= k - 1 ==> t.drop_first()[j] == t[j + 1]);
        lemma_digit_prefix_grows(t.drop_first(), k - 1);
    }
}

/// The digit prefix ends at the first non-digit (or the end of the text).
proof fn lemma_digit_prefix_stops(t: Seq<u8>, k: int)
    requires
        0 <= k <= t.len(),
        forall|j: int| 0 <= j < k ==> is_digit(#[trigger] t[j]),
        k == t.len() || !is_digit(t[k]),
    ensures
        digit_prefix_len(t) == k,
    decreases k,
{
    if k == 0 {
    } else {
        assert(forall|j: int| 0 <= j < k - 1 ==> t.drop_first()[j] == t[j + 1]);
        lemma_digit_prefix_stops(t.drop_first(), k - 1);
    }
}

/// Once a digit prefix's value is too large for a `u64`, so is the value of
/// every longer digit prefix.
proof fn lemma_dec_val_overflow(t: Seq<u8>, k: int, dn: int)
    requires
        dn == digit_prefix_len(t),
        0 <= k <= dn,
        dec_val(t.take(k)) > u64::MAX,
    ensures
        dec_val(t.take(dn)) > u64::MAX,
    decreases dn - k,
{
    lemma_digit_prefix_in_range(t);
    if k < dn {
        assert(t.take(k + 1).drop_last() =~= t.take(k));
        assert(is_digit(t[k]));
        assert(dec_val(t.take(k + 1)) == dec_val(t.take(k)) * 10 + (t[k] - 48));
        lemma_dec_val_overflow(t, k + 1, dn);
    }
}

} // verus!
