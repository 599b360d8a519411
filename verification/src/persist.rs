//! The persisted snapshot format.
//!
//! A cache snapshot is stored as one JSON document,
//! `{"version":V,"data":{K:{"data":{"artwork":A,"url":U},"created_at":T},...}}`,
//! written without whitespace, with numbers in canonical decimal and strings
//! escaped minimally (quote, backslash, and control characters as
//! `\u00`-escapes). The writer below produces exactly this canonical text
//! and the reader accepts exactly it, so that a snapshot read back yields
//! the entries that were written — which is proved here, not assumed.

use vstd::prelude::*;

use crate::cache::{kv_view, unique_keys, CacheEntry, CacheEntryView, EntriesView};
use crate::structs::ITunesInfos;

verus! {

// ---------------------------------------------------------------------------
// Decimal numbers
// ---------------------------------------------------------------------------
/// Whether `c` is a decimal digit.
pub open spec fn is_digit(c: char) -> bool {
    48 <= c as int <= 57
}

/// The digit character for `d` (`d < 10`).
pub open spec fn digit_char(d: nat) -> char {
    (48 + d) as char
}

/// The numeric value of a digit character; zero elsewhere.
pub open spec fn digit_val(c: char) -> nat {
    if is_digit(c) {
        (c as int - 48) as nat
    } else {
        0
    }
}

/// The canonical decimal spelling of `n`: no sign, no leading zero.
pub open spec fn ser_nat(n: nat) -> Seq<char>
    decreases n,
{
    if n < 10 {
        seq![digit_char(n)]
    } else {
        ser_nat(n / 10).push(digit_char(n % 10))
    }
}

/// The number a digit string denotes.
pub open spec fn dec_val(s: Seq<char>) -> nat
    decreases s.len(),
{
    if s.len() == 0 {
        0
    } else {
        dec_val(s.drop_last()) * 10 + digit_val(s.last())
    }
}

/// Whether every character of `s` is a digit.
pub open spec fn all_digits(s: Seq<char>) -> bool {
    forall|k: int| 0 <= k < s.len() ==> is_digit(#[trigger] s[k])
}

/// The canonical spelling of `n` stands at `i` in `s`, followed by the end
/// of the text or by a character that no spelling could continue with.
pub open spec fn num_at(s: Seq<char>, i: int, n: nat) -> bool {
    let t = ser_nat(n);
    &&& 0 <= i
    &&& i + t.len() <= s.len()
    &&& s.subrange(i, i + t.len()) == t
    &&& (i + t.len() == s.len() || !is_digit(s[i + t.len()]))
}

/// A canonical spelling holds digits only, and a leading zero only for zero
/// itself.
proof fn lemma_ser_nat_shape(n: nat)
    ensures
        ser_nat(n).len() >= 1,
        all_digits(ser_nat(n)),
        n > 0 ==> ser_nat(n)[0] != '0',
        n == 0 ==> ser_nat(n) == seq!['0'],
        n < 10 ==> ser_nat(n) == seq![digit_char(n)],
    decreases n,
{
    if n < 10 {
        assert(digit_char(n) as int == 48 + n);
    } else {
        lemma_ser_nat_shape(n / 10);
        assert(ser_nat(n)[0] == ser_nat(n / 10)[0]);
        assert(digit_char(n % 10) as int == 48 + n % 10);
    }
}

/// Reading back the canonical spelling yields the number.
proof fn lemma_dec_val_ser_nat(n: nat)
    ensures
        dec_val(ser_nat(n)) == n,
    decreases n,
{
    if n < 10 {
        assert(dec_val(Seq::<char>::empty()) == 0);
        assert(ser_nat(n).drop_last() =~= Seq::<char>::empty());
        assert(ser_nat(n).last() == digit_char(n));
        assert(digit_val(digit_char(n)) == n);
    } else {
        lemma_dec_val_ser_nat(n / 10);
        assert(ser_nat(n).drop_last() =~= ser_nat(n / 10));
        assert(ser_nat(n).last() == digit_char(n % 10));
        assert(digit_val(digit_char(n % 10)) == n % 10);
        assert(n / 10 * 10 + n % 10 == n) by {
            vstd::arithmetic::div_mod::lemma_fundamental_div_mod(n as int, 10);
        }
    }
}

/// A digit string without a leading zero spells back to itself.
proof fn lemma_ser_nat_dec_val(s: Seq<char>)
    requires
        s.len() >= 1,
        all_digits(s),
        s.len() > 1 ==> s[0] != '0',
    ensures
        ser_nat(dec_val(s)) == s,
    decreases s.len(),
{
    if s.len() == 1 {
        assert(dec_val(Seq::<char>::empty()) == 0);
        assert(s.drop_last() =~= Seq::<char>::empty());
        assert(s.last() == s[0]);
        assert(dec_val(s) == digit_val(s[0]));
        assert(digit_char(digit_val(s[0])) == s[0]);
        assert(ser_nat(dec_val(s)) =~= s);
    } else {
        let d = s.drop_last();
        assert(all_digits(d));
        lemma_ser_nat_dec_val(d);
        lemma_dec_val_lower(d);
        let n = dec_val(s);
        assert(n == dec_val(d) * 10 + digit_val(s.last()));
        assert(dec_val(d) >= 1);
        assert(n >= 10);
        assert(n / 10 == dec_val(d) && n % 10 == digit_val(s.last())) by {
            vstd::arithmetic::div_mod::lemma_fundamental_div_mod_converse(
                n as int,
                10,
                dec_val(d) as int,
                digit_val(s.last()) as int,
            );
        }
        assert(digit_char(digit_val(s.last())) == s.last());
        assert(ser_nat(n) =~= s);
    }
}

/// A nonempty digit string without a leading zero denotes at least one.
proof fn lemma_dec_val_lower(s: Seq<char>)
    requires
        s.len() >= 1,
        s[0] != '0',
        all_digits(s),
    ensures
        dec_val(s) >= 1,
    decreases s.len(),
{
    if s.len() == 1 {
        assert(digit_val(s[0]) >= 1);
    } else {
        let d = s.drop_last();
        lemma_dec_val_lower(d);
    }
}

/// A prefix of a digit string never denotes more than the whole.
proof fn lemma_dec_val_prefix(s: Seq<char>, k: int)
    requires
        0 <= k <= s.len(),
    ensures
        dec_val(s.subrange(0, k)) <= dec_val(s),
    decreases s.len() - k,
{
    if k < s.len() {
        lemma_dec_val_prefix(s, k + 1);
        assert(s.subrange(0, k + 1).drop_last() =~= s.subrange(0, k));
        assert(dec_val(s.subrange(0, k + 1)) == dec_val(s.subrange(0, k)) * 10 + digit_val(
            s[k],
        ));
        assert(s.subrange(0, s.len() as int) =~= s);
    } else {
        assert(s.subrange(0, k) =~= s);
    }
}

/// The digit character for `d`, executably.
fn digit_char_of(d: u64) -> (c: char)
    requires
        d < 10,
    ensures
        c == digit_char(d as nat),
{
    ((48 + d) as u8) as char
}

/// Append the canonical decimal spelling of `n`.
fn push_u64(out: &mut Vec<char>, n: u64)
    ensures
        final(out)@ == old(out)@ + ser_nat(n as nat),
    decreases n,
{
    if n < 10 {
        out.push(digit_char_of(n));
        proof {
            assert(final(out)@ =~= old(out)@ + ser_nat(n as nat));
        }
    } else {
        push_u64(out, n / 10);
        out.push(digit_char_of(n % 10));
        proof {
            assert(final(out)@ =~= old(out)@ + ser_nat(n as nat));
        }
    }
}

/// The value of a digit character, executably.
fn digit_val_of(c: char) -> (r: Option<u64>)
    ensures
        r is Some <==> is_digit(c),
        r matches Some(d) ==> d < 10 && d as nat == digit_val(c),
{
    let u = c as u32;
    if 48 <= u && u <= 57 {
        Some((u - 48) as u64)
    } else {
        None
    }
}

/// Read a canonical decimal number at `i`.
///
/// Exactly the canonical spellings are accepted: digits up to the first
/// non-digit, no sign, no leading zero, value fitting an unsigned 64-bit
/// integer.
#[verifier::loop_isolation(false)]
pub(crate) fn parse_u64(v: &Vec<char>, i: usize) -> (r: Result<(u64, usize), ()>)
    requires
        i <= v@.len(),
    ensures
        r matches Ok((n, j)) ==> i <= j <= v@.len() && v@.subrange(i as int, j as int) == ser_nat(
            n as nat,
        ) && (j == v@.len() || !is_digit(v@[j as int])),
        forall|n: nat| num_at(v@, i as int, n) && n <= u64::MAX ==> r == Ok::<_, ()>(
            (n as u64, (i + ser_nat(n).len()) as usize),
        ),
{
    let ghost s = v@;
    if i >= v.len() {
        proof {
            assert forall|n: nat| num_at(s, i as int, n) && n <= u64::MAX implies false by {
                lemma_ser_nat_shape(n);
            }
        }
        return Err(());
    }
    if digit_val_of(v[i]).is_none() {
        proof {
            assert forall|n: nat| num_at(s, i as int, n) && n <= u64::MAX implies false by {
                lemma_ser_nat_shape(n);
                assert(s[i as int] == ser_nat(n)[0]);
            }
        }
        return Err(());
    }
    if v[i] == '0' && i + 1 < v.len() && digit_val_of(v[i + 1]).is_some() {
        proof {
            assert forall|n: nat| num_at(s, i as int, n) && n <= u64::MAX implies false by {
                lemma_ser_nat_shape(n);
                assert(s[i as int] == ser_nat(n)[0]);
                if n == 0 {
                    assert(ser_nat(n).len() == 1);
                    assert(is_digit(s[i as int + 1]));
                }
            }
        }
        return Err(());
    }
    let mut j: usize = i;
    let mut acc: u64 = 0;
    while j < v.len() && digit_val_of(v[j]).is_some()
        invariant
            i <= j <= v@.len(),
            forall|k: int| i <= k < j ==> is_digit(#[trigger] s[k]),
            j > i ==> acc as nat == dec_val(s.subrange(i as int, j as int)),
            j > i ==> (s.subrange(i as int, j as int).len() > 1 ==> s[i as int] != '0'),
            j == i ==> acc == 0,
        decreases v@.len() - j,
    {
        let d = digit_val_of(v[j]).unwrap();
        let ghost run = s.subrange(i as int, j as int + 1);
        proof {
            assert(run.drop_last() =~= s.subrange(i as int, j as int));
            if j > i {
                assert(dec_val(run) == acc as nat * 10 + d as nat);
            } else {
                assert(dec_val(Seq::<char>::empty()) == 0);
                assert(run.drop_last() =~= Seq::<char>::empty());
                assert(run.last() == s[i as int]);
                assert(dec_val(run) == digit_val(s[i as int]));
            }
        }
        // guard the accumulator against numbers that cannot be represented
        if acc > (u64::MAX - d) / 10 {
            proof {
                assert forall|n: nat| num_at(s, i as int, n) && n <= u64::MAX implies false by {
                    lemma_ser_nat_shape(n);
                    let t = ser_nat(n);
                    // the parser is still inside the digit run of `n`
                    assert(i + t.len() > j) by {
                        if i + t.len() <= j {
                            if i + t.len() < j {
                                assert(is_digit(s[i + t.len()]));
                            } else {
                                assert(is_digit(s[j as int]));
                            }
                        }
                    }
                    assert(run =~= t.subrange(0, j as int + 1 - i));
                    lemma_dec_val_prefix(t, j as int + 1 - i);
                    lemma_dec_val_ser_nat(n);
                    assert(dec_val(run) <= n);
                    assert(acc as nat * 10 + d as nat > u64::MAX) by (nonlinear_arith)
                        requires
                            acc > (u64::MAX - d) / 10,
                            d < 10,
                    ;
                    if j > i {
                    } else {
                        assert(dec_val(run) < 10);
                    }
                }
            }
            return Err(());
        }
        acc = acc * 10 + d;
        j = j + 1;
    }
    let ghost run = s.subrange(i as int, j as int);
    proof {
        assert(j > i);
        assert(all_digits(run)) by {
            assert forall|k: int| 0 <= k < run.len() implies is_digit(run[k]) by {
                assert(run[k] == s[i + k]);
            }
        }
        lemma_ser_nat_dec_val(run);
        assert(num_at(s, i as int, acc as nat));
        assert forall|n: nat| num_at(s, i as int, n) && n <= u64::MAX implies n == acc as nat
            && i + ser_nat(n).len() == j by {
            lemma_num_at_agree(s, i as int, n, acc as nat);
        }
    }
    Ok((acc, j))
}

/// Two canonical spellings at the same position denote the same number.
proof fn lemma_num_at_agree(s: Seq<char>, i: int, m: nat, n: nat)
    requires
        num_at(s, i, m),
        num_at(s, i, n),
    ensures
        m == n,
{
    let tm = ser_nat(m);
    let tn = ser_nat(n);
    lemma_ser_nat_shape(m);
    lemma_ser_nat_shape(n);
    if tm.len() < tn.len() {
        assert(is_digit(tn[tm.len() as int]));
        assert(s[i + tm.len()] == tn[tm.len() as int]);
    } else if tn.len() < tm.len() {
        assert(is_digit(tm[tn.len() as int]));
        assert(s[i + tn.len()] == tm[tn.len() as int]);
    } else {
        assert(tm =~= tn);
        lemma_dec_val_ser_nat(m);
        lemma_dec_val_ser_nat(n);
    }
}

// ---------------------------------------------------------------------------
// Strings
// ---------------------------------------------------------------------------
/// The lowercase hexadecimal digit for `d` (`d < 16`).
pub open spec fn hex_char(d: nat) -> char {
    if d < 10 {
        digit_char(d)
    } else {
        (97 + (d - 10)) as char
    }
}

/// The canonical encoding of one string character: quote and backslash are
/// escaped, control characters become `\u00` escapes, everything else
/// stands for itself.
pub open spec fn esc_char(c: char) -> Seq<char> {
    if c == '"' {
        seq!['\\', '"']
    } else if c == '\\' {
        seq!['\\', '\\']
    } else if (c as int) < 32 {
        seq!['\\', 'u', '0', '0', hex_char((c as int / 16) as nat), hex_char((c as int % 16) as nat)]
    } else {
        seq![c]
    }
}

/// The canonical encoding of a string's characters.
pub open spec fn esc_str(s: Seq<char>) -> Seq<char>
    decreases s.len(),
{
    if s.len() == 0 {
        Seq::empty()
    } else {
        esc_char(s[0]) + esc_str(s.drop_first())
    }
}

/// The canonical quoted form of a string.
pub open spec fn jstr(s: Seq<char>) -> Seq<char> {
    seq!['"'] + esc_str(s) + seq!['"']
}

/// The canonical quoted form of `t` stands at `i` in `s`.
pub open spec fn jstr_at(s: Seq<char>, i: int, t: Seq<char>) -> bool {
    &&& 0 <= i
    &&& i + jstr(t).len() <= s.len()
    &&& s.subrange(i, i + jstr(t).len()) == jstr(t)
}

/// One character's encoding stands at `j` in `s`.
pub open spec fn esc_at(s: Seq<char>, j: int, c: char) -> bool {
    &&& 0 <= j
    &&& j + esc_char(c).len() <= s.len()
    &&& s.subrange(j, j + esc_char(c).len()) == esc_char(c)
}

/// The scalar value a character carries is bounded.
proof fn lemma_char_bound(c: char)
    ensures
        0 <= c as int <= 0x10FFFF,
{
}

/// A character's encoding never starts with a quote.
proof fn lemma_esc_char_first(c: char)
    ensures
        1 <= esc_char(c).len() <= 6,
        esc_char(c)[0] != '"',
{
}

/// Encoding a concatenation concatenates the encodings.
proof fn lemma_esc_str_concat(s1: Seq<char>, s2: Seq<char>)
    ensures
        esc_str(s1 + s2) == esc_str(s1) + esc_str(s2),
    decreases s1.len(),
{
    if s1.len() == 0 {
        assert(s1 + s2 =~= s2);
        assert(esc_str(s1) + esc_str(s2) =~= esc_str(s2));
    } else {
        assert((s1 + s2).drop_first() =~= s1.drop_first() + s2);
        lemma_esc_str_concat(s1.drop_first(), s2);
        assert((s1 + s2)[0] == s1[0]);
        assert(esc_str(s1 + s2) =~= esc_str(s1) + esc_str(s2));
    }
}

/// The encoding of a single character is that character's encoding.
proof fn lemma_esc_str_single(c: char)
    ensures
        esc_str(seq![c]) == esc_char(c),
{
    assert(seq![c].drop_first() =~= Seq::<char>::empty());
    assert(esc_str(Seq::<char>::empty()) =~= Seq::<char>::empty());
    assert(esc_str(seq![c]) =~= esc_char(c));
}

/// Appending a character to a string appends its encoding.
proof fn lemma_esc_str_push(s: Seq<char>, c: char)
    ensures
        esc_str(s.push(c)) == esc_str(s) + esc_char(c),
{
    assert(s.push(c) =~= s + seq![c]);
    lemma_esc_str_concat(s, seq![c]);
    lemma_esc_str_single(c);
}

/// The encoding of a string splits at any character.
proof fn lemma_esc_str_decompose(t: Seq<char>, k: int)
    requires
        0 <= k < t.len(),
    ensures
        esc_str(t) == esc_str(t.subrange(0, k)) + esc_char(t[k]) + esc_str(
            t.subrange(k + 1, t.len() as int),
        ),
{
    assert(t =~= t.subrange(0, k) + seq![t[k]] + t.subrange(k + 1, t.len() as int));
    lemma_esc_str_concat(t.subrange(0, k) + seq![t[k]], t.subrange(k + 1, t.len() as int));
    lemma_esc_str_concat(t.subrange(0, k), seq![t[k]]);
    lemma_esc_str_single(t[k]);
}

/// The lowercase hexadecimal digit for `d`, executably.
fn hex_char_of(d: u64) -> (c: char)
    requires
        d < 16,
    ensures
        c == hex_char(d as nat),
{
    if d < 10 {
        ((48 + d) as u8) as char
    } else {
        ((87 + d) as u8) as char
    }
}

/// The value of a lowercase hexadecimal digit, executably.
fn hex_val_of(c: char) -> (r: Option<u64>)
    ensures
        r matches Some(d) ==> d < 16 && hex_char(d as nat) == c,
        r is None ==> forall|d: nat| d < 16 ==> hex_char(d) != c,
{
    let u = c as u32;
    if 48 <= u && u <= 57 {
        Some((u - 48) as u64)
    } else if 97 <= u && u <= 102 {
        Some((u - 87) as u64)
    } else {
        proof {
            assert forall|d: nat| d < 16 implies hex_char(d) != c by {
                if d < 10 {
                    assert(hex_char(d) as int == 48 + d);
                } else {
                    assert(hex_char(d) as int == 87 + d);
                }
            }
        }
        None
    }
}

/// Append the canonical encoding of one character.
fn esc_push(out: &mut Vec<char>, c: char)
    ensures
        final(out)@ == old(out)@ + esc_char(c),
{
    if c == '"' {
        out.push('\\');
        out.push('"');
    } else if c == '\\' {
        out.push('\\');
        out.push('\\');
    } else {
        let u = c as u32;
        if u < 32 {
            out.push('\\');
            out.push('u');
            out.push('0');
            out.push('0');
            out.push(hex_char_of((u / 16) as u64));
            out.push(hex_char_of((u % 16) as u64));
        } else {
            out.push(c);
        }
    }
    proof {
        assert(out@ =~= old(out)@ + esc_char(c));
    }
}

/// Read the canonical encoding of one string character at `j`.
///
/// Exactly the encodings the writer produces are accepted; in particular a
/// raw control character, an uppercase or out-of-range `\u` escape, or any
/// escape the writer never emits is refused.
fn esc_read(v: &Vec<char>, j: usize) -> (r: Result<(char, usize), ()>)
    requires
        j < v@.len(),
    ensures
        r matches Ok((c, j2)) ==> j < j2 <= v@.len() && j2 == j + esc_char(c).len()
            && v@.subrange(j as int, j2 as int) == esc_char(c),
        forall|c: char| esc_at(v@, j as int, c) ==> (r matches Ok((c2, j2)) && c2 == c && j2 == j
            + esc_char(c).len()),
{
    let ghost s = v@;
    let n = v.len();
    let c0 = v[j];
    if c0 == '\\' {
        if v.len() - j < 2 {
            proof {
                assert forall|c: char| esc_at(s, j as int, c) implies false by {
                    lemma_esc_at_shape(s, j as int, c);
                }
            }
            return Err(());
        }
        let c1 = v[j + 1];
        if c1 == '"' {
            proof {
                assert(s.subrange(j as int, j as int + 2) =~= esc_char('"'));
                assert forall|c: char| esc_at(s, j as int, c) implies c == '"' by {
                    lemma_esc_at_shape(s, j as int, c);
                }
            }
            Ok(('"', j + 2))
        } else if c1 == '\\' {
            proof {
                assert(s.subrange(j as int, j as int + 2) =~= esc_char('\\'));
                assert forall|c: char| esc_at(s, j as int, c) implies c == '\\' by {
                    lemma_esc_at_shape(s, j as int, c);
                }
            }
            Ok(('\\', j + 2))
        } else if c1 == 'u' {
            if v.len() - j < 6 {
                proof {
                    assert forall|c: char| esc_at(s, j as int, c) implies false by {
                        lemma_esc_at_shape(s, j as int, c);
                    }
                }
                return Err(());
            }
            if v[j + 2] != '0' || v[j + 3] != '0' {
                proof {
                    assert forall|c: char| esc_at(s, j as int, c) implies false by {
                        lemma_esc_at_shape(s, j as int, c);
                    }
                }
                return Err(());
            }
            let h = hex_val_of(v[j + 4]);
            let hi = match h {
                Some(hi) => hi,
                None => {
                    proof {
                        assert forall|c: char| esc_at(s, j as int, c) implies false by {
                            lemma_char_bound(c);
                            lemma_esc_at_shape(s, j as int, c);
                            assert((c as int) < 32);
                            assert(esc_char(c)[4] == hex_char((c as int / 16) as nat));
                            assert(esc_char(c)[4] == s[j as int + 4]);
                            assert(((c as int / 16) as nat) < 16);
                            assert(hex_char((c as int / 16) as nat) != s[j as int + 4]);
                        }
                    }
                    return Err(());
                },
            };
            let l = hex_val_of(v[j + 5]);
            let lo = match l {
                Some(lo) => lo,
                None => {
                    proof {
                        assert forall|c: char| esc_at(s, j as int, c) implies false by {
                            lemma_char_bound(c);
                            lemma_esc_at_shape(s, j as int, c);
                            assert((c as int) < 32);
                            assert(esc_char(c)[5] == hex_char((c as int % 16) as nat));
                            assert(esc_char(c)[5] == s[j as int + 5]);
                            assert(((c as int % 16) as nat) < 16);
                            assert(hex_char((c as int % 16) as nat) != s[j as int + 5]);
                        }
                    }
                    return Err(());
                },
            };
            let code = hi * 16 + lo;
            if code >= 32 {
                proof {
                    assert forall|c: char| esc_at(s, j as int, c) implies false by {
                        lemma_char_bound(c);
                        lemma_esc_at_shape(s, j as int, c);
                        lemma_esc_read_u_case(s, j as int, c, hi, lo);
                    }
                }
                return Err(());
            }
            let c = (code as u8) as char;
            proof {
                assert(c as int == code as int);
                assert(code / 16 == hi && code % 16 == lo) by {
                    vstd::arithmetic::div_mod::lemma_fundamental_div_mod_converse(
                        code as int,
                        16,
                        hi as int,
                        lo as int,
                    );
                }
                assert(s.subrange(j as int, j as int + 6) =~= esc_char(c));
                assert forall|c2: char| esc_at(s, j as int, c2) implies c2 == c by {
                    lemma_char_bound(c2);
                    lemma_esc_at_shape(s, j as int, c2);
                    lemma_esc_read_u_case(s, j as int, c2, hi, lo);
                }
            }
            Ok((c, j + 6))
        } else {
            proof {
                assert forall|c: char| esc_at(s, j as int, c) implies false by {
                    lemma_esc_at_shape(s, j as int, c);
                }
            }
            return Err(());
        }
    } else if c0 == '"' {
        proof {
            assert forall|c: char| esc_at(s, j as int, c) implies false by {
                lemma_esc_at_shape(s, j as int, c);
            }
        }
        Err(())
    } else {
        if c0 <= '\u{1f}' {
            proof {
                assert forall|c: char| esc_at(s, j as int, c) implies false by {
                    lemma_esc_at_shape(s, j as int, c);
                    assert((c0 as int) < 32);
                }
            }
            Err(())
        } else {
            proof {
                assert(s.subrange(j as int, j as int + 1) =~= esc_char(c0));
                assert forall|c: char| esc_at(s, j as int, c) implies c == c0 by {
                    lemma_esc_at_shape(s, j as int, c);
                }
            }
            Ok((c0, j + 1))
        }
    }
}

/// The characters an encoding at `j` puts into the text.
proof fn lemma_esc_at_shape(s: Seq<char>, j: int, c: char)
    requires
        esc_at(s, j, c),
    ensures
        esc_char(c)[0] == s[j],
        esc_char(c).len() >= 2 ==> esc_char(c)[1] == s[j + 1],
        esc_char(c).len() == 6 ==> esc_char(c)[2] == s[j + 2] && esc_char(c)[3] == s[j + 3]
            && esc_char(c)[4] == s[j + 4] && esc_char(c)[5] == s[j + 5],
{
    let e = esc_char(c);
    assert forall|m: int| 0 <= m < e.len() implies e[m] == s[j + m] by {
        assert(s.subrange(j, j + e.len())[m] == s[j + m]);
    }
}

/// In a `\u00xy` escape the hexadecimal digits pin the character down.
proof fn lemma_esc_read_u_case(s: Seq<char>, j: int, c: char, hi: u64, lo: u64)
    requires
        esc_at(s, j, c),
        hi < 16,
        lo < 16,
        j + 6 <= s.len(),
        s[j] == '\\',
        s[j + 1] == 'u',
        s[j + 4] == hex_char(hi as nat),
        s[j + 5] == hex_char(lo as nat),
    ensures
        c as int == hi * 16 + lo,
        (c as int) < 32,
{
    lemma_char_bound(c);
    assert(esc_char(c)[0] == s[j]);
    if c == '"' || c == '\\' {
        assert(esc_char(c)[1] == s[j + 1]);
        assert(false);
    } else if (c as int) < 32 {
        assert(esc_char(c)[4] == s[j + 4]);
        assert(esc_char(c)[5] == s[j + 5]);
        lemma_hex_char_inj((c as int / 16) as nat, hi as nat);
        lemma_hex_char_inj((c as int % 16) as nat, lo as nat);
        assert(c as int == (c as int / 16) * 16 + (c as int % 16)) by {
            vstd::arithmetic::div_mod::lemma_fundamental_div_mod(c as int, 16);
        }
    } else {
        assert(esc_char(c) == seq![c]);
        assert(false);
    }
}

/// Distinct hexadecimal digit values have distinct digit characters.
proof fn lemma_hex_char_inj(a: nat, b: nat)
    requires
        a < 16,
        b < 16,
        hex_char(a) == hex_char(b),
    ensures
        a == b,
{
    if a < 10 {
        assert(hex_char(a) as int == 48 + a);
    } else {
        assert(hex_char(a) as int == 87 + a);
    }
    if b < 10 {
        assert(hex_char(b) as int == 48 + b);
    } else {
        assert(hex_char(b) as int == 87 + b);
    }
}

/// Append the canonical quoted form of a string.
#[verifier::loop_isolation(false)]
fn push_jstr(out: &mut Vec<char>, s: &Vec<char>)
    ensures
        final(out)@ == old(out)@ + jstr(s@),
{
    out.push('"');
    let mut k: usize = 0;
    while k < s.len()
        invariant
            k <= s@.len(),
            out@ == old(out)@ + seq!['"'] + esc_str(s@.subrange(0, k as int)),
        decreases s@.len() - k,
    {
        esc_push(out, s[k]);
        proof {
            lemma_esc_str_push(s@.subrange(0, k as int), s@[k as int]);
            assert(s@.subrange(0, k as int + 1) =~= s@.subrange(0, k as int).push(s@[k as int]));
            assert(out@ =~= old(out)@ + seq!['"'] + esc_str(s@.subrange(0, k as int + 1)));
        }
        k = k + 1;
    }
    out.push('"');
    proof {
        assert(s@.subrange(0, s@.len() as int) =~= s@);
        assert(out@ =~= old(out)@ + jstr(s@));
    }
}

/// Read a canonical quoted string at `i`.
#[verifier::loop_isolation(false)]
fn parse_string(v: &Vec<char>, i: usize) -> (r: Result<(Vec<char>, usize), ()>)
    requires
        i <= v@.len(),
    ensures
        r matches Ok((s, j)) ==> i < j <= v@.len() && v@.subrange(i as int, j as int) == jstr(s@),
        forall|t: Seq<char>| jstr_at(v@, i as int, t) ==> (r matches Ok((s, j)) && s@ == t && j == i
            + jstr(t).len()),
{
    let ghost w = v@;
    if i >= v.len() || v[i] != '"' {
        proof {
            assert forall|t: Seq<char>| jstr_at(w, i as int, t) implies false by {
                assert(w[i as int] == jstr(t)[0]);
            }
        }
        return Err(());
    }
    let mut out: Vec<char> = Vec::new();
    let mut j: usize = i + 1;
    loop
        invariant
            i + 1 <= j <= w.len(),
            w.subrange(i as int + 1, j as int) == esc_str(out@),
            forall|t: Seq<char>| jstr_at(w, i as int, t) ==> #[trigger] t.subrange(
                0,
                out@.len() as int,
            ) == out@ && out@.len() <= t.len() && j == i + 1 + esc_str(
                t.subrange(0, out@.len() as int),
            ).len(),
        decreases w.len() - j,
    {
        if j >= v.len() {
            proof {
                assert forall|t: Seq<char>| jstr_at(w, i as int, t) implies false by {
                    assert(t.subrange(0, out@.len() as int) == out@);
                    lemma_parse_string_step(w, i as int, j as int, out@, t);
                }
            }
            return Err(());
        }
        if v[j] == '"' {
            proof {
                assert(w.subrange(i as int, j as int + 1) =~= jstr(out@));
                assert forall|t: Seq<char>| jstr_at(w, i as int, t) implies t == out@ && j + 1 == i
                    + jstr(t).len() by {
                    assert(t.subrange(0, out@.len() as int) == out@);
                    if out@.len() < t.len() {
                        lemma_parse_string_step(w, i as int, j as int, out@, t);
                        let c = t[out@.len() as int];
                        lemma_esc_char_first(c);
                        assert(w[j as int] == esc_char(c)[0]);
                        assert(false);
                    }
                    assert(t.subrange(0, t.len() as int) =~= t);
                }
            }
            return Ok((out, j + 1));
        }
        match esc_read(v, j) {
            Ok((c, j2)) => {
                proof {
                    lemma_esc_str_push(out@, c);
                    assert(w.subrange(i as int + 1, j2 as int) =~= w.subrange(
                        i as int + 1,
                        j as int,
                    ) + w.subrange(j as int, j2 as int));
                    assert forall|t: Seq<char>| jstr_at(w, i as int, t) implies t.subrange(
                        0,
                        out@.len() as int + 1,
                    ) == out@.push(c) && out@.len() + 1 <= t.len() && j2 == i + 1 + esc_str(
                        t.subrange(0, out@.len() as int + 1),
                    ).len() by {
                        assert(t.subrange(0, out@.len() as int) == out@);
                        lemma_parse_string_continue(w, i as int, j as int, out@, t, c, j2 as int);
                    }
                }
                out.push(c);
                j = j2;
            },
            Err(()) => {
                proof {
                    assert forall|t: Seq<char>| jstr_at(w, i as int, t) implies false by {
                        assert(t.subrange(0, out@.len() as int) == out@);
                        lemma_parse_string_step(w, i as int, j as int, out@, t);
                        let c = t[out@.len() as int];
                        assert(esc_at(w, j as int, c));
                    }
                }
                return Err(());
            },
        }
    }
}

/// While reading a quoted string, either the decoded prefix is the whole
/// string and the closing quote follows, or the next character's encoding
/// stands at the current position.
proof fn lemma_parse_string_step(w: Seq<char>, i: int, j: int, pre: Seq<char>, t: Seq<char>)
    requires
        jstr_at(w, i, t),
        pre.len() <= t.len(),
        t.subrange(0, pre.len() as int) == pre,
        j == i + 1 + esc_str(pre).len(),
    ensures
        pre.len() < t.len() ==> esc_at(w, j, t[pre.len() as int]) && j + esc_char(
            t[pre.len() as int],
        ).len() <= i + jstr(t).len() - 1,
        pre.len() == t.len() ==> j == i + jstr(t).len() - 1 && w[j] == '"',
        j < w.len(),
{
    let n = jstr(t).len();
    if pre.len() < t.len() {
        let k = pre.len() as int;
        lemma_esc_str_decompose(t, k);
        assert(t.subrange(0, k) == pre);
        let a = esc_str(pre);
        let b = esc_char(t[k]);
        let c = esc_str(t.subrange(k + 1, t.len() as int));
        assert(esc_str(t) == a + b + c);
        assert forall|m: int| 0 <= m < b.len() implies w[j + m] == b[m] by {
            assert(jstr(t)[1 + a.len() + m] == b[m]);
            assert(w[i + (1 + a.len() + m)] == jstr(t)[1 + a.len() + m]);
        }
        assert(w.subrange(j, j + b.len()) =~= b);
        lemma_esc_char_first(t[k]);
    } else {
        assert(t.subrange(0, t.len() as int) =~= t);
        assert(esc_str(t) == esc_str(pre));
        assert(jstr(t)[1 + esc_str(t).len() as int] == '"');
        assert(w[i + (1 + esc_str(t).len())] == jstr(t)[1 + esc_str(t).len() as int]);
    }
}

/// One decoding step keeps the prefix correspondence.
proof fn lemma_parse_string_continue(
    w: Seq<char>,
    i: int,
    j: int,
    pre: Seq<char>,
    t: Seq<char>,
    c: char,
    j2: int,
)
    requires
        jstr_at(w, i, t),
        pre.len() <= t.len(),
        t.subrange(0, pre.len() as int) == pre,
        j == i + 1 + esc_str(pre).len(),
        j < w.len(),
        w[j] != '"',
        j2 == j + esc_char(c).len(),
        j2 <= w.len(),
        w.subrange(j, j2) == esc_char(c),
    ensures
        pre.len() + 1 <= t.len(),
        t.subrange(0, pre.len() as int + 1) == pre.push(c),
        j2 == i + 1 + esc_str(t.subrange(0, pre.len() as int + 1)).len(),
{
    lemma_parse_string_step(w, i, j, pre, t);
    if pre.len() == t.len() {
        assert(false);
    }
    let k = pre.len() as int;
    let ck = t[k];
    // the encodings of `c` and of `t[k]` stand at the same position: they
    // are the same encoding, so the characters agree
    assert(esc_at(w, j, ck));
    lemma_esc_char_agree(w, j, c, ck);
    assert(t.subrange(0, k + 1) =~= pre.push(c));
    lemma_esc_str_push(pre, c);
    assert(t.subrange(0, k + 1).subrange(0, k) =~= pre);
}

/// Two character encodings at the same position encode the same character.
proof fn lemma_esc_char_agree(w: Seq<char>, j: int, c1: char, c2: char)
    requires
        esc_at(w, j, c1),
        esc_at(w, j, c2),
    ensures
        c1 == c2,
{
    lemma_char_bound(c1);
    lemma_char_bound(c2);
    let e1 = esc_char(c1);
    let e2 = esc_char(c2);
    assert(e1[0] == w[j] && e2[0] == w[j]);
    let plain1 = c1 != '"' && c1 != '\\' && (c1 as int) >= 32;
    let plain2 = c2 != '"' && c2 != '\\' && (c2 as int) >= 32;
    if plain1 && plain2 {
        assert(c1 == w[j] && c2 == w[j]);
    } else if plain1 != plain2 {
        // one is plain, the other escaped: the first character differs
        assert(false);
    } else {
        // both escaped: the second character separates the three forms
        assert(e1[1] == w[j + 1] && e2[1] == w[j + 1]);
        if (c1 as int) < 32 && (c2 as int) < 32 {
            assert(e1[4] == w[j + 4] && e2[4] == w[j + 4]);
            assert(e1[5] == w[j + 5] && e2[5] == w[j + 5]);
            lemma_hex_char_inj((c1 as int / 16) as nat, (c2 as int / 16) as nat);
            lemma_hex_char_inj((c1 as int % 16) as nat, (c2 as int % 16) as nat);
            assert(c1 as int == (c1 as int / 16) * 16 + (c1 as int % 16)) by {
                vstd::arithmetic::div_mod::lemma_fundamental_div_mod(c1 as int, 16);
            }
            assert(c2 as int == (c2 as int / 16) * 16 + (c2 as int % 16)) by {
                vstd::arithmetic::div_mod::lemma_fundamental_div_mod(c2 as int, 16);
            }
        }
    }
}

// ---------------------------------------------------------------------------
// Entries and the document
// ---------------------------------------------------------------------------
/// The document's opening text, `{"version":`.
pub open spec fn l_doc_open() -> Seq<char> {
    seq!['{', '"', 'v', 'e', 'r', 's', 'i', 'o', 'n', '"', ':']
}

/// The text between the version and the entries, `,"data":{`.
pub open spec fn l_data() -> Seq<char> {
    seq![',', '"', 'd', 'a', 't', 'a', '"', ':', '{']
}

/// The text between an entry's key and its artwork, `:{"data":{"artwork":`.
pub open spec fn l_entry_open() -> Seq<char> {
    seq![':', '{', '"', 'd', 'a', 't', 'a', '"', ':', '{', '"', 'a', 'r', 't', 'w', 'o', 'r', 'k',
        '"', ':']
}

/// The text between artwork and share link, `,"url":`.
pub open spec fn l_url() -> Seq<char> {
    seq![',', '"', 'u', 'r', 'l', '"', ':']
}

/// The text between the share link and the timestamp, `},"created_at":`.
pub open spec fn l_created() -> Seq<char> {
    seq!['}', ',', '"', 'c', 'r', 'e', 'a', 't', 'e', 'd', '_', 'a', 't', '"', ':']
}

/// The spelling of an absent string.
pub open spec fn l_null() -> Seq<char> {
    seq!['n', 'u', 'l', 'l']
}

/// An optional string: `null`, or the quoted string.
pub open spec fn ser_opt_str(o: Option<Seq<char>>) -> Seq<char> {
    match o {
        None => l_null(),
        Some(t) => jstr(t),
    }
}

/// One entry: the quoted key, then the metadata object with its timestamp.
pub open spec fn ser_entry(k: Seq<char>, e: CacheEntryView) -> Seq<char> {
    jstr(k) + l_entry_open() + ser_opt_str(e.data.artwork) + l_url() + ser_opt_str(e.data.url)
        + l_created() + ser_nat(e.created_at as nat) + seq!['}']
}

/// The entries, comma-separated.
pub open spec fn ser_entries(s: EntriesView) -> Seq<char>
    decreases s.len(),
{
    if s.len() == 0 {
        Seq::empty()
    } else if s.len() == 1 {
        ser_entry(s[0].0, s[0].1)
    } else {
        ser_entry(s[0].0, s[0].1) + seq![','] + ser_entries(s.drop_first())
    }
}

/// The whole persisted document for a version and a store.
pub open spec fn ser_doc(version: u64, s: EntriesView) -> Seq<char> {
    l_doc_open() + ser_nat(version as nat) + l_data() + ser_entries(s) + seq!['}', '}']
}

/// `pat` stands at `i` in `s`.
pub open spec fn lit_at(s: Seq<char>, i: int, pat: Seq<char>) -> bool {
    &&& 0 <= i
    &&& i + pat.len() <= s.len()
    &&& s.subrange(i, i + pat.len()) == pat
}

/// The spelling of an optional string stands at `i` in `s`.
pub open spec fn opt_str_at(s: Seq<char>, i: int, o: Option<Seq<char>>) -> bool {
    match o {
        None => lit_at(s, i, l_null()),
        Some(t) => jstr_at(s, i, t),
    }
}

/// One entry's text stands at `i` in `s`.
pub open spec fn entry_at(s: Seq<char>, i: int, k: Seq<char>, e: CacheEntryView) -> bool {
    lit_at(s, i, ser_entry(k, e))
}

/// Serialization appends one entry at a time.
proof fn lemma_ser_entries_push(s: EntriesView, p: (Seq<char>, CacheEntryView))
    ensures
        ser_entries(s.push(p)) == if s.len() == 0 {
            ser_entry(p.0, p.1)
        } else {
            ser_entries(s) + seq![','] + ser_entry(p.0, p.1)
        },
    decreases s.len(),
{
    let t = s.push(p);
    if s.len() == 0 {
        assert(t.len() == 1);
        assert(t[0] == p);
    } else {
        assert(t.drop_first() =~= s.drop_first().push(p));
        lemma_ser_entries_push(s.drop_first(), p);
        assert(t[0] == s[0]);
        if s.len() == 1 {
            assert(s.drop_first().len() == 0);
            assert(ser_entries(t) =~= ser_entries(s) + seq![','] + ser_entry(p.0, p.1));
        } else {
            assert(ser_entries(t) =~= ser_entries(s) + seq![','] + ser_entry(p.0, p.1));
        }
    }
}

/// A middle piece of a concatenation placed at `i` stands at its offset.
proof fn lemma_sub_at(w: Seq<char>, i: int, pre: Seq<char>, mid: Seq<char>, whole: Seq<char>)
    requires
        lit_at(w, i, whole),
        pre.len() + mid.len() <= whole.len(),
        whole.subrange(pre.len() as int, pre.len() as int + mid.len() as int) == mid,
    ensures
        lit_at(w, i + pre.len(), mid),
{
    let lp = pre.len() as int;
    let lm = mid.len() as int;
    assert forall|m: int| 0 <= m < lm implies w[i + lp + m] == mid[m] by {
        assert(w.subrange(i, i + whole.len())[lp + m] == w[i + lp + m]);
        assert(whole.subrange(lp, lp + lm)[m] == whole[lp + m]);
    }
    assert(w.subrange(i + lp, i + lp + lm) =~= mid);
}

/// Where each piece of an entry's text stands.
proof fn lemma_entry_at_parts(w: Seq<char>, i: int, k: Seq<char>, e: CacheEntryView)
    requires
        entry_at(w, i, k, e),
    ensures
        ({
            let p1 = i + jstr(k).len();
            let p2 = p1 + l_entry_open().len();
            let p3 = p2 + ser_opt_str(e.data.artwork).len();
            let p4 = p3 + l_url().len();
            let p5 = p4 + ser_opt_str(e.data.url).len();
            let p6 = p5 + l_created().len();
            let p7 = p6 + ser_nat(e.created_at as nat).len();
            &&& jstr_at(w, i, k)
            &&& lit_at(w, p1, l_entry_open())
            &&& opt_str_at(w, p2, e.data.artwork)
            &&& lit_at(w, p3, l_url())
            &&& opt_str_at(w, p4, e.data.url)
            &&& lit_at(w, p5, l_created())
            &&& num_at(w, p6, e.created_at as nat)
            &&& lit_at(w, p7, seq!['}'])
            &&& i + ser_entry(k, e).len() == p7 + 1
        }),
{
    let whole = ser_entry(k, e);
    let a = jstr(k);
    let b = l_entry_open();
    let c = ser_opt_str(e.data.artwork);
    let d = l_url();
    let f = ser_opt_str(e.data.url);
    let g = l_created();
    let h = ser_nat(e.created_at as nat);
    let la = a.len() as int;
    let lb = b.len() as int;
    let lc = c.len() as int;
    let ld = d.len() as int;
    let lf = f.len() as int;
    let lg = g.len() as int;
    let lh = h.len() as int;
    assert(whole.subrange(0, la) =~= a);
    lemma_sub_at(w, i, Seq::empty(), a, whole);
    assert(whole.subrange(la, la + lb) =~= b);
    lemma_sub_at(w, i, a, b, whole);
    assert((a + b).len() == la + lb);
    assert(whole.subrange(la + lb, la + lb + lc) =~= c);
    lemma_sub_at(w, i, a + b, c, whole);
    assert(whole.subrange(la + lb + lc, la + lb + lc + ld) =~= d);
    lemma_sub_at(w, i, a + b + c, d, whole);
    assert(whole.subrange(la + lb + lc + ld, la + lb + lc + ld + lf) =~= f);
    lemma_sub_at(w, i, a + b + c + d, f, whole);
    assert(whole.subrange(la + lb + lc + ld + lf, la + lb + lc + ld + lf + lg) =~= g);
    lemma_sub_at(w, i, a + b + c + d + f, g, whole);
    assert(whole.subrange(la + lb + lc + ld + lf + lg, la + lb + lc + ld + lf + lg + lh) =~= h);
    lemma_sub_at(w, i, a + b + c + d + f + g, h, whole);
    assert(whole.subrange(la + lb + lc + ld + lf + lg + lh, whole.len() as int) =~= seq!['}']);
    lemma_sub_at(w, i, a + b + c + d + f + g + h, seq!['}'], whole);
    // the timestamp is followed by the closing brace, which no spelling
    // could continue with
    let p6 = i + la + lb + lc + ld + lf + lg;
    assert(w[p6 + lh] == '}') by {
        assert(w.subrange(p6 + lh, p6 + lh + 1)[0] == w[p6 + lh]);
    }
    lemma_ser_nat_shape(e.created_at as nat);
}

/// Whether `pat` stands at `i`; when it does, the position just after it.
#[verifier::loop_isolation(false)]
fn expect(v: &Vec<char>, i: usize, pat: &Vec<char>) -> (r: Option<usize>)
    requires
        i <= v@.len(),
    ensures
        r matches Some(j) ==> j == i + pat@.len() && j <= v@.len() && v@.subrange(
            i as int,
            j as int,
        ) == pat@,
        r is None ==> !lit_at(v@, i as int, pat@),
{
    if pat.len() > v.len() - i {
        return None;
    }
    let mut m: usize = 0;
    while m < pat.len()
        invariant
            m <= pat@.len(),
            forall|q: int| 0 <= q < m ==> v@[i + q] == pat@[q],
        decreases pat@.len() - m,
    {
        if v[i + m] != pat[m] {
            proof {
                if lit_at(v@, i as int, pat@) {
                    assert(v@.subrange(i as int, i + pat@.len())[m as int] == v@[i + m]);
                }
            }
            return None;
        }
        m = m + 1;
    }
    proof {
        assert(v@.subrange(i as int, i + pat@.len()) =~= pat@);
    }
    Some(i + pat.len())
}

/// Read `null` or a quoted string at `i`.
fn parse_opt_str(v: &Vec<char>, i: usize) -> (r: Result<(Option<String>, usize), ()>)
    requires
        i <= v@.len(),
    ensures
        r matches Ok((o, j)) ==> i <= j <= v@.len() && v@.subrange(i as int, j as int)
            == ser_opt_str(o.deep_view()) && j == i + ser_opt_str(o.deep_view()).len(),
        forall|o: Option<Seq<char>>| opt_str_at(v@, i as int, o) ==> (r matches Ok((o2, j)) && o2.deep_view()
            == o && j == i + ser_opt_str(o).len()),
{
    let ghost w = v@;
    if i < v.len() && v[i] == 'n' {
        let pat: Vec<char> = vec!['n', 'u', 'l', 'l'];
        proof {
            assert(pat@ =~= l_null());
        }
        match expect(v, i, &pat) {
            Some(j) => {
                proof {
                    assert forall|o: Option<Seq<char>>| opt_str_at(w, i as int, o) implies o is None by {
                        match o {
                            Some(t) => assert(w[i as int] == jstr(t)[0]),
                            None => (),
                        }
                    }
                }
                Ok((None, j))
            },
            None => {
                proof {
                    assert forall|o: Option<Seq<char>>| opt_str_at(w, i as int, o) implies false by {
                        match o {
                            Some(t) => assert(w[i as int] == jstr(t)[0]),
                            None => (),
                        }
                    }
                }
                Err(())
            },
        }
    } else {
        match parse_string(v, i) {
            Ok((cs, j)) => {
                let st = chars_to_string(&cs);
                proof {
                    assert forall|o: Option<Seq<char>>| opt_str_at(w, i as int, o) implies o matches Some(t)
                        && t == cs@ by {
                        if o is None {
                            assert(w[i as int] == l_null()[0]);
                        }
                    }
                }
                Ok((Some(st), j))
            },
            Err(()) => {
                proof {
                    assert forall|o: Option<Seq<char>>| opt_str_at(w, i as int, o) implies false by {
                        if o is None {
                            assert(w[i as int] == l_null()[0]);
                        }
                    }
                }
                Err(())
            },
        }
    }
}

/// Read one entry at `i`.
fn parse_entry(v: &Vec<char>, i: usize) -> (r: Result<((String, CacheEntry), usize), ()>)
    requires
        i <= v@.len(),
    ensures
        r matches Ok((p, j)) ==> i <= j <= v@.len() && v@.subrange(i as int, j as int) == ser_entry(
            p.0@,
            p.1@,
        ) && j == i + ser_entry(p.0@, p.1@).len(),
        forall|k: Seq<char>, e: CacheEntryView| entry_at(v@, i as int, k, e) ==> (r matches Ok(
            (p, j),
        ) && p.0@ == k && p.1@ == e && j == i + ser_entry(k, e).len()),
{
    let ghost w = v@;
    let key;
    let p1;
    match parse_string(v, i) {
        Ok((cs, j)) => {
            key = cs;
            p1 = j;
        },
        Err(()) => {
            proof {
                assert forall|k: Seq<char>, e: CacheEntryView| entry_at(w, i as int, k, e) implies false by {
                    lemma_entry_at_parts(w, i as int, k, e);
                }
            }
            return Err(());
        },
    }
    let pat_open: Vec<char> = vec![':', '{', '"', 'd', 'a', 't', 'a', '"', ':', '{', '"', 'a', 'r',
        't', 'w', 'o', 'r', 'k', '"', ':'];
    proof {
        assert(pat_open@ =~= l_entry_open());
    }
    let p2;
    match expect(v, p1, &pat_open) {
        Some(j) => {
            p2 = j;
        },
        None => {
            proof {
                assert forall|k: Seq<char>, e: CacheEntryView| entry_at(w, i as int, k, e) implies false by {
                    lemma_entry_at_parts(w, i as int, k, e);
                }
            }
            return Err(());
        },
    }
    let artwork;
    let p3;
    match parse_opt_str(v, p2) {
        Ok((o, j)) => {
            artwork = o;
            p3 = j;
        },
        Err(()) => {
            proof {
                assert forall|k: Seq<char>, e: CacheEntryView| entry_at(w, i as int, k, e) implies false by {
                    lemma_entry_at_parts(w, i as int, k, e);
                }
            }
            return Err(());
        },
    }
    let pat_url: Vec<char> = vec![',', '"', 'u', 'r', 'l', '"', ':'];
    proof {
        assert(pat_url@ =~= l_url());
    }
    let p4;
    match expect(v, p3, &pat_url) {
        Some(j) => {
            p4 = j;
        },
        None => {
            proof {
                assert forall|k: Seq<char>, e: CacheEntryView| entry_at(w, i as int, k, e) implies false by {
                    lemma_entry_at_parts(w, i as int, k, e);
                }
            }
            return Err(());
        },
    }
    let url;
    let p5;
    match parse_opt_str(v, p4) {
        Ok((o, j)) => {
            url = o;
            p5 = j;
        },
        Err(()) => {
            proof {
                assert forall|k: Seq<char>, e: CacheEntryView| entry_at(w, i as int, k, e) implies false by {
                    lemma_entry_at_parts(w, i as int, k, e);
                }
            }
            return Err(());
        },
    }
    let pat_created: Vec<char> = vec!['}', ',', '"', 'c', 'r', 'e', 'a', 't', 'e', 'd', '_', 'a',
        't', '"', ':'];
    proof {
        assert(pat_created@ =~= l_created());
    }
    let p6;
    match expect(v, p5, &pat_created) {
        Some(j) => {
            p6 = j;
        },
        None => {
            proof {
                assert forall|k: Seq<char>, e: CacheEntryView| entry_at(w, i as int, k, e) implies false by {
                    lemma_entry_at_parts(w, i as int, k, e);
                }
            }
            return Err(());
        },
    }
    let created_at;
    let p7;
    match parse_u64(v, p6) {
        Ok((n, j)) => {
            created_at = n;
            p7 = j;
        },
        Err(()) => {
            proof {
                assert forall|k: Seq<char>, e: CacheEntryView| entry_at(w, i as int, k, e) implies false by {
                    lemma_entry_at_parts(w, i as int, k, e);
                }
            }
            return Err(());
        },
    }
    let pat_close: Vec<char> = vec!['}'];
    proof {
        assert(pat_close@ =~= seq!['}']);
    }
    let p8;
    match expect(v, p7, &pat_close) {
        Some(j) => {
            p8 = j;
        },
        None => {
            proof {
                assert forall|k: Seq<char>, e: CacheEntryView| entry_at(w, i as int, k, e) implies false by {
                    lemma_entry_at_parts(w, i as int, k, e);
                }
            }
            return Err(());
        },
    }
    let key_string = chars_to_string(&key);
    let entry = CacheEntry {
        data: ITunesInfos { artwork, url },
        created_at,
    };
    proof {
        assert(w.subrange(i as int, p8 as int) =~= ser_entry(key_string@, entry@));
        assert forall|k: Seq<char>, e: CacheEntryView| entry_at(w, i as int, k, e) implies
            key_string@ == k && entry@ == e && p8 == i + ser_entry(k, e).len() by {
            lemma_entry_at_parts(w, i as int, k, e);
        }
    }
    Ok(((key_string, entry), p8))
}


/// A version and a store whose document this text is.
pub open spec fn doc_at(s: Seq<char>, version: u64, es: EntriesView) -> bool {
    s == ser_doc(version, es) && unique_keys(es)
}

/// Append a literal.
#[verifier::loop_isolation(false)]
fn push_all(out: &mut Vec<char>, pat: &Vec<char>)
    ensures
        final(out)@ == old(out)@ + pat@,
{
    let mut m: usize = 0;
    while m < pat.len()
        invariant
            m <= pat@.len(),
            out@ == old(out)@ + pat@.subrange(0, m as int),
        decreases pat@.len() - m,
    {
        out.push(pat[m]);
        proof {
            assert(pat@.subrange(0, m as int + 1) =~= pat@.subrange(0, m as int).push(
                pat@[m as int],
            ));
            assert(out@ =~= old(out)@ + pat@.subrange(0, m as int + 1));
        }
        m = m + 1;
    }
    proof {
        assert(pat@.subrange(0, pat@.len() as int) =~= pat@);
    }
}

/// Append an optional string: `null` or its quoted form.
fn push_opt_str(out: &mut Vec<char>, o: &Option<String>)
    ensures
        final(out)@ == old(out)@ + ser_opt_str(o.deep_view()),
{
    match o {
        None => {
            out.push('n');
            out.push('u');
            out.push('l');
            out.push('l');
            proof {
                assert(out@ =~= old(out)@ + l_null());
            }
        },
        Some(t) => {
            let cs = str_chars(t.as_str());
            push_jstr(out, &cs);
        },
    }
}

/// Write the whole document for a version and a store.
#[verifier::loop_isolation(false)]
#[verifier::rlimit(100)]
pub fn serialize_cache(version: u64, data: &Vec<(String, CacheEntry)>) -> (r: Vec<char>)
    ensures
        r@ == ser_doc(version, kv_view(data@)),
{
    let mut out: Vec<char> = Vec::new();
    let pat_open: Vec<char> = vec!['{', '"', 'v', 'e', 'r', 's', 'i', 'o', 'n', '"', ':'];
    proof {
        assert(pat_open@ =~= l_doc_open());
    }
    push_all(&mut out, &pat_open);
    push_u64(&mut out, version);
    let pat_data: Vec<char> = vec![',', '"', 'd', 'a', 't', 'a', '"', ':', '{'];
    proof {
        assert(pat_data@ =~= l_data());
    }
    push_all(&mut out, &pat_data);
    let ghost head = l_doc_open() + ser_nat(version as nat) + l_data();
    proof {
        assert(out@ =~= head);
    }
    let pat_eo: Vec<char> = vec![':', '{', '"', 'd', 'a', 't', 'a', '"', ':', '{', '"', 'a', 'r',
        't', 'w', 'o', 'r', 'k', '"', ':'];
    let pat_url: Vec<char> = vec![',', '"', 'u', 'r', 'l', '"', ':'];
    let pat_created: Vec<char> = vec!['}', ',', '"', 'c', 'r', 'e', 'a', 't', 'e', 'd', '_', 'a',
        't', '"', ':'];
    proof {
        assert(pat_eo@ =~= l_entry_open());
        assert(pat_url@ =~= l_url());
        assert(pat_created@ =~= l_created());
    }
    let mut i: usize = 0;
    while i < data.len()
        invariant
            i <= data@.len(),
            out@ == head + ser_entries(kv_view(data@.subrange(0, i as int))),
        decreases data@.len() - i,
    {
        let ghost pre = kv_view(data@.subrange(0, i as int));
        let ghost pv = kv_view(data@)[i as int];
        proof {
            assert(pre.len() == i);
        }
        if i > 0 {
            out.push(',');
        }
        let key_chars = str_chars(data[i].0.as_str());
        push_jstr(&mut out, &key_chars);
        push_all(&mut out, &pat_eo);
        push_opt_str(&mut out, &data[i].1.data.artwork);
        push_all(&mut out, &pat_url);
        push_opt_str(&mut out, &data[i].1.data.url);
        push_all(&mut out, &pat_created);
        push_u64(&mut out, data[i].1.created_at);
        out.push('}');
        proof {
            lemma_ser_entries_push(pre, pv);
            assert(data@.subrange(0, i as int + 1) =~= data@.subrange(0, i as int).push(
                data@[i as int],
            ));
            assert(kv_view(data@.subrange(0, i as int + 1)) =~= pre.push(pv));
            if i > 0 {
                assert(out@ =~= head + (ser_entries(pre) + seq![','] + ser_entry(pv.0, pv.1)));
            } else {
                assert(out@ =~= head + ser_entry(pv.0, pv.1));
            }
            assert(out@ =~= head + ser_entries(kv_view(data@.subrange(0, i as int + 1))));
        }
        i = i + 1;
    }
    out.push('}');
    out.push('}');
    proof {
        assert(data@.subrange(0, data@.len() as int) =~= data@);
        assert(out@ =~= ser_doc(version, kv_view(data@)));
    }
    out
}

/// Where each piece of the document's text stands.
proof fn lemma_doc_at_parts(w: Seq<char>, ver0: u64, es0: EntriesView)
    requires
        w == ser_doc(ver0, es0),
    ensures
        lit_at(w, 0, l_doc_open()),
        num_at(w, l_doc_open().len() as int, ver0 as nat),
        lit_at(w, l_doc_open().len() as int + ser_nat(ver0 as nat).len() as int, l_data()),
        w.subrange(
            l_doc_open().len() as int + ser_nat(ver0 as nat).len() as int + l_data().len() as int,
            w.len() as int,
        ) == ser_entries(es0) + seq!['}', '}'],
{
    let a = l_doc_open();
    let b = ser_nat(ver0 as nat);
    let c = l_data();
    let d = ser_entries(es0) + seq!['}', '}'];
    let la = a.len() as int;
    let lb = b.len() as int;
    let lc = c.len() as int;
    assert(w =~= a + b + c + d);
    assert(lit_at(w, 0, w)) by {
        assert(w.subrange(0, w.len() as int) =~= w);
    }
    assert(w.subrange(0, la) =~= a);
    lemma_sub_at(w, 0, Seq::empty(), a, w);
    assert(w.subrange(la, la + lb) =~= b);
    lemma_sub_at(w, 0, a, b, w);
    assert(w.subrange(la + lb, la + lb + lc) =~= c);
    lemma_sub_at(w, 0, a + b, c, w);
    assert(w.subrange(la + lb + lc, w.len() as int) =~= d);
    // the version number is followed by a comma, which no spelling could
    // continue with
    assert(w[la + lb] == ',') by {
        assert(w.subrange(la + lb, la + lb + lc)[0] == w[la + lb]);
    }
    lemma_ser_nat_shape(ver0 as nat);
}

/// Splitting text that stands at the end of the document.
proof fn lemma_suffix_split(w: Seq<char>, pos: int, x: Seq<char>, y: Seq<char>)
    requires
        0 <= pos <= w.len(),
        w.subrange(pos, w.len() as int) == x + y,
    ensures
        lit_at(w, pos, x),
        w.subrange(pos + x.len(), w.len() as int) == y,
{
    let lx = x.len() as int;
    assert(w.subrange(pos, w.len() as int).len() == (x + y).len());
    assert(w.subrange(pos, w.len() as int).len() == w.len() - pos);
    assert((x + y).len() == x.len() + y.len());
    assert(w.len() - pos == lx + y.len());
    assert forall|m: int| 0 <= m < lx implies w[pos + m] == x[m] by {
        assert(w.subrange(pos, w.len() as int)[m] == w[pos + m]);
        assert((x + y)[m] == x[m]);
    }
    assert(w.subrange(pos, pos + lx) =~= x);
    assert forall|m: int| 0 <= m < y.len() implies w[pos + lx + m] == y[m] by {
        assert(w.subrange(pos, w.len() as int)[lx + m] == w[pos + lx + m]);
    }
    assert(w.subrange(pos + lx, w.len() as int) =~= y);
}

/// The entries' text begins with the first entry's text.
proof fn lemma_ser_entries_first(es: EntriesView)
    requires
        es.len() > 0,
    ensures
        ser_entries(es) == ser_entry(es[0].0, es[0].1) + (if es.len() == 1 {
            Seq::<char>::empty()
        } else {
            seq![','] + ser_entries(es.drop_first())
        }),
{
    if es.len() == 1 {
        assert(ser_entries(es) =~= ser_entry(es[0].0, es[0].1) + Seq::<char>::empty());
    }
}

/// Read a whole document.
///
/// Exactly the canonical documents are accepted: whatever this reader
/// accepts, the writer would have produced from the result, and whatever
/// the writer produced is read back as the version and entries it was
/// written from.
#[verifier::rlimit(100)]
pub fn parse_doc(v: &Vec<char>) -> (r: Result<(u64, Vec<(String, CacheEntry)>), ()>)
    ensures
        r matches Ok((ver, es)) ==> v@ == ser_doc(ver, kv_view(es@)) && unique_keys(kv_view(es@)),
        forall|ver0: u64, es0: EntriesView| doc_at(v@, ver0, es0) ==> (r matches Ok((ver2, es2))
            && ver2 == ver0 && kv_view(es2@) == es0),
{
    let ghost w = v@;
    let pat_open: Vec<char> = vec!['{', '"', 'v', 'e', 'r', 's', 'i', 'o', 'n', '"', ':'];
    let pat_data: Vec<char> = vec![',', '"', 'd', 'a', 't', 'a', '"', ':', '{'];
    let pat_rbrace: Vec<char> = vec!['}'];
    proof {
        assert(pat_open@ =~= l_doc_open());
        assert(pat_data@ =~= l_data());
        assert(pat_rbrace@ =~= seq!['}']);
    }
    let p0;
    match expect(v, 0, &pat_open) {
        Some(j) => {
            p0 = j;
        },
        None => {
            proof {
                assert forall|ver0: u64, es0: EntriesView| doc_at(w, ver0, es0) implies false by {
                    lemma_doc_at_parts(w, ver0, es0);
                }
            }
            return Err(());
        },
    }
    let ver;
    let p1;
    match parse_u64(v, p0) {
        Ok((n, j)) => {
            ver = n;
            p1 = j;
        },
        Err(()) => {
            proof {
                assert forall|ver0: u64, es0: EntriesView| doc_at(w, ver0, es0) implies false by {
                    lemma_doc_at_parts(w, ver0, es0);
                }
            }
            return Err(());
        },
    }
    let p2;
    match expect(v, p1, &pat_data) {
        Some(j) => {
            p2 = j;
        },
        None => {
            proof {
                assert forall|ver0: u64, es0: EntriesView| doc_at(w, ver0, es0) implies false by {
                    lemma_doc_at_parts(w, ver0, es0);
                }
            }
            return Err(());
        },
    }
    let ghost head = l_doc_open() + ser_nat(ver as nat) + l_data();
    proof {
        assert(w.subrange(0, p2 as int) =~= head);
        assert forall|ver0: u64, es0: EntriesView| doc_at(w, ver0, es0) implies ver0 == ver && p2
            == head.len() && w.subrange(p2 as int, w.len() as int) == ser_entries(es0) + seq![
            '}',
            '}',
        ] by {
            lemma_doc_at_parts(w, ver0, es0);
        }
    }
    let mut entries: Vec<(String, CacheEntry)> = Vec::new();
    let mut pos: usize = p2;
    let mut closed = false;
    proof {
        assert(kv_view(entries@) =~= Seq::<(Seq<char>, CacheEntryView)>::empty());
    }
    if let Some(j) = expect(v, pos, &pat_rbrace) {
        pos = j;
        closed = true;
        proof {
            assert(w.subrange(0, pos as int) =~= head + ser_entries(kv_view(entries@)) + seq![
                '}',
            ]);
            assert forall|ver0: u64, es0: EntriesView| #[trigger] doc_at(w, ver0, es0) implies
                kv_view(entries@) == es0 && pos + 1 == w.len() && w.subrange(
                pos as int,
                w.len() as int,
            ) == seq!['}'] by {
                lemma_doc_at_parts(w, ver0, es0);
                if es0.len() > 0 {
                    lemma_ser_entries_first(es0);
                    assert(w.subrange(p2 as int, w.len() as int) =~= ser_entry(
                        es0[0].0,
                        es0[0].1,
                    ) + ((if es0.len() == 1 {
                        Seq::<char>::empty()
                    } else {
                        seq![','] + ser_entries(es0.drop_first())
                    }) + seq!['}', '}']));
                    lemma_suffix_split(
                        w,
                        p2 as int,
                        ser_entry(es0[0].0, es0[0].1),
                        (if es0.len() == 1 {
                            Seq::<char>::empty()
                        } else {
                            seq![','] + ser_entries(es0.drop_first())
                        }) + seq!['}', '}'],
                    );
                    lemma_entry_at_parts(w, p2 as int, es0[0].0, es0[0].1);
                    assert(jstr_at(w, p2 as int, es0[0].0));
                    assert(w[p2 as int] == jstr(es0[0].0)[0]) by {
                        assert(w.subrange(p2 as int, p2 + jstr(es0[0].0).len())[0] == w[p2 as int]);
                    }
                    assert(w[p2 as int] == '}') by {
                        assert(w.subrange(p2 as int, p2 as int + 1)[0] == w[p2 as int]);
                    }
                    assert(false);
                }
                assert(ser_entries(es0) =~= Seq::<char>::empty());
                assert(w.subrange(p2 as int, w.len() as int) =~= seq!['}'] + seq!['}']);
                lemma_suffix_split(w, p2 as int, seq!['}'], seq!['}']);
                assert(kv_view(entries@) =~= es0);
            }
        }
    } else {
        proof {
            assert(w.subrange(0, pos as int) =~= head + ser_entries(kv_view(entries@))
                + Seq::<char>::empty());
            assert forall|ver0: u64, es0: EntriesView| #[trigger] doc_at(w, ver0, es0) implies
                kv_view(entries@) == es0.subrange(0, entries@.len() as int) && entries@.len()
                < es0.len() && w.subrange(pos as int, w.len() as int) == ser_entries(
                es0.subrange(entries@.len() as int, es0.len() as int),
            ) + seq!['}', '}'] by {
                if es0.len() == 0 {
                    assert(ser_entries(es0) =~= Seq::<char>::empty());
                    assert(w.subrange(p2 as int, w.len() as int) =~= seq!['}'] + seq!['}']);
                    lemma_suffix_split(w, p2 as int, seq!['}'], seq!['}']);
                    assert(lit_at(w, p2 as int, pat_rbrace@));
                    assert(false);
                }
                assert(kv_view(entries@) =~= es0.subrange(0, 0));
                assert(es0.subrange(0, es0.len() as int) =~= es0);
            }
        }
    }
    while !closed
        invariant
            w == v@,
            head == l_doc_open() + ser_nat(ver as nat) + l_data(),
            pos <= w.len(),
            unique_keys(kv_view(entries@)),
            closed ==> w.subrange(0, pos as int) == head + ser_entries(kv_view(entries@)) + seq![
                '}',
            ],
            !closed ==> w.subrange(0, pos as int) == head + ser_entries(kv_view(entries@)) + (
            if entries@.len() > 0 {
                seq![',']
            } else {
                Seq::<char>::empty()
            }),
            forall|ver0: u64, es0: EntriesView| #[trigger] doc_at(w, ver0, es0) ==> ver0 == ver
                && (if closed {
                kv_view(entries@) == es0 && pos + 1 == w.len() && w.subrange(
                    pos as int,
                    w.len() as int,
                ) == seq!['}']
            } else {
                kv_view(entries@) == es0.subrange(0, entries@.len() as int) && entries@.len()
                    < es0.len() && w.subrange(pos as int, w.len() as int) == ser_entries(
                    es0.subrange(entries@.len() as int, es0.len() as int),
                ) + seq!['}', '}']
            }),
        decreases w.len() - pos,
    {
        let ghost k = entries@.len() as int;
        match parse_entry(v, pos) {
            Ok((p, j)) => {
                match crate::cache::find_index(&entries, p.0.as_str()) {
                    Some(_) => {
                        proof {
                            assert forall|ver0: u64, es0: EntriesView| doc_at(
                                w,
                                ver0,
                                es0,
                            ) implies false by {
                                lemma_doc_parse_step(w, pos as int, es0, k);
                                assert(p.0@ == es0[k].0);
                            }
                        }
                        return Err(());
                    },
                    None => {
                    },
                }
                let ghost pre_entries = entries@;
                entries.push(p);
                proof {
                    assert(kv_view(entries@) =~= kv_view(pre_entries).push(
                        (kv_view(entries@)[k].0, kv_view(entries@)[k].1),
                    ));
                    assert forall|a: int, b: int| 0 <= a < b < kv_view(entries@).len() implies (
                    #[trigger] kv_view(entries@)[a]).0 != (#[trigger] kv_view(entries@)[b]).0 by {
                        if b == k {
                            assert(kv_view(pre_entries)[a] == kv_view(entries@)[a]);
                        }
                    }
                    lemma_ser_entries_push(
                        kv_view(pre_entries),
                        (kv_view(entries@)[k].0, kv_view(entries@)[k].1),
                    );
                }
                let old_pos = pos;
                pos = j;
                if pos < v.len() && v[pos] == ',' {
                    pos = pos + 1;
                    proof {
                        assert(w.subrange(0, pos as int) =~= w.subrange(0, old_pos as int)
                            + w.subrange(old_pos as int, j as int) + seq![',']);
                        assert forall|ver0: u64, es0: EntriesView| doc_at(
                            w,
                            ver0,
                            es0,
                        ) implies kv_view(entries@) == es0.subrange(0, entries@.len() as int)
                            && entries@.len() < es0.len() && w.subrange(pos as int, w.len() as int)
                            == ser_entries(
                            es0.subrange(entries@.len() as int, es0.len() as int),
                        ) + seq!['}', '}'] by {
                            lemma_doc_parse_step(w, old_pos as int, es0, k);
                            let rest = es0.subrange(k + 1, es0.len() as int);
                            if k + 1 == es0.len() {
                                assert(w.subrange(j as int, w.len() as int) =~= seq!['}'] + seq![
                                    '}',
                                ]);
                                lemma_suffix_split(w, j as int, seq!['}'], seq!['}']);
                                assert(w[j as int] == '}') by {
                                    assert(w.subrange(j as int, j as int + 1)[0] == w[j as int]);
                                }
                            } else {
                                assert(w.subrange(j as int, w.len() as int) =~= seq![','] + (
                                ser_entries(rest) + seq!['}', '}']));
                                lemma_suffix_split(
                                    w,
                                    j as int,
                                    seq![','],
                                    ser_entries(rest) + seq!['}', '}'],
                                );
                                assert(kv_view(entries@) =~= es0.subrange(0, k + 1));
                            }
                        }
                    }
                } else if pos < v.len() && v[pos] == '}' {
                    pos = pos + 1;
                    closed = true;
                    proof {
                        assert(w.subrange(0, pos as int) =~= w.subrange(0, old_pos as int)
                            + w.subrange(old_pos as int, j as int) + seq!['}']);
                        assert forall|ver0: u64, es0: EntriesView| doc_at(
                            w,
                            ver0,
                            es0,
                        ) implies kv_view(entries@) == es0 && pos + 1 == w.len() && w.subrange(
                            pos as int,
                            w.len() as int,
                        ) == seq!['}'] by {
                            lemma_doc_parse_step(w, old_pos as int, es0, k);
                            let rest = es0.subrange(k + 1, es0.len() as int);
                            if k + 1 == es0.len() {
                                assert(w.subrange(j as int, w.len() as int) =~= seq!['}'] + seq![
                                    '}',
                                ]);
                                lemma_suffix_split(w, j as int, seq!['}'], seq!['}']);
                                assert(kv_view(entries@) =~= es0);
                            } else {
                                assert(w.subrange(j as int, w.len() as int) =~= seq![','] + (
                                ser_entries(rest) + seq!['}', '}']));
                                lemma_suffix_split(
                                    w,
                                    j as int,
                                    seq![','],
                                    ser_entries(rest) + seq!['}', '}'],
                                );
                                assert(w[j as int] == ',') by {
                                    assert(w.subrange(j as int, j as int + 1)[0] == w[j as int]);
                                }
                            }
                        }
                    }
                } else {
                    proof {
                        assert forall|ver0: u64, es0: EntriesView| doc_at(
                            w,
                            ver0,
                            es0,
                        ) implies false by {
                            lemma_doc_parse_step(w, old_pos as int, es0, k);
                            let rest = es0.subrange(k + 1, es0.len() as int);
                            if k + 1 == es0.len() {
                                assert(w.subrange(j as int, w.len() as int) =~= seq!['}'] + seq![
                                    '}',
                                ]);
                                lemma_suffix_split(w, j as int, seq!['}'], seq!['}']);
                                assert(w[j as int] == '}') by {
                                    assert(w.subrange(j as int, j as int + 1)[0] == w[j as int]);
                                }
                            } else {
                                assert(w.subrange(j as int, w.len() as int) =~= seq![','] + (
                                ser_entries(rest) + seq!['}', '}']));
                                lemma_suffix_split(
                                    w,
                                    j as int,
                                    seq![','],
                                    ser_entries(rest) + seq!['}', '}'],
                                );
                                assert(w[j as int] == ',') by {
                                    assert(w.subrange(j as int, j as int + 1)[0] == w[j as int]);
                                }
                            }
                        }
                    }
                    return Err(());
                }
            },
            Err(()) => {
                proof {
                    assert forall|ver0: u64, es0: EntriesView| doc_at(w, ver0, es0) implies false by {
                        lemma_doc_parse_step(w, pos as int, es0, k);
                    }
                }
                return Err(());
            },
        }
    }
    match expect(v, pos, &pat_rbrace) {
        Some(j) => {
            if j == v.len() {
                proof {
                    assert(w.subrange(0, j as int) =~= head + ser_entries(kv_view(entries@))
                        + seq!['}', '}']);
                    assert(w =~= w.subrange(0, j as int));
                    assert(w =~= ser_doc(ver, kv_view(entries@)));
                }
                Ok((ver, entries))
            } else {
                proof {
                    assert forall|ver0: u64, es0: EntriesView| doc_at(w, ver0, es0) implies false by {
                    }
                }
                Err(())
            }
        },
        None => {
            proof {
                assert forall|ver0: u64, es0: EntriesView| doc_at(w, ver0, es0) implies false by {
                }
            }
            Err(())
        },
    }
}

/// In mid-parse, the text at the current position is the next entry's, and
/// what follows it closes the list or separates it from the one after.
proof fn lemma_doc_parse_step(w: Seq<char>, pos: int, es0: EntriesView, k: int)
    requires
        0 <= k < es0.len(),
        0 <= pos <= w.len(),
        w.subrange(pos, w.len() as int) == ser_entries(es0.subrange(k, es0.len() as int)) + seq![
            '}',
            '}',
        ],
    ensures
        entry_at(w, pos, es0[k].0, es0[k].1),
        w.subrange(pos + ser_entry(es0[k].0, es0[k].1).len(), w.len() as int) == (if k + 1
            == es0.len() {
            Seq::<char>::empty()
        } else {
            seq![','] + ser_entries(es0.subrange(k + 1, es0.len() as int))
        }) + seq!['}', '}'],
{
    let tail = es0.subrange(k, es0.len() as int);
    lemma_ser_entries_first(tail);
    assert(tail[0] == es0[k]);
    assert(tail.drop_first() =~= es0.subrange(k + 1, es0.len() as int));
    let x = ser_entry(es0[k].0, es0[k].1);
    let y = (if k + 1 == es0.len() {
        Seq::<char>::empty()
    } else {
        seq![','] + ser_entries(es0.subrange(k + 1, es0.len() as int))
    }) + seq!['}', '}'];
    assert(w.subrange(pos, w.len() as int) =~= x + y);
    lemma_suffix_split(w, pos, x, y);
}

/// Turn collected characters into a string.
///
/// Relies on `String: FromIterator<char>`: collecting characters yields the
/// string of exactly those characters, in order.
#[verifier::external_body]
pub(crate) fn chars_to_string(v: &Vec<char>) -> (r: String)
    ensures
        r@ == v@,
{
    v.iter().collect()
}

/// Turn a string into its characters.
///
/// Relies on `str::chars`: it yields the characters of the string, in
/// order.
#[verifier::external_body]
pub(crate) fn str_chars(s: &str) -> (r: Vec<char>)
    ensures
        r@ == s@,
{
    s.chars().collect()
}

} // verus!
