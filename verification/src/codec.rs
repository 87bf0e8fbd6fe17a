//! The persistence format: a structured text document holding the node and
//! edge maps and the id counters, with a verified round-trip between the
//! writer and the parser.
//!
//! Numbers are canonical decimal (no leading zeros, `-` sign); labels are
//! length-prefixed character runs, so no escaping is needed.
use vstd::prelude::*;
use vstd::arithmetic::div_mod::*;
use vstd::string::StrSliceExecFns;
use vstd::string::StringExecFns;

verus! {

pub open spec fn is_dec_digit(c: char) -> bool {
    48 <= c as int <= 57
}

pub open spec fn digit_val(c: char) -> int {
    c as int - 48
}

/// The decimal digit character for a value below ten.
pub open spec fn dec_digit(d: int) -> char {
    if d == 0 {
        '0'
    } else if d == 1 {
        '1'
    } else if d == 2 {
        '2'
    } else if d == 3 {
        '3'
    } else if d == 4 {
        '4'
    } else if d == 5 {
        '5'
    } else if d == 6 {
        '6'
    } else if d == 7 {
        '7'
    } else if d == 8 {
        '8'
    } else {
        '9'
    }
}

/// The canonical decimal digit run of a natural number.
pub open spec fn enc_nat(v: nat) -> Seq<char>
    decreases v,
{
    if v < 10 {
        seq![dec_digit(v as int)]
    } else {
        enc_nat(v / 10) + seq![dec_digit((v % 10) as int)]
    }
}

/// The canonical decimal text of an integer: a sign for negatives, then the
/// digit run of the magnitude.
pub open spec fn enc_int(v: int) -> Seq<char> {
    if v < 0 {
        seq!['-'] + enc_nat((-v) as nat)
    } else {
        enc_nat(v as nat)
    }
}

/// The value of a digit run, most significant first.
pub open spec fn seq_val(d: Seq<char>) -> int
    decreases d.len(),
{
    if d.len() == 0 {
        0
    } else {
        seq_val(d.drop_last()) * 10 + digit_val(d.last())
    }
}

pub open spec fn all_digits(d: Seq<char>) -> bool {
    forall|i: int| 0 <= i < d.len() ==> is_dec_digit(#[trigger] d[i])
}

pub proof fn lemma_digit_facts(d: int)
    requires
        0 <= d < 10,
    ensures
        is_dec_digit(dec_digit(d)),
        digit_val(dec_digit(d)) == d,
{
}

/// The digit run of a natural number is nonempty, all digits, and begins
/// with `'0'` only for zero itself.
pub proof fn lemma_enc_nat_shape(v: nat)
    ensures
        enc_nat(v).len() >= 1,
        all_digits(enc_nat(v)),
        v == 0 ==> enc_nat(v) == seq!['0'],
        v >= 1 ==> enc_nat(v)[0] != '0',
    decreases v,
{
    if v < 10 {
        lemma_digit_facts(v as int);
        assert(enc_nat(v) == seq![dec_digit(v as int)]);
    } else {
        lemma_enc_nat_shape(v / 10);
        lemma_digit_facts((v % 10) as int);
        let e = enc_nat(v / 10);
        let w = enc_nat(v);
        assert(v / 10 >= 1) by (nonlinear_arith)
            requires
                v >= 10,
        ;
        assert(w == e + seq![dec_digit((v % 10) as int)]);
        assert(w[0] == e[0]);
        assert forall|i: int| 0 <= i < w.len() implies is_dec_digit(#[trigger] w[i]) by {
            if i < e.len() {
                assert(w[i] == e[i]);
            }
        }
    }
}

/// Parsing inverts printing: the value of the digit run of `v` is `v`.
pub proof fn lemma_seq_val_enc(v: nat)
    ensures
        seq_val(enc_nat(v)) == v,
    decreases v,
{
    if v < 10 {
        lemma_digit_facts(v as int);
        assert(enc_nat(v) == seq![dec_digit(v as int)]);
        assert(enc_nat(v).len() == 1);
        assert(enc_nat(v).last() == dec_digit(v as int));
        assert(enc_nat(v).drop_last() =~= Seq::<char>::empty());
        assert(seq_val(enc_nat(v).drop_last()) == 0);
        assert(seq_val(enc_nat(v)) == seq_val(enc_nat(v).drop_last()) * 10 + digit_val(
            enc_nat(v).last()));
    } else {
        lemma_seq_val_enc(v / 10);
        lemma_digit_facts((v % 10) as int);
        let e = enc_nat(v / 10);
        let w = enc_nat(v);
        assert(w.drop_last() =~= e);
        assert(w.last() == dec_digit((v % 10) as int));
        lemma_fundamental_div_mod(v as int, 10);
        assert(10 * (v as int / 10) == (v as int / 10) * 10) by (nonlinear_arith);
    }
}

/// The digit run of `v` is short: never longer than `v / 10 + 1`.
pub proof fn lemma_enc_nat_len(v: nat)
    ensures
        enc_nat(v).len() <= v / 10 + 1,
    decreases v,
{
    if v >= 10 {
        lemma_enc_nat_len(v / 10);
        let w = v / 10;
        assert(w >= 1) by (nonlinear_arith)
            requires
                v >= 10,
                w == v / 10,
        ;
        assert(w / 10 < w) by (nonlinear_arith)
            requires
                w >= 1,
        ;
    }
}

/// Digit runs have nonnegative values, positive if the leading digit is not
/// `'0'`.
pub proof fn lemma_seq_val_bounds(d: Seq<char>)
    requires
        all_digits(d),
    ensures
        seq_val(d) >= 0,
        d.len() >= 1 && d[0] != '0' ==> seq_val(d) >= 1,
    decreases d.len(),
{
    if d.len() == 0 {
    } else {
        let e = d.drop_last();
        assert(all_digits(e)) by {
            assert forall|i: int| 0 <= i < e.len() implies is_dec_digit(#[trigger] e[i]) by {
                assert(e[i] == d[i]);
            }
        }
        lemma_seq_val_bounds(e);
        assert(is_dec_digit(d.last())) by {
            assert(d.last() == d[d.len() - 1]);
        }
        if d.len() >= 2 && d[0] != '0' {
            assert(e[0] == d[0]);
        }
        if d.len() == 1 && d[0] != '0' {
            assert(d.last() == d[0]);
        }
    }
}

/// A nonempty all-digit run without a leading zero is the canonical digit
/// run of its own value.
pub proof fn lemma_canonical_digits(d: Seq<char>)
    requires
        all_digits(d),
        d.len() >= 1,
        d.len() == 1 || d[0] != '0',
    ensures
        d == enc_nat(seq_val(d) as nat),
    decreases d.len(),
{
    lemma_seq_val_bounds(d);
    let v = seq_val(d);
    assert(is_dec_digit(d.last())) by {
        assert(d.last() == d[d.len() - 1]);
    }
    if d.len() == 1 {
        assert(d.drop_last() =~= Seq::<char>::empty());
        assert(seq_val(d.drop_last()) == 0);
        assert(d.last() == d[0]);
        assert(v == seq_val(d.drop_last()) * 10 + digit_val(d.last()));
        assert(v == digit_val(d[0]));
        assert(d[0] == dec_digit(v));
        assert(d =~= seq![dec_digit(v)]);
    } else {
        let e = d.drop_last();
        assert(all_digits(e)) by {
            assert forall|i: int| 0 <= i < e.len() implies is_dec_digit(#[trigger] e[i]) by {
                assert(e[i] == d[i]);
            }
        }
        assert(e[0] == d[0]);
        lemma_seq_val_bounds(e);
        lemma_canonical_digits(e);
        let q = seq_val(e);
        let r = digit_val(d.last());
        assert(v == q * 10 + r);
        assert(v >= 10) by (nonlinear_arith)
            requires
                q >= 1,
                r >= 0,
                v == q * 10 + r,
        ;
        lemma_div_multiples_vanish_fancy(q, r, 10);
        assert(10 * q == q * 10) by (nonlinear_arith);
        assert(v / 10 == q);
        lemma_fundamental_div_mod(v, 10);
        assert(v % 10 == r);
        assert(d.last() == dec_digit(r));
        assert(enc_nat(v as nat) == enc_nat((v as nat) / 10) + seq![dec_digit(
            ((v as nat) % 10) as int,
        )]);
        assert(d =~= e + seq![d.last()]);
    }
}

/// The value of a digit run grows (weakly) with its length.
pub proof fn lemma_seq_val_prefix(s: Seq<char>, a: int, b: int, c: int)
    requires
        0 <= a <= b <= c <= s.len(),
        forall|i: int| a <= i < c ==> is_dec_digit(#[trigger] s[i]),
    ensures
        seq_val(s.subrange(a, b)) <= seq_val(s.subrange(a, c)),
        seq_val(s.subrange(a, b)) >= 0,
    decreases c - b,
{
    let p = s.subrange(a, b);
    assert(all_digits(p)) by {
        assert forall|i: int| 0 <= i < p.len() implies is_dec_digit(#[trigger] p[i]) by {
            assert(p[i] == s[a + i]);
        }
    }
    lemma_seq_val_bounds(p);
    if b == c {
    } else {
        lemma_seq_val_prefix(s, a, b, c - 1);
        let w = s.subrange(a, c);
        let e = s.subrange(a, c - 1);
        assert(w.drop_last() =~= e);
        assert(is_dec_digit(w.last())) by {
            assert(w.last() == s[c - 1]);
        }
        assert(seq_val(e) * 10 + digit_val(w.last()) >= seq_val(e)) by (nonlinear_arith)
            requires
                seq_val(e) >= 0,
                digit_val(w.last()) >= 0,
        ;
        assert(seq_val(e) >= 0) by {
            assert(all_digits(e)) by {
                assert forall|i: int| 0 <= i < e.len() implies is_dec_digit(#[trigger] e[i]) by {
                    assert(e[i] == s[a + i]);
                }
            }
            lemma_seq_val_bounds(e);
        }
    }
}

/// The decimal text of a digit value.
fn digit_str(d: u8) -> (r: &'static str)
    requires
        d < 10,
    ensures
        r@ == seq![dec_digit(d as int)],
{
    proof {
        reveal_strlit("0");
        reveal_strlit("1");
        reveal_strlit("2");
        reveal_strlit("3");
        reveal_strlit("4");
        reveal_strlit("5");
        reveal_strlit("6");
        reveal_strlit("7");
        reveal_strlit("8");
        reveal_strlit("9");
    }
    let r = match d {
        0 => "0",
        1 => "1",
        2 => "2",
        3 => "3",
        4 => "4",
        5 => "5",
        6 => "6",
        7 => "7",
        8 => "8",
        _ => "9",
    };
    proof {
        assert(r@ =~= seq![dec_digit(d as int)]);
    }
    r
}

/// Appends the canonical decimal digit run of `n`.
pub fn push_u64(s: &mut String, n: u64)
    ensures
        final(s)@ == old(s)@ + enc_nat(n as nat),
    decreases n,
{
    if n >= 10 {
        proof {
            assert(n / 10 < n) by (nonlinear_arith)
                requires
                    n >= 10,
            ;
        }
        push_u64(s, n / 10);
    }
    let d: u8 = (n % 10) as u8;
    s.append(digit_str(d));
    proof {
        assert(s@ =~= old(s)@ + enc_nat(n as nat));
    }
}

/// Appends the canonical decimal digit run of `n`.
pub fn push_usize(s: &mut String, n: usize)
    ensures
        final(s)@ == old(s)@ + enc_nat(n as nat),
{
    push_u64(s, n as u64);
}

/// The canonical decimal text of `n`, as a fresh string.
pub fn usize_string(n: usize) -> (r: String)
    ensures
        r@ == enc_nat(n as nat),
{
    let mut s = String::new();
    push_usize(&mut s, n);
    proof {
        assert(s@ =~= enc_nat(n as nat));
    }
    s
}

/// Appends the canonical decimal text of `v`.
pub fn push_i64(s: &mut String, v: i64)
    requires
        v != i64::MIN,
    ensures
        final(s)@ == old(s)@ + enc_int(v as int),
{
    if v < 0 {
        proof {
            reveal_strlit("-");
        }
        s.append("-");
        push_u64(s, (-v) as u64);
        proof {
            assert(("-")@ =~= seq!['-']);
            assert(s@ =~= old(s)@ + enc_int(v as int));
        }
    } else {
        push_u64(s, v as u64);
    }
}

/// `a <= b / k` follows from `a * k <= b` for positive `k`.
proof fn lemma_le_div(a: int, b: int, k: int)
    requires
        a * k <= b,
        0 < k,
    ensures
        a <= b / k,
{
    lemma_div_is_ordered(a * k, b, k);
    lemma_div_multiples_vanish(a, k);
    assert(a * k == k * a) by (nonlinear_arith);
}

/// The digit value of the character at `i`, if it is a decimal digit.
fn digit_at(s: &str, i: usize) -> (r: Option<u8>)
    requires
        i < s@.len(),
    ensures
        match r {
            Some(d) => is_dec_digit(s@[i as int]) && d == digit_val(s@[i as int]) && d < 10,
            None => !is_dec_digit(s@[i as int]),
        },
{
    let c = s.get_char(i);
    let u = c as u32;
    if 48 <= u && u <= 57 {
        Some((u - 48) as u8)
    } else {
        None
    }
}

/// Parses the maximal decimal digit run starting at `pos` as a `u64`.
///
/// On success the consumed text is exactly the canonical digit run of the
/// returned value and ends at the end of the text or before a non-digit;
/// conversely, whenever such a canonical run starts at `pos`, parsing
/// succeeds with exactly that value and end position.
pub fn parse_u64(s: &str, pos: usize) -> (r: Option<(u64, usize)>)
    requires
        pos <= s@.len(),
    ensures
        r matches Some(t) ==> pos < t.1 <= s@.len() && s@.subrange(pos as int, t.1 as int)
            == enc_nat(t.0 as nat) && (t.1 == s@.len() || !is_dec_digit(s@[t.1 as int])),
        forall|v: u64, p: int|
            #![trigger enc_nat(v as nat), s@.subrange(pos as int, p)]
            pos <= p <= s@.len() && s@.subrange(pos as int, p) == enc_nat(v as nat) && (p
                == s@.len() || !is_dec_digit(s@[p])) ==> r == Some((v, p as usize)),
{
    let len = s.unicode_len();
    let mut end = pos;
    let mut stop = false;
    while end < len && !stop
        invariant
            pos <= end <= len,
            len == s@.len(),
            forall|j: int| pos <= j < end ==> is_dec_digit(#[trigger] s@[j]),
            stop ==> end < len && !is_dec_digit(s@[end as int]),
        decreases len - end + (if stop {
            0int
        } else {
            1int
        }),
    {
        if digit_at(s, end).is_some() {
            end = end + 1;
        } else {
            stop = true;
        }
    }
    proof {
        if pos == end {
            assert forall|v: u64, p: int|
                pos <= p <= s@.len() && s@.subrange(pos as int, p) == enc_nat(v as nat) && (p
                    == s@.len() || !is_dec_digit(s@[p])) implies false by {
                lemma_enc_nat_shape(v as nat);
                assert(s@.subrange(pos as int, p).len() >= 1);
                assert(s@[pos as int] == s@.subrange(pos as int, p)[0]);
                assert(is_dec_digit(s@[pos as int]));
                assert(pos < len);
                assert(!is_dec_digit(s@[pos as int]));
            }
        }
    }
    if end == pos {
        return None;
    }
    let d0 = match digit_at(s, pos) {
        Some(x) => x,
        None => {
            proof {
                assert(false);
            }
            0
        },
    };
    if d0 == 0 && end - pos > 1 {
        proof {
            assert forall|v: u64, p: int|
                pos <= p <= s@.len() && s@.subrange(pos as int, p) == enc_nat(v as nat) && (p
                    == s@.len() || !is_dec_digit(s@[p])) implies false by {
                lemma_enc_nat_shape(v as nat);
                let e = s@.subrange(pos as int, p);
                assert(s@[pos as int] == e[0]);
                if v == 0 {
                    assert(e.len() == 1);
                    assert(p == pos + 1);
                    assert(is_dec_digit(s@[pos + 1]));
                } else {
                    assert(e[0] != '0');
                    assert(digit_val(s@[pos as int]) == 0 && is_dec_digit(s@[pos as int]));
                    assert(s@[pos as int] as int == 48);
                    assert('0' as int == 48);
                }
            }
        }
        return None;
    }
    let mut acc: u64 = 0;
    let mut i = pos;
    while i < end
        invariant
            pos <= i <= end <= len,
            len == s@.len(),
            pos < end,
            forall|j: int| pos <= j < end ==> is_dec_digit(#[trigger] s@[j]),
            end == len || !is_dec_digit(s@[end as int]),
            digit_val(s@[pos as int]) == 0 ==> end == pos + 1,
            acc as int == seq_val(s@.subrange(pos as int, i as int)),
        decreases end - i,
    {
        let d: u8 = match digit_at(s, i) {
            Some(x) => x,
            None => {
                proof {
                    assert(false);
                }
                0
            },
        };
        if acc > (u64::MAX - d as u64) / 10 {
            proof {
                assert forall|v: u64, p: int|
                    pos <= p <= s@.len() && s@.subrange(pos as int, p) == enc_nat(v as nat) && (
                    p == s@.len() || !is_dec_digit(s@[p])) implies false by {
                    lemma_enc_nat_shape(v as nat);
                    lemma_seq_val_enc(v as nat);
                    assert(p == end) by {
                        if p < end {
                            assert(is_dec_digit(s@[p]));
                        }
                        if p > end {
                            assert(s@.subrange(pos as int, p)[end - pos] == s@[end as int]);
                            assert(is_dec_digit(s@[end as int]));
                        }
                    }
                    assert(seq_val(s@.subrange(pos as int, p)) == v as int);
                    lemma_seq_val_prefix(s@, pos as int, i + 1, p);
                    assert(s@.subrange(pos as int, i + 1).drop_last() =~= s@.subrange(
                        pos as int,
                        i as int,
                    ));
                    assert(s@.subrange(pos as int, i + 1).last() == s@[i as int]);
                    assert(seq_val(s@.subrange(pos as int, i + 1)) == acc as int * 10 + d);
                    assert(acc as int * 10 + d <= u64::MAX);
                    lemma_le_div(acc as int, u64::MAX - d, 10);
                }
            }
            return None;
        }
        proof {
            assert(acc as int * 10 <= u64::MAX - d) by {
                lemma_div_is_ordered(acc as int, (u64::MAX - d as u64) as int / 10, 1);
                lemma_fundamental_div_mod((u64::MAX - d as u64) as int, 10);
                assert(acc as int * 10 <= ((u64::MAX - d as u64) as int / 10) * 10)
                    by (nonlinear_arith)
                    requires
                        acc as int <= (u64::MAX - d as u64) as int / 10,
                ;
                assert(((u64::MAX - d as u64) as int / 10) * 10 <= u64::MAX - d)
                    by (nonlinear_arith)
                    requires
                        (u64::MAX - d as u64) as int == 10 * ((u64::MAX - d as u64) as int / 10)
                            + ((u64::MAX - d as u64) as int % 10),
                        (u64::MAX - d as u64) as int % 10 >= 0,
                ;
            }
            assert(s@.subrange(pos as int, i + 1).drop_last() =~= s@.subrange(
                pos as int,
                i as int,
            ));
            assert(s@.subrange(pos as int, i + 1).last() == s@[i as int]);
        }
        acc = acc * 10 + d as u64;
        i = i + 1;
    }
    proof {
        let e = s@.subrange(pos as int, end as int);
        assert(all_digits(e)) by {
            assert forall|j: int| 0 <= j < e.len() implies is_dec_digit(#[trigger] e[j]) by {
                assert(e[j] == s@[pos + j]);
            }
        }
        assert(e[0] == s@[pos as int]);
        if e.len() > 1 {
            assert(e[0] != '0') by {
                if e[0] == '0' {
                    assert(digit_val(s@[pos as int]) == 0);
                }
            }
        }
        lemma_canonical_digits(e);
        assert forall|v: u64, p: int|
            pos <= p <= s@.len() && s@.subrange(pos as int, p) == enc_nat(v as nat) && (p
                == s@.len() || !is_dec_digit(s@[p])) implies Some((acc, end)) == Some::<(u64,
            usize)>((v, p as usize)) by {
            lemma_enc_nat_shape(v as nat);
            lemma_seq_val_enc(v as nat);
            assert(p == end) by {
                if p < end {
                    assert(is_dec_digit(s@[p]));
                }
                if p > end {
                    assert(s@.subrange(pos as int, p)[end - pos] == s@[end as int]);
                    assert(is_dec_digit(s@[end as int]));
                }
            }
            assert(seq_val(s@.subrange(pos as int, p)) == v as int);
        }
    }
    Some((acc, end))
}

/// Shape facts of the signed encoding: nonempty, digits for nonnegative
/// values, a leading minus sign (which is not a digit) for negative ones.
pub proof fn lemma_enc_int_shape(v: int)
    ensures
        enc_int(v).len() >= 1,
        v >= 0 ==> enc_int(v) == enc_nat(v as nat) && is_dec_digit(enc_int(v)[0]),
        v < 0 ==> enc_int(v)[0] == '-' && enc_int(v).subrange(1, enc_int(v).len() as int)
            == enc_nat((-v) as nat),
        !is_dec_digit('-'),
{
    if v >= 0 {
        lemma_enc_nat_shape(v as nat);
        assert(is_dec_digit(enc_nat(v as nat)[0]));
    } else {
        lemma_enc_nat_shape((-v) as nat);
        assert(enc_int(v).subrange(1, enc_int(v).len() as int) =~= enc_nat((-v) as nat));
    }
}

/// Parses a canonical signed decimal number at `pos`: an optional `-` for a
/// strictly negative value, then the canonical digit run of the magnitude.
pub fn parse_i64(s: &str, pos: usize) -> (r: Option<(i64, usize)>)
    requires
        pos <= s@.len(),
    ensures
        r matches Some(t) ==> pos < t.1 <= s@.len() && s@.subrange(pos as int, t.1 as int)
            == enc_int(t.0 as int) && (t.1 == s@.len() || !is_dec_digit(s@[t.1 as int])) && t.0
            != i64::MIN,
        forall|v: i64, p: int|
            #![trigger enc_int(v as int), s@.subrange(pos as int, p)]
            pos <= p <= s@.len() && s@.subrange(pos as int, p) == enc_int(v as int) && (p
                == s@.len() || !is_dec_digit(s@[p])) && v != i64::MIN ==> r == Some((
            v,
            p as usize,
        )),
{
    let len = s.unicode_len();
    if pos >= len {
        proof {
            assert forall|v: i64, p: int|
                pos <= p <= s@.len() && s@.subrange(pos as int, p) == enc_int(v as int) && (p
                    == s@.len() || !is_dec_digit(s@[p])) && v != i64::MIN implies false by {
                lemma_enc_int_shape(v as int);
                assert(s@.subrange(pos as int, p).len() >= 1);
            }
        }
        return None;
    }
    let c = s.get_char(pos);
    if c == '-' {
        let r1 = parse_u64(s, pos + 1);
        let r: Option<(i64, usize)> = match r1 {
            Some((m, p)) => {
                if 1 <= m && m <= 0x7fff_ffff_ffff_ffff {
                    Some((-(m as i64), p))
                } else {
                    None
                }
            },
            None => None,
        };
        proof {
            // Soundness of the successful case.
            if r is Some {
                let t = r1->0;
                let m = t.0;
                let p = t.1;
                let e = s@.subrange(pos as int, p as int);
                let v: int = -(m as int);
                assert(e =~= seq!['-'] + s@.subrange(pos + 1, p as int));
                assert(e == enc_int(v));
            }
            // Completeness against any canonical signed encoding here.
            assert forall|v: i64, p: int|
                pos <= p <= s@.len() && s@.subrange(pos as int, p) == enc_int(v as int) && (p
                    == s@.len() || !is_dec_digit(s@[p])) && v != i64::MIN implies r == Some((
                v,
                p as usize,
            )) by {
                lemma_enc_int_shape(v as int);
                assert(s@[pos as int] == s@.subrange(pos as int, p)[0]);
                if v >= 0 {
                    assert(is_dec_digit(s@[pos as int]));
                    assert(s@[pos as int] == '-');
                    assert(false);
                } else {
                    let m: u64 = (-v) as u64;
                    assert(s@.subrange(pos + 1, p) =~= enc_nat(m as nat)) by {
                        let e = s@.subrange(pos as int, p);
                        assert forall|j: int| 0 <= j < p - pos - 1 implies s@.subrange(
                            pos + 1,
                            p,
                        )[j] == enc_nat(m as nat)[j] by {
                            assert(e[j + 1] == s@[pos + 1 + j]);
                            assert(e[j + 1] == enc_nat(m as nat)[j]);
                        }
                    }
                    assert(r1 == Some((m, (p as usize))));
                }
            }
        }
        r
    } else {
        let r1 = parse_u64(s, pos);
        let r: Option<(i64, usize)> = match r1 {
            Some((m, p)) => {
                if m <= 0x7fff_ffff_ffff_ffff {
                    Some((m as i64, p))
                } else {
                    None
                }
            },
            None => None,
        };
        proof {
            if r is Some {
                let t = r1->0;
                let m = t.0;
                let p = t.1;
                assert(s@.subrange(pos as int, p as int) == enc_int((m as i64) as int));
            }
            assert forall|v: i64, p: int|
                pos <= p <= s@.len() && s@.subrange(pos as int, p) == enc_int(v as int) && (p
                    == s@.len() || !is_dec_digit(s@[p])) && v != i64::MIN implies r == Some((
                v,
                p as usize,
            )) by {
                lemma_enc_int_shape(v as int);
                assert(s@[pos as int] == s@.subrange(pos as int, p)[0]);
                if v < 0 {
                    assert(s@[pos as int] == '-');
                    assert(false);
                } else {
                    assert(s@.subrange(pos as int, p) == enc_nat((v as u64) as nat));
                    assert(r1 == Some((v as u64, p as usize)));
                }
            }
        }
        r
    }
}

pub open spec fn enc_nat_sp(v: nat) -> Seq<char> {
    enc_nat(v) + seq![' ']
}

pub open spec fn enc_int_sp(v: int) -> Seq<char> {
    enc_int(v) + seq![' ']
}

pub open spec fn enc_bool_sp(b: bool) -> Seq<char> {
    seq![
        if b {
            '1'
        } else {
            '0'
        },
        ' ',
    ]
}

pub open spec fn enc_shape_sp(sh: crate::shape::NodeShape) -> Seq<char> {
    seq![
        match sh {
            crate::shape::NodeShape::Circle => 'C',
            crate::shape::NodeShape::Square => 'S',
        },
        ' ',
    ]
}

pub open spec fn enc_color_sp(c: crate::style::Color) -> Seq<char> {
    enc_nat_sp(c.r as nat) + (enc_nat_sp(c.g as nat) + (enc_nat_sp(c.b as nat) + enc_nat_sp(
        c.a as nat,
    )))
}

/// A label: its length in characters, a colon, the raw characters, and a
/// newline. The length prefix makes escaping unnecessary.
pub open spec fn enc_label_nl(l: Seq<char>) -> Seq<char> {
    enc_nat(l.len()) + seq![':'] + l + seq!['\n']
}

/// One node record: id, position, size, shape, color, the
/// label-size-matches flag, the explicit label size, and the label.
pub open spec fn enc_node_entry(id: usize, n: crate::node::NodeModel) -> Seq<char> {
    enc_nat_sp(id as nat) + (enc_int_sp(n.position.x as int) + (enc_int_sp(n.position.y as int)
        + (enc_int_sp(n.size as int) + (enc_shape_sp(n.shape) + (enc_color_sp(n.color)
        + (enc_bool_sp(n.label_size_matches_node_size) + (enc_int_sp(n.label_size as int)
        + enc_label_nl(n.label))))))))
}

/// One edge record: id, the endpoint ids, the oriented flag, color, label
/// size, paddings, width, loop rotation angle, and the label.
pub open spec fn enc_edge_entry(id: usize, e: crate::edge::EdgeModel) -> Seq<char> {
    enc_nat_sp(id as nat) + (enc_nat_sp(e.start_id as nat) + (enc_nat_sp(e.end_id as nat)
        + (enc_bool_sp(e.oriented) + (enc_color_sp(e.color) + (enc_int_sp(e.label_size as int)
        + (enc_int_sp(e.padding_x as int) + (enc_int_sp(e.padding_y as int) + (enc_int_sp(
        e.width as int,
    ) + (enc_int_sp(e.loop_rotation_angle as int) + enc_label_nl(e.label))))))))))
}

pub open spec fn enc_nodes(ns: Seq<(usize, crate::node::NodeModel)>) -> Seq<char>
    decreases ns.len(),
{
    if ns.len() == 0 {
        Seq::<char>::empty()
    } else {
        enc_node_entry(ns[0].0, ns[0].1) + enc_nodes(ns.drop_first())
    }
}

pub open spec fn enc_edges(es: Seq<(usize, crate::edge::EdgeModel)>) -> Seq<char>
    decreases es.len(),
{
    if es.len() == 0 {
        Seq::<char>::empty()
    } else {
        enc_edge_entry(es[0].0, es[0].1) + enc_edges(es.drop_first())
    }
}

/// The whole document: the two id counters, the two record counts, a
/// newline, then the node records followed by the edge records.
pub open spec fn enc_graph(m: crate::graph::GraphModel) -> Seq<char> {
    enc_nat_sp(m.node_id_counter as nat) + (enc_nat_sp(m.edge_id_counter as nat) + (enc_nat_sp(
        m.nodes.len(),
    ) + (enc_nat_nl(m.edges.len()) + (enc_nodes(m.nodes) + enc_edges(m.edges)))))
}

/// A count followed by a newline.
pub open spec fn enc_nat_nl(v: nat) -> Seq<char> {
    enc_nat(v) + seq!['\n']
}

/// Appending an entry on the right extends the records' text on the right.
pub proof fn lemma_enc_nodes_snoc(ns: Seq<(usize, crate::node::NodeModel)>, x: (
    usize,
    crate::node::NodeModel,
))
    ensures
        enc_nodes(ns.push(x)) == enc_nodes(ns) + enc_node_entry(x.0, x.1),
    decreases ns.len(),
{
    if ns.len() == 0 {
        assert(ns.push(x)[0] == x);
        assert(ns.push(x).drop_first() =~= Seq::<(usize, crate::node::NodeModel)>::empty());
        assert(enc_nodes(ns.push(x)) == enc_node_entry(x.0, x.1) + enc_nodes(
            ns.push(x).drop_first()));
        assert(enc_nodes(ns.push(x).drop_first()) == Seq::<char>::empty());
        assert(enc_nodes(ns) == Seq::<char>::empty());
        assert(enc_nodes(ns.push(x)) =~= enc_nodes(ns) + enc_node_entry(x.0, x.1));
    } else {
        assert(ns.push(x).drop_first() =~= ns.drop_first().push(x));
        lemma_enc_nodes_snoc(ns.drop_first(), x);
        assert(ns.push(x)[0] == ns[0]);
        assert(enc_nodes(ns.push(x)) == enc_node_entry(ns[0].0, ns[0].1) + enc_nodes(
            ns.drop_first().push(x)));
        assert(enc_nodes(ns) == enc_node_entry(ns[0].0, ns[0].1) + enc_nodes(ns.drop_first()));
        vstd::seq_lib::lemma_concat_associative(
            enc_node_entry(ns[0].0, ns[0].1),
            enc_nodes(ns.drop_first()),
            enc_node_entry(x.0, x.1),
        );
        assert(enc_nodes(ns.push(x)) == enc_nodes(ns) + enc_node_entry(x.0, x.1));
    }
}

pub proof fn lemma_enc_edges_snoc(es: Seq<(usize, crate::edge::EdgeModel)>, x: (
    usize,
    crate::edge::EdgeModel,
))
    ensures
        enc_edges(es.push(x)) == enc_edges(es) + enc_edge_entry(x.0, x.1),
    decreases es.len(),
{
    if es.len() == 0 {
        assert(es.push(x)[0] == x);
        assert(es.push(x).drop_first() =~= Seq::<(usize, crate::edge::EdgeModel)>::empty());
        assert(enc_edges(es.push(x)) == enc_edge_entry(x.0, x.1) + enc_edges(
            es.push(x).drop_first()));
        assert(enc_edges(es.push(x).drop_first()) == Seq::<char>::empty());
        assert(enc_edges(es) == Seq::<char>::empty());
        assert(enc_edges(es.push(x)) =~= enc_edges(es) + enc_edge_entry(x.0, x.1));
    } else {
        assert(es.push(x).drop_first() =~= es.drop_first().push(x));
        lemma_enc_edges_snoc(es.drop_first(), x);
        assert(es.push(x)[0] == es[0]);
        assert(enc_edges(es.push(x)) == enc_edge_entry(es[0].0, es[0].1) + enc_edges(
            es.drop_first().push(x)));
        assert(enc_edges(es) == enc_edge_entry(es[0].0, es[0].1) + enc_edges(es.drop_first()));
        vstd::seq_lib::lemma_concat_associative(
            enc_edge_entry(es[0].0, es[0].1),
            enc_edges(es.drop_first()),
            enc_edge_entry(x.0, x.1),
        );
        assert(enc_edges(es.push(x)) == enc_edges(es) + enc_edge_entry(x.0, x.1));
    }
}

fn push_sp(s: &mut String)
    ensures
        final(s)@ == old(s)@ + seq![' '],
{
    proof {
        reveal_strlit(" ");
    }
    s.append(" ");
    proof {
        assert(s@ =~= old(s)@ + seq![' ']);
    }
}

fn push_usize_sp(s: &mut String, n: usize)
    ensures
        final(s)@ == old(s)@ + enc_nat_sp(n as nat),
{
    push_usize(s, n);
    push_sp(s);
    proof {
        assert(s@ =~= old(s)@ + enc_nat_sp(n as nat));
    }
}

fn push_i64_sp(s: &mut String, v: i64)
    requires
        v != i64::MIN,
    ensures
        final(s)@ == old(s)@ + enc_int_sp(v as int),
{
    push_i64(s, v);
    push_sp(s);
    proof {
        assert(s@ =~= old(s)@ + enc_int_sp(v as int));
    }
}

fn push_bool_sp(s: &mut String, b: bool)
    ensures
        final(s)@ == old(s)@ + enc_bool_sp(b),
{
    proof {
        reveal_strlit("1 ");
        reveal_strlit("0 ");
    }
    if b {
        s.append("1 ");
    } else {
        s.append("0 ");
    }
    proof {
        assert(s@ =~= old(s)@ + enc_bool_sp(b));
    }
}

fn push_shape_sp(s: &mut String, sh: crate::shape::NodeShape)
    ensures
        final(s)@ == old(s)@ + enc_shape_sp(sh),
{
    proof {
        reveal_strlit("C ");
        reveal_strlit("S ");
    }
    match sh {
        crate::shape::NodeShape::Circle => s.append("C "),
        crate::shape::NodeShape::Square => s.append("S "),
    }
    proof {
        assert(s@ =~= old(s)@ + enc_shape_sp(sh));
    }
}

fn push_color_sp(s: &mut String, c: crate::style::Color)
    ensures
        final(s)@ == old(s)@ + enc_color_sp(c),
{
    push_usize_sp(s, c.r as usize);
    push_usize_sp(s, c.g as usize);
    push_usize_sp(s, c.b as usize);
    push_usize_sp(s, c.a as usize);
    proof {
        assert(s@ =~= old(s)@ + enc_color_sp(c));
    }
}

fn push_label_nl(s: &mut String, label: &String)
    ensures
        final(s)@ == old(s)@ + enc_label_nl(label@),
{
    let n = label.as_str().unicode_len();
    push_usize(s, n);
    proof {
        reveal_strlit(":");
        reveal_strlit("\n");
    }
    s.append(":");
    s.append(label.as_str());
    s.append("\n");
    proof {
        assert(s@ =~= old(s)@ + enc_label_nl(label@));
    }
}

/// Writes one node record.
#[verifier::rlimit(80)]
fn push_node_entry(s: &mut String, id: usize, node: &crate::node::Node)
    requires
        node@.attrs_ok(),
    ensures
        final(s)@ == old(s)@ + enc_node_entry(id, node@),
{
    push_usize_sp(s, id);
    push_i64_sp(s, node.position.x);
    push_i64_sp(s, node.position.y);
    push_i64_sp(s, node.size);
    push_shape_sp(s, node.shape);
    push_color_sp(s, node.color);
    push_bool_sp(s, node.label_size_matches_node_size);
    push_i64_sp(s, node.label_size);
    push_label_nl(s, &node.label);
    proof {
        let ghost r9 = enc_label_nl(node.label@);
        let ghost r8 = enc_int_sp(node.label_size as int) + r9;
        let ghost r7 = enc_bool_sp(node.label_size_matches_node_size) + r8;
        let ghost r6 = enc_color_sp(node.color) + r7;
        let ghost r5 = enc_shape_sp(node.shape) + r6;
        let ghost r4 = enc_int_sp(node.size as int) + r5;
        let ghost r3 = enc_int_sp(node.position.y as int) + r4;
        let ghost r2 = enc_int_sp(node.position.x as int) + r3;
        let ghost r1 = enc_nat_sp(id as nat) + r2;
        let ghost p0 = old(s)@;
        let ghost p1 = p0 + enc_nat_sp(id as nat);
        let ghost p2 = p1 + enc_int_sp(node.position.x as int);
        let ghost p3 = p2 + enc_int_sp(node.position.y as int);
        let ghost p4 = p3 + enc_int_sp(node.size as int);
        let ghost p5 = p4 + enc_shape_sp(node.shape);
        let ghost p6 = p5 + enc_color_sp(node.color);
        let ghost p7 = p6 + enc_bool_sp(node.label_size_matches_node_size);
        let ghost p8 = p7 + enc_int_sp(node.label_size as int);
        let ghost p9 = p8 + enc_label_nl(node.label@);
        assert(s@ == p9);
        vstd::seq_lib::lemma_concat_associative(p0, enc_nat_sp(id as nat), r2);
        assert(p0 + r1 == p1 + r2);
        vstd::seq_lib::lemma_concat_associative(p1, enc_int_sp(node.position.x as int), r3);
        assert(p1 + r2 == p2 + r3);
        vstd::seq_lib::lemma_concat_associative(p2, enc_int_sp(node.position.y as int), r4);
        assert(p2 + r3 == p3 + r4);
        vstd::seq_lib::lemma_concat_associative(p3, enc_int_sp(node.size as int), r5);
        assert(p3 + r4 == p4 + r5);
        vstd::seq_lib::lemma_concat_associative(p4, enc_shape_sp(node.shape), r6);
        assert(p4 + r5 == p5 + r6);
        vstd::seq_lib::lemma_concat_associative(p5, enc_color_sp(node.color), r7);
        assert(p5 + r6 == p6 + r7);
        vstd::seq_lib::lemma_concat_associative(p6, enc_bool_sp(node.label_size_matches_node_size), r8);
        assert(p6 + r7 == p7 + r8);
        vstd::seq_lib::lemma_concat_associative(p7, enc_int_sp(node.label_size as int), r9);
        assert(p7 + r8 == p8 + r9);
        assert(p8 + r9 == p9);
        assert(s@ == p0 + r1);
        assert(enc_node_entry(id, node@) == r1);
    }
}

/// Writes one edge record.
#[verifier::rlimit(80)]
fn push_edge_entry(s: &mut String, id: usize, edge: &crate::edge::Edge)
    requires
        edge@.attrs_ok(),
    ensures
        final(s)@ == old(s)@ + enc_edge_entry(id, edge@),
{
    push_usize_sp(s, id);
    push_usize_sp(s, edge.start_id.0);
    push_usize_sp(s, edge.end_id.0);
    push_bool_sp(s, edge.oriented);
    push_color_sp(s, edge.color);
    push_i64_sp(s, edge.label_size);
    push_i64_sp(s, edge.padding_x);
    push_i64_sp(s, edge.padding_y);
    push_i64_sp(s, edge.width);
    push_i64_sp(s, edge.loop_rotation_angle);
    push_label_nl(s, &edge.label);
    proof {
        let ghost r11 = enc_label_nl(edge.label@);
        let ghost r10 = enc_int_sp(edge.loop_rotation_angle as int) + r11;
        let ghost r9 = enc_int_sp(edge.width as int) + r10;
        let ghost r8 = enc_int_sp(edge.padding_y as int) + r9;
        let ghost r7 = enc_int_sp(edge.padding_x as int) + r8;
        let ghost r6 = enc_int_sp(edge.label_size as int) + r7;
        let ghost r5 = enc_color_sp(edge.color) + r6;
        let ghost r4 = enc_bool_sp(edge.oriented) + r5;
        let ghost r3 = enc_nat_sp(edge.end_id.0 as nat) + r4;
        let ghost r2 = enc_nat_sp(edge.start_id.0 as nat) + r3;
        let ghost r1 = enc_nat_sp(id as nat) + r2;
        let ghost p0 = old(s)@;
        let ghost p1 = p0 + enc_nat_sp(id as nat);
        let ghost p2 = p1 + enc_nat_sp(edge.start_id.0 as nat);
        let ghost p3 = p2 + enc_nat_sp(edge.end_id.0 as nat);
        let ghost p4 = p3 + enc_bool_sp(edge.oriented);
        let ghost p5 = p4 + enc_color_sp(edge.color);
        let ghost p6 = p5 + enc_int_sp(edge.label_size as int);
        let ghost p7 = p6 + enc_int_sp(edge.padding_x as int);
        let ghost p8 = p7 + enc_int_sp(edge.padding_y as int);
        let ghost p9 = p8 + enc_int_sp(edge.width as int);
        let ghost p10 = p9 + enc_int_sp(edge.loop_rotation_angle as int);
        let ghost p11 = p10 + enc_label_nl(edge.label@);
        assert(s@ == p11);
        vstd::seq_lib::lemma_concat_associative(p0, enc_nat_sp(id as nat), r2);
        assert(p0 + r1 == p1 + r2);
        vstd::seq_lib::lemma_concat_associative(p1, enc_nat_sp(edge.start_id.0 as nat), r3);
        assert(p1 + r2 == p2 + r3);
        vstd::seq_lib::lemma_concat_associative(p2, enc_nat_sp(edge.end_id.0 as nat), r4);
        assert(p2 + r3 == p3 + r4);
        vstd::seq_lib::lemma_concat_associative(p3, enc_bool_sp(edge.oriented), r5);
        assert(p3 + r4 == p4 + r5);
        vstd::seq_lib::lemma_concat_associative(p4, enc_color_sp(edge.color), r6);
        assert(p4 + r5 == p5 + r6);
        vstd::seq_lib::lemma_concat_associative(p5, enc_int_sp(edge.label_size as int), r7);
        assert(p5 + r6 == p6 + r7);
        vstd::seq_lib::lemma_concat_associative(p6, enc_int_sp(edge.padding_x as int), r8);
        assert(p6 + r7 == p7 + r8);
        vstd::seq_lib::lemma_concat_associative(p7, enc_int_sp(edge.padding_y as int), r9);
        assert(p7 + r8 == p8 + r9);
        vstd::seq_lib::lemma_concat_associative(p8, enc_int_sp(edge.width as int), r10);
        assert(p8 + r9 == p9 + r10);
        vstd::seq_lib::lemma_concat_associative(p9, enc_int_sp(edge.loop_rotation_angle as int), r11);
        assert(p9 + r10 == p10 + r11);
        assert(p10 + r11 == p11);
        assert(s@ == p0 + r1);
        assert(enc_edge_entry(id, edge@) == r1);
    }
}

/// Serializes a graph store to its persistence document.
pub fn graph_string(g: &crate::graph::Graph) -> (r: String)
    requires
        g@.wf(),
    ensures
        r@ == enc_graph(g@),
{
    let mut s = String::new();
    push_usize_sp(&mut s, g.node_id_counter());
    push_usize_sp(&mut s, g.edge_id_counter());
    let nodes = g.nodes();
    let edges = g.edges();
    push_usize_sp(&mut s, nodes.len());
    push_usize(&mut s, edges.len());
    proof {
        reveal_strlit("\n");
    }
    s.append("\n");
    let ghost header = s@;
    let n = nodes.len();
    let mut i: usize = 0;
    while i < n
        invariant
            0 <= i <= n == g@.nodes.len(),
            n == nodes@.len(),
            g@.wf(),
            forall|j: int|
                0 <= j < n ==> ((#[trigger] nodes@[j]).0).0 == g@.nodes[j].0 && nodes@[j].1@
                    == g@.nodes[j].1,
            s@ == header + enc_nodes(g@.nodes.take(i as int)),
        decreases n - i,
    {
        proof {
            assert(g@.nodes[i as int].1.attrs_ok());
        }
        push_node_entry(&mut s, nodes[i].0.0, &nodes[i].1);
        proof {
            lemma_enc_nodes_snoc(g@.nodes.take(i as int), g@.nodes[i as int]);
            assert(g@.nodes.take(i + 1) =~= g@.nodes.take(i as int).push(g@.nodes[i as int]));
            assert(s@ =~= header + enc_nodes(g@.nodes.take(i + 1)));
        }
        i = i + 1;
    }
    proof {
        assert(g@.nodes.take(n as int) =~= g@.nodes);
    }
    let ghost with_nodes = s@;
    let m = edges.len();
    let mut k: usize = 0;
    while k < m
        invariant
            0 <= k <= m == g@.edges.len(),
            m == edges@.len(),
            g@.wf(),
            forall|j: int|
                0 <= j < m ==> ((#[trigger] edges@[j]).0).0 == g@.edges[j].0 && edges@[j].1@
                    == g@.edges[j].1,
            s@ == with_nodes + enc_edges(g@.edges.take(k as int)),
        decreases m - k,
    {
        proof {
            assert(g@.edges[k as int].1.attrs_ok());
        }
        push_edge_entry(&mut s, edges[k].0.0, &edges[k].1);
        proof {
            lemma_enc_edges_snoc(g@.edges.take(k as int), g@.edges[k as int]);
            assert(g@.edges.take(k + 1) =~= g@.edges.take(k as int).push(g@.edges[k as int]));
            assert(s@ =~= with_nodes + enc_edges(g@.edges.take(k + 1)));
        }
        k = k + 1;
    }
    proof {
        assert(g@.edges.take(m as int) =~= g@.edges);
        let a1 = enc_nat_sp(g@.node_id_counter as nat);
        let a2 = enc_nat_sp(g@.edge_id_counter as nat);
        let a3 = enc_nat_sp(g@.nodes.len());
        let a4 = enc_nat(g@.edges.len());
        let a5 = seq!['\n'];
        let a6 = enc_nodes(g@.nodes);
        let a7 = enc_edges(g@.edges);
        let p0 = Seq::<char>::empty();
        let p1 = p0 + a1;
        let p2 = p1 + a2;
        let p3 = p2 + a3;
        let p4 = p3 + a4;
        let p5 = p4 + a5;
        assert(header == p5);
        let r67 = a6 + a7;
        let r4 = (a4 + a5) + r67;
        let r3 = a3 + r4;
        let r2 = a2 + r3;
        let r1 = a1 + r2;
        assert(enc_graph(g@) == r1);
        vstd::seq_lib::lemma_concat_associative(header, a6, a7);
        assert(s@ == header + r67);
        vstd::seq_lib::lemma_concat_associative(p4, a5, r67);
        vstd::seq_lib::lemma_concat_associative(a4, a5, r67);
        vstd::seq_lib::lemma_concat_associative(p3, a4, a5 + r67);
        assert(s@ == p3 + r4);
        vstd::seq_lib::lemma_concat_associative(p2, a3, r4);
        vstd::seq_lib::lemma_concat_associative(p1, a2, r3);
        vstd::seq_lib::lemma_concat_associative(p0, a1, r2);
        assert(p0 + r1 =~= r1);
        assert(s@ == enc_graph(g@));
    }
    s
}

/// A consumed range equal to a concatenation splits at the first part's
/// length.
pub proof fn lemma_split_at(s: Seq<char>, pos: int, p: int, a: Seq<char>, b: Seq<char>)
    requires
        0 <= pos <= p <= s.len(),
        s.subrange(pos, p) == a + b,
    ensures
        a.len() + b.len() == p - pos,
        s.subrange(pos, pos + a.len()) == a,
        s.subrange(pos + a.len(), p) == b,
{
    assert((a + b).len() == a.len() + b.len());
    assert(s.subrange(pos, p).len() == p - pos);
    assert(a.len() + b.len() == p - pos);
    assert(s.subrange(pos, pos + a.len() as int) =~= a) by {
        assert forall|i: int| 0 <= i < a.len() implies s.subrange(
            pos,
            pos + a.len() as int,
        )[i] == a[i] by {
            assert(s.subrange(pos, p)[i] == (a + b)[i]);
        }
    }
    assert(s.subrange(pos + a.len() as int, p) =~= b) by {
        assert forall|i: int| 0 <= i < b.len() implies s.subrange(
            pos + a.len() as int,
            p,
        )[i] == b[i] by {
            assert(s.subrange(pos, p)[a.len() + i] == (a + b)[a.len() + i]);
            assert((a + b)[a.len() + i] == b[i]);
            assert(s.subrange(pos, p)[a.len() + i] == s[pos + a.len() + i]);
            assert(s.subrange(pos + a.len() as int, p)[i] == s[pos + a.len() + i]);
        }
    }
}

/// Two adjacent consumed ranges join into the concatenation.
pub proof fn lemma_join_at(s: Seq<char>, pos: int, mid: int, p: int, a: Seq<char>, b: Seq<char>)
    requires
        0 <= pos <= mid <= p <= s.len(),
        s.subrange(pos, mid) == a,
        s.subrange(mid, p) == b,
    ensures
        s.subrange(pos, p) == a + b,
{
    assert(s.subrange(pos, p) =~= a + b) by {
        assert forall|i: int| 0 <= i < p - pos implies s.subrange(pos, p)[i] == (a + b)[i] by {
            if i < mid - pos {
                assert(s.subrange(pos, mid)[i] == a[i]);
            } else {
                assert(s.subrange(mid, p)[i - (mid - pos)] == b[i - (mid - pos)]);
            }
        }
    }
}

/// Whether the character at `pos` is exactly `c`.
fn expect_char(s: &str, pos: usize, c: char) -> (r: bool)
    requires
        pos <= s@.len(),
    ensures
        r == (pos < s@.len() && s@[pos as int] == c),
        s@.len() <= usize::MAX,
{
    if pos >= s.unicode_len() {
        return false;
    }
    s.get_char(pos) == c
}

/// Parses a count followed by one space.
fn parse_usize_sp(s: &str, pos: usize) -> (r: Option<(usize, usize)>)
    requires
        pos <= s@.len(),
    ensures
        r matches Some(t) ==> pos < t.1 <= s@.len() && s@.subrange(pos as int, t.1 as int)
            == enc_nat_sp(t.0 as nat),
        forall|v: usize, p: int|
            #![trigger enc_nat_sp(v as nat), s@.subrange(pos as int, p)]
            pos <= p <= s@.len() && s@.subrange(pos as int, p) == enc_nat_sp(v as nat) ==> r
                == Some((v, p as usize)),
{
    let r1 = parse_u64(s, pos);
    let res: Option<(usize, usize)> = match r1 {
        Some((m, q)) => {
            if m <= usize::MAX as u64 && expect_char(s, q, ' ') {
                Some((m as usize, q + 1))
            } else {
                None
            }
        },
        None => None,
    };
    proof {
        if res is Some {
            let t = res->0;
            let q = (t.1 - 1) as int;
            assert(s@.subrange(q, t.1 as int) =~= seq![' ']);
            lemma_join_at(
                s@,
                pos as int,
                q,
                t.1 as int,
                enc_nat(t.0 as nat),
                seq![' '],
            );
        }
        assert forall|v: usize, p: int|
            pos <= p <= s@.len() && s@.subrange(pos as int, p) == enc_nat_sp(v as nat) implies res
            == Some((v, p as usize)) by {
            lemma_enc_nat_shape(v as nat);
            lemma_split_at(s@, pos as int, p, enc_nat(v as nat), seq![' ']);
            let q = p - 1;
            assert(s@[q] == ' ') by {
                assert(s@.subrange(q, p)[0] == ' ');
            }
            assert(!is_dec_digit(s@[q]));
            assert(s@.subrange(pos as int, q) == enc_nat((v as u64) as nat));
            assert(r1 == Some((v as u64, q as usize)));
        }
    }
    res
}

/// Parses a count followed by one newline.
fn parse_usize_nl(s: &str, pos: usize) -> (r: Option<(usize, usize)>)
    requires
        pos <= s@.len(),
    ensures
        r matches Some(t) ==> pos < t.1 <= s@.len() && s@.subrange(pos as int, t.1 as int)
            == enc_nat_nl(t.0 as nat),
        forall|v: usize, p: int|
            #![trigger enc_nat_nl(v as nat), s@.subrange(pos as int, p)]
            pos <= p <= s@.len() && s@.subrange(pos as int, p) == enc_nat_nl(v as nat) ==> r
                == Some((v, p as usize)),
{
    let r1 = parse_u64(s, pos);
    let res: Option<(usize, usize)> = match r1 {
        Some((m, q)) => {
            if m <= usize::MAX as u64 && expect_char(s, q, '\n') {
                Some((m as usize, q + 1))
            } else {
                None
            }
        },
        None => None,
    };
    proof {
        if res is Some {
            let t = res->0;
            let q = (t.1 - 1) as int;
            assert(s@.subrange(q, t.1 as int) =~= seq!['\n']);
            lemma_join_at(
                s@,
                pos as int,
                q,
                t.1 as int,
                enc_nat(t.0 as nat),
                seq!['\n'],
            );
        }
        assert forall|v: usize, p: int|
            pos <= p <= s@.len() && s@.subrange(pos as int, p) == enc_nat_nl(v as nat) implies res
            == Some((v, p as usize)) by {
            lemma_enc_nat_shape(v as nat);
            lemma_split_at(s@, pos as int, p, enc_nat(v as nat), seq!['\n']);
            let q = p - 1;
            assert(s@[q] == '\n') by {
                assert(s@.subrange(q, p)[0] == '\n');
            }
            assert(!is_dec_digit(s@[q]));
            assert(s@.subrange(pos as int, q) == enc_nat((v as u64) as nat));
            assert(r1 == Some((v as u64, q as usize)));
        }
    }
    res
}

/// Parses a signed value followed by one space.
fn parse_i64_sp(s: &str, pos: usize) -> (r: Option<(i64, usize)>)
    requires
        pos <= s@.len(),
    ensures
        r matches Some(t) ==> pos < t.1 <= s@.len() && s@.subrange(pos as int, t.1 as int)
            == enc_int_sp(t.0 as int) && t.0 != i64::MIN,
        forall|v: i64, p: int|
            #![trigger enc_int_sp(v as int), s@.subrange(pos as int, p)]
            pos <= p <= s@.len() && s@.subrange(pos as int, p) == enc_int_sp(v as int) && v
                != i64::MIN ==> r == Some((v, p as usize)),
{
    let r1 = parse_i64(s, pos);
    let res: Option<(i64, usize)> = match r1 {
        Some((m, q)) => {
            if expect_char(s, q, ' ') {
                Some((m, q + 1))
            } else {
                None
            }
        },
        None => None,
    };
    proof {
        if res is Some {
            let t = res->0;
            let q = (t.1 - 1) as int;
            assert(s@.subrange(q, t.1 as int) =~= seq![' ']);
            lemma_join_at(
                s@,
                pos as int,
                q,
                t.1 as int,
                enc_int(t.0 as int),
                seq![' '],
            );
        }
        assert forall|v: i64, p: int|
            pos <= p <= s@.len() && s@.subrange(pos as int, p) == enc_int_sp(v as int) && v
                != i64::MIN implies res == Some((v, p as usize)) by {
            lemma_enc_int_shape(v as int);
            lemma_split_at(s@, pos as int, p, enc_int(v as int), seq![' ']);
            let q = p - 1;
            assert(s@[q] == ' ') by {
                assert(s@.subrange(q, p)[0] == ' ');
            }
            assert(!is_dec_digit(s@[q]));
            assert(r1 == Some((v, q as usize)));
        }
    }
    res
}

/// Parses a boolean flag (`0` or `1`) followed by one space.
fn parse_bool_sp(s: &str, pos: usize) -> (r: Option<(bool, usize)>)
    requires
        pos <= s@.len(),
    ensures
        r matches Some(t) ==> pos < t.1 <= s@.len() && s@.subrange(pos as int, t.1 as int)
            == enc_bool_sp(t.0),
        forall|v: bool, p: int|
            #![trigger enc_bool_sp(v), s@.subrange(pos as int, p)]
            pos <= p <= s@.len() && s@.subrange(pos as int, p) == enc_bool_sp(v) ==> r == Some(
                (v, p as usize),
            ),
{
    let res: Option<(bool, usize)> = if expect_char(s, pos, '1') && expect_char(
        s,
        pos + 1,
        ' ',
    ) {
        Some((true, pos + 2))
    } else if expect_char(s, pos, '0') && expect_char(s, pos + 1, ' ') {
        Some((false, pos + 2))
    } else {
        None
    };
    proof {
        if res is Some {
            let t = res->0;
            assert(s@.subrange(pos as int, t.1 as int) =~= enc_bool_sp(t.0));
        }
        assert forall|v: bool, p: int|
            pos <= p <= s@.len() && s@.subrange(pos as int, p) == enc_bool_sp(v) implies res
            == Some((v, p as usize)) by {
            assert(enc_bool_sp(v).len() == 2);
            assert(s@.subrange(pos as int, p).len() == p - pos);
            assert(s@[pos as int] == s@.subrange(pos as int, p)[0]);
            assert(s@[pos + 1] == s@.subrange(pos as int, p)[1]);
        }
    }
    res
}

/// Parses a shape tag (`C` or `S`) followed by one space.
fn parse_shape_sp(s: &str, pos: usize) -> (r: Option<(crate::shape::NodeShape, usize)>)
    requires
        pos <= s@.len(),
    ensures
        r matches Some(t) ==> pos < t.1 <= s@.len() && s@.subrange(pos as int, t.1 as int)
            == enc_shape_sp(t.0),
        forall|v: crate::shape::NodeShape, p: int|
            #![trigger enc_shape_sp(v), s@.subrange(pos as int, p)]
            pos <= p <= s@.len() && s@.subrange(pos as int, p) == enc_shape_sp(v) ==> r == Some(
                (v, p as usize),
            ),
{
    let res: Option<(crate::shape::NodeShape, usize)> = if expect_char(s, pos, 'C')
        && expect_char(s, pos + 1, ' ') {
        Some((crate::shape::NodeShape::Circle, pos + 2))
    } else if expect_char(s, pos, 'S') && expect_char(s, pos + 1, ' ') {
        Some((crate::shape::NodeShape::Square, pos + 2))
    } else {
        None
    };
    proof {
        if res is Some {
            let t = res->0;
            assert(s@.subrange(pos as int, t.1 as int) =~= enc_shape_sp(t.0));
        }
        assert forall|v: crate::shape::NodeShape, p: int|
            pos <= p <= s@.len() && s@.subrange(pos as int, p) == enc_shape_sp(v) implies res
            == Some((v, p as usize)) by {
            assert(enc_shape_sp(v).len() == 2);
            assert(s@.subrange(pos as int, p).len() == p - pos);
            assert(s@[pos as int] == s@.subrange(pos as int, p)[0]);
            assert(s@[pos + 1] == s@.subrange(pos as int, p)[1]);
        }
    }
    res
}

/// Parses four color channels.
fn parse_color_sp(s: &str, pos: usize) -> (r: Option<(crate::style::Color, usize)>)
    requires
        pos <= s@.len(),
    ensures
        r matches Some(t) ==> pos < t.1 <= s@.len() && s@.subrange(pos as int, t.1 as int)
            == enc_color_sp(t.0),
        forall|v: crate::style::Color, p: int|
            #![trigger enc_color_sp(v), s@.subrange(pos as int, p)]
            pos <= p <= s@.len() && s@.subrange(pos as int, p) == enc_color_sp(v) ==> r == Some(
                (v, p as usize),
            ),
{
    let res: Option<(crate::style::Color, usize)> = match parse_usize_sp(s, pos) {
        Some((cr, q1)) => match parse_usize_sp(s, q1) {
            Some((cg, q2)) => match parse_usize_sp(s, q2) {
                Some((cb, q3)) => match parse_usize_sp(s, q3) {
                    Some((ca, q4)) => {
                        if cr <= 255 && cg <= 255 && cb <= 255 && ca <= 255 {
                            Some(
                                (
                                    crate::style::Color {
                                        r: cr as u8,
                                        g: cg as u8,
                                        b: cb as u8,
                                        a: ca as u8,
                                    },
                                    q4,
                                ),
                            )
                        } else {
                            None
                        }
                    },
                    None => None,
                },
                None => None,
            },
            None => None,
        },
        None => None,
    };
    proof {
        if res is Some {
            let t = res->0;
            let c = t.0;
            let p = t.1 as int;
            let q1 = pos + enc_nat_sp(c.r as nat).len();
            let q2 = q1 + enc_nat_sp(c.g as nat).len();
            let q3 = q2 + enc_nat_sp(c.b as nat).len();
            lemma_join_at(
                s@,
                q2,
                q3,
                p,
                enc_nat_sp(c.b as nat),
                enc_nat_sp(c.a as nat),
            );
            lemma_join_at(
                s@,
                q1,
                q2,
                p,
                enc_nat_sp(c.g as nat),
                enc_nat_sp(c.b as nat) + enc_nat_sp(c.a as nat),
            );
            lemma_join_at(
                s@,
                pos as int,
                q1,
                p,
                enc_nat_sp(c.r as nat),
                enc_nat_sp(c.g as nat) + (enc_nat_sp(c.b as nat) + enc_nat_sp(c.a as nat)),
            );
        }
        assert forall|v: crate::style::Color, p: int|
            pos <= p <= s@.len() && s@.subrange(pos as int, p) == enc_color_sp(v) implies res
            == Some((v, p as usize)) by {
            let a1 = enc_nat_sp(v.r as nat);
            let a2 = enc_nat_sp(v.g as nat);
            let a3 = enc_nat_sp(v.b as nat);
            let a4 = enc_nat_sp(v.a as nat);
            lemma_split_at(s@, pos as int, p, a1, a2 + (a3 + a4));
            let q1 = pos + a1.len();
            lemma_split_at(s@, q1, p, a2, a3 + a4);
            let q2 = q1 + a2.len();
            lemma_split_at(s@, q2, p, a3, a4);
            let q3 = q2 + a3.len();
            assert(s@.subrange(pos as int, q1) == enc_nat_sp((v.r as usize) as nat));
            assert(s@.subrange(q1, q2) == enc_nat_sp((v.g as usize) as nat));
            assert(s@.subrange(q2, q3) == enc_nat_sp((v.b as usize) as nat));
            assert(s@.subrange(q3, p) == enc_nat_sp((v.a as usize) as nat));
        }
    }
    res
}

/// Parses a length-prefixed label followed by one newline.
fn parse_label_nl(s: &str, pos: usize) -> (r: Option<(String, usize)>)
    requires
        pos <= s@.len(),
    ensures
        r matches Some(t) ==> pos < t.1 <= s@.len() && s@.subrange(pos as int, t.1 as int)
            == enc_label_nl(t.0@),
        forall|l: Seq<char>, p: int|
            #![trigger enc_label_nl(l), s@.subrange(pos as int, p)]
            pos <= p <= s@.len() && s@.subrange(pos as int, p) == enc_label_nl(l) && l.len()
                <= 0xffff_ffff_ffff_ffff ==> match r {
                Some(t) => t.0@ == l && t.1 == p,
                None => false,
            },
{
    let slen = s.unicode_len();
    let r1 = parse_u64(s, pos);
    let res: Option<(String, usize)> = match r1 {
        Some((len_, q)) => {
            if expect_char(s, q, ':') {
                let start = q + 1;
                if len_ <= (slen - start) as u64 {
                    let lchars = len_ as usize;
                    let endc = start + lchars;
                    let sub = s.substring_char(start, endc);
                    let lab = String::from_str(sub);
                    if expect_char(s, endc, '\n') {
                        Some((lab, endc + 1))
                    } else {
                        None
                    }
                } else {
                    None
                }
            } else {
                None
            }
        },
        None => None,
    };
    proof {
        if res is Some {
            let t = res->0;
            let lt = r1->0;
            let q = (pos + enc_nat(lt.0 as nat).len()) as int;
            let start = q + 1;
            let endc = start + lt.0 as int;
            assert(s@.subrange(q, q + 1) =~= seq![':']);
            assert(s@.subrange(endc, endc + 1) =~= seq!['\n']);
            assert(t.0@ == s@.subrange(start, endc));
            assert(t.0@.len() == lt.0);
            lemma_join_at(s@, start, endc, endc + 1, t.0@, seq!['\n']);
            lemma_join_at(s@, q, start, endc + 1, seq![':'], t.0@ + seq!['\n']);
            lemma_join_at(
                s@,
                pos as int,
                q,
                endc + 1,
                enc_nat(t.0@.len()),
                seq![':'] + (t.0@ + seq!['\n']),
            );
            vstd::seq_lib::lemma_concat_associative(
                seq![':'],
                t.0@,
                seq!['\n'],
            );
            vstd::seq_lib::lemma_concat_associative(
                enc_nat(t.0@.len()),
                seq![':'],
                t.0@ + seq!['\n'],
            );
            vstd::seq_lib::lemma_concat_associative(
                enc_nat(t.0@.len()) + seq![':'],
                t.0@,
                seq!['\n'],
            );
            assert(s@.subrange(pos as int, t.1 as int) == enc_label_nl(t.0@));
        }
        assert forall|l: Seq<char>, p: int|
            pos <= p <= s@.len() && s@.subrange(pos as int, p) == enc_label_nl(l) && l.len()
                <= 0xffff_ffff_ffff_ffff implies match res {
            Some(t) => t.0@ == l && t.1 == p,
            None => false,
        } by {
            lemma_enc_nat_shape(l.len());
            vstd::seq_lib::lemma_concat_associative(
                enc_nat(l.len()) + seq![':'],
                l,
                seq!['\n'],
            );
            vstd::seq_lib::lemma_concat_associative(
                enc_nat(l.len()),
                seq![':'],
                l + seq!['\n'],
            );
            lemma_split_at(s@, pos as int, p, enc_nat(l.len()), seq![':'] + (l + seq!['\n']));
            let q = pos + enc_nat(l.len()).len();
            lemma_split_at(s@, q, p, seq![':'], l + seq!['\n']);
            let start = q + 1;
            lemma_split_at(s@, start, p, l, seq!['\n']);
            let endc = start + l.len() as int;
            assert(s@[q] == ':') by {
                assert(s@.subrange(q, start)[0] == ':');
            }
            assert(!is_dec_digit(s@[q]));
            assert(s@[endc] == '\n') by {
                assert(s@.subrange(endc, p)[0] == '\n');
            }
            let lv: u64 = l.len() as u64;
            assert(s@.subrange(pos as int, q) == enc_nat(lv as nat));
            assert(r1 == Some((lv, q as usize)));
        }
    }
    res
}

/// Parses one node record, validating that all attributes are within the
/// canvas limits.
#[verifier::rlimit(100)]
fn parse_node_entry(s: &str, pos: usize) -> (r: Option<(usize, crate::node::Node, usize)>)
    requires
        pos <= s@.len(),
    ensures
        r matches Some(t) ==> pos < t.2 <= s@.len() && s@.subrange(pos as int, t.2 as int)
            == enc_node_entry(t.0, t.1@) && t.1@.attrs_ok(),
        forall|id: usize, em: crate::node::NodeModel, p: int|
            #![trigger enc_node_entry(id, em), s@.subrange(pos as int, p)]
            pos <= p <= s@.len() && s@.subrange(pos as int, p) == enc_node_entry(id, em)
                && em.attrs_ok() ==> r is Some && (r->0).0 == id && ((r->0).1)@ == em && (
            r->0).2 == p,
{
    let slen = s.unicode_len();
    let r1 = parse_usize_sp(s, pos);
    let r2: Option<(i64, usize)> = match r1 {
        Some(t) => parse_i64_sp(s, t.1),
        None => None,
    };
    let r3: Option<(i64, usize)> = match r2 {
        Some(t) => parse_i64_sp(s, t.1),
        None => None,
    };
    let r4: Option<(i64, usize)> = match r3 {
        Some(t) => parse_i64_sp(s, t.1),
        None => None,
    };
    let r5: Option<(crate::shape::NodeShape, usize)> = match r4 {
        Some(t) => parse_shape_sp(s, t.1),
        None => None,
    };
    let r6: Option<(crate::style::Color, usize)> = match r5 {
        Some(t) => parse_color_sp(s, t.1),
        None => None,
    };
    let r7: Option<(bool, usize)> = match r6 {
        Some(t) => parse_bool_sp(s, t.1),
        None => None,
    };
    let r8: Option<(i64, usize)> = match r7 {
        Some(t) => parse_i64_sp(s, t.1),
        None => None,
    };
    let r9: Option<(String, usize)> = match r8 {
        Some(t) => parse_label_nl(s, t.1),
        None => None,
    };
    let res: Option<(usize, crate::node::Node, usize)> = match (r1, r2, r3, r4, r5, r6, r7, r8,
        r9) {
        (Some(t1), Some(t2), Some(t3), Some(t4), Some(t5), Some(t6), Some(t7), Some(t8),
            Some(t9)) => {
            if -crate::geom::UNIT_LIMIT <= t2.0 && t2.0 <= crate::geom::UNIT_LIMIT
                && -crate::geom::UNIT_LIMIT <= t3.0 && t3.0 <= crate::geom::UNIT_LIMIT && 0
                <= t4.0 && t4.0 <= crate::geom::UNIT_LIMIT && -crate::geom::UNIT_LIMIT <= t8.0
                && t8.0 <= crate::geom::UNIT_LIMIT {
                let node = crate::node::Node {
                    position: crate::geom::Point { x: t2.0, y: t3.0 },
                    size: t4.0,
                    shape: t5.0,
                    color: t6.0,
                    label: t9.0,
                    label_size_matches_node_size: t7.0,
                    label_size: t8.0,
                };
                proof {
                    assert(enc_label_nl(node@.label).len() == t9.1 - t8.1);
                    lemma_enc_nat_shape(node@.label.len());
                    assert(node@.label.len() <= s@.len());
                    lemma_node_entry_join(s@, t1.0, node@, pos as int, t1.1 as int,
                        t2.1 as int, t3.1 as int, t4.1 as int, t5.1 as int, t6.1 as int,
                        t7.1 as int, t8.1 as int, t9.1 as int);
                }
                Some((t1.0, node, t9.1))
            } else {
                None
            }
        },
        _ => None,
    };
    proof {
        assert forall|id: usize, em: crate::node::NodeModel, p: int|
            pos <= p <= s@.len() && s@.subrange(pos as int, p) == enc_node_entry(id, em)
                && em.attrs_ok() implies res is Some && (res->0).0 == id && ((res->0).1)@ == em
            && (res->0).2 == p by {
            lemma_node_entry_split(s@, pos as int, p, id, em);
            let a1 = enc_nat_sp(id as nat);
            let a2 = enc_int_sp(em.position.x as int);
            let a3 = enc_int_sp(em.position.y as int);
            let a4 = enc_int_sp(em.size as int);
            let a5 = enc_shape_sp(em.shape);
            let a6 = enc_color_sp(em.color);
            let a7 = enc_bool_sp(em.label_size_matches_node_size);
            let a8 = enc_int_sp(em.label_size as int);
            let a9 = enc_label_nl(em.label);
            let w1 = pos + a1.len();
            let w2: int = w1 + a2.len();
            let w3: int = w2 + a3.len();
            let w4: int = w3 + a4.len();
            let w5: int = w4 + a5.len();
            let w6 = w5 + a6.len();
            let w7 = w6 + a7.len();
            let w8 = w7 + a8.len();
            assert(em.position.x != i64::MIN && em.position.y != i64::MIN && em.size
                != i64::MIN && em.label_size != i64::MIN);
            assert(s@.subrange(pos as int, w1) == a1);
            assert(r1 == Some((id, w1 as usize)));
            assert(s@.subrange(w1, w2) == a2);
            assert(r2 == Some((em.position.x, w2 as usize)));
            assert(s@.subrange(w2, w3) == a3);
            assert(r3 == Some((em.position.y, w3 as usize)));
            assert(s@.subrange(w3, w4) == a4);
            assert(r4 == Some((em.size, w4 as usize)));
            assert(s@.subrange(w4, w5) == a5);
            assert(r5 == Some((em.shape, w5 as usize)));
            assert(s@.subrange(w5, w6) == a6);
            assert(r6 == Some((em.color, w6 as usize)));
            assert(s@.subrange(w6, w7) == a7);
            assert(r7 == Some((em.label_size_matches_node_size, w7 as usize)));
            assert(s@.subrange(w7, w8) == a8);
            assert(r8 == Some((em.label_size, w8 as usize)));
            assert(s@.subrange(w8, p) == a9);
            assert(em.label.len() <= 0xffff_ffff_ffff_ffff);
            assert(r9 is Some && (r9->0).0@ == em.label && (r9->0).1 == p);
            assert(res is Some);
            let t = res->0;
            assert(t.1@ =~= em);
        }
    }
    res
}

/// Parses one edge record, validating that all attributes are within the
/// canvas limits.
#[verifier::rlimit(100)]
fn parse_edge_entry(s: &str, pos: usize) -> (r: Option<(usize, crate::edge::Edge, usize)>)
    requires
        pos <= s@.len(),
    ensures
        r matches Some(t) ==> pos < t.2 <= s@.len() && s@.subrange(pos as int, t.2 as int)
            == enc_edge_entry(t.0, t.1@) && t.1@.attrs_ok(),
        forall|id: usize, em: crate::edge::EdgeModel, p: int|
            #![trigger enc_edge_entry(id, em), s@.subrange(pos as int, p)]
            pos <= p <= s@.len() && s@.subrange(pos as int, p) == enc_edge_entry(id, em)
                && em.attrs_ok() ==> r is Some && (r->0).0 == id && ((r->0).1)@ == em && (
            r->0).2 == p,
{
    let slen = s.unicode_len();
    let r1 = parse_usize_sp(s, pos);
    let r2: Option<(usize, usize)> = match r1 {
        Some(t) => parse_usize_sp(s, t.1),
        None => None,
    };
    let r3: Option<(usize, usize)> = match r2 {
        Some(t) => parse_usize_sp(s, t.1),
        None => None,
    };
    let r4: Option<(bool, usize)> = match r3 {
        Some(t) => parse_bool_sp(s, t.1),
        None => None,
    };
    let r5: Option<(crate::style::Color, usize)> = match r4 {
        Some(t) => parse_color_sp(s, t.1),
        None => None,
    };
    let r6: Option<(i64, usize)> = match r5 {
        Some(t) => parse_i64_sp(s, t.1),
        None => None,
    };
    let r7: Option<(i64, usize)> = match r6 {
        Some(t) => parse_i64_sp(s, t.1),
        None => None,
    };
    let r8: Option<(i64, usize)> = match r7 {
        Some(t) => parse_i64_sp(s, t.1),
        None => None,
    };
    let r9: Option<(i64, usize)> = match r8 {
        Some(t) => parse_i64_sp(s, t.1),
        None => None,
    };
    let r10: Option<(i64, usize)> = match r9 {
        Some(t) => parse_i64_sp(s, t.1),
        None => None,
    };
    let r11: Option<(String, usize)> = match r10 {
        Some(t) => parse_label_nl(s, t.1),
        None => None,
    };
    let res: Option<(usize, crate::edge::Edge, usize)> = match (r1, r2, r3, r4, r5, r6, r7, r8,
        r9, r10, r11) {
        (Some(t1), Some(t2), Some(t3), Some(t4), Some(t5), Some(t6), Some(t7), Some(t8),
            Some(t9), Some(t10), Some(t11)) => {
            if -crate::geom::UNIT_LIMIT <= t6.0 && t6.0 <= crate::geom::UNIT_LIMIT
                && -crate::geom::UNIT_LIMIT <= t7.0 && t7.0 <= crate::geom::UNIT_LIMIT
                && -crate::geom::UNIT_LIMIT <= t8.0 && t8.0 <= crate::geom::UNIT_LIMIT
                && -crate::geom::UNIT_LIMIT <= t9.0 && t9.0 <= crate::geom::UNIT_LIMIT
                && -crate::geom::UNIT_LIMIT <= t10.0 && t10.0 <= crate::geom::UNIT_LIMIT {
                let edge = crate::edge::Edge {
                    start_id: crate::ids::NodeId(t2.0),
                    end_id: crate::ids::NodeId(t3.0),
                    oriented: t4.0,
                    color: t5.0,
                    label: t11.0,
                    label_size: t6.0,
                    padding_x: t7.0,
                    padding_y: t8.0,
                    width: t9.0,
                    loop_rotation_angle: t10.0,
                };
                proof {
                    assert(enc_label_nl(edge@.label).len() == t11.1 - t10.1);
                    lemma_enc_nat_shape(edge@.label.len());
                    assert(edge@.label.len() <= s@.len());
                    lemma_edge_entry_join(s@, t1.0, edge@, pos as int, t1.1 as int,
                        t2.1 as int, t3.1 as int, t4.1 as int, t5.1 as int, t6.1 as int,
                        t7.1 as int, t8.1 as int, t9.1 as int, t10.1 as int, t11.1 as int);
                }
                Some((t1.0, edge, t11.1))
            } else {
                None
            }
        },
        _ => None,
    };
    proof {
        assert forall|id: usize, em: crate::edge::EdgeModel, p: int|
            pos <= p <= s@.len() && s@.subrange(pos as int, p) == enc_edge_entry(id, em)
                && em.attrs_ok() implies res is Some && (res->0).0 == id && ((res->0).1)@ == em
            && (res->0).2 == p by {
            lemma_edge_entry_split(s@, pos as int, p, id, em);
            let a1 = enc_nat_sp(id as nat);
            let a2 = enc_nat_sp(em.start_id as nat);
            let a3 = enc_nat_sp(em.end_id as nat);
            let a4 = enc_bool_sp(em.oriented);
            let a5 = enc_color_sp(em.color);
            let a6 = enc_int_sp(em.label_size as int);
            let a7 = enc_int_sp(em.padding_x as int);
            let a8 = enc_int_sp(em.padding_y as int);
            let a9 = enc_int_sp(em.width as int);
            let a10 = enc_int_sp(em.loop_rotation_angle as int);
            let a11 = enc_label_nl(em.label);
            let w1 = pos + a1.len();
            let w2: int = w1 + a2.len();
            let w3: int = w2 + a3.len();
            let w4: int = w3 + a4.len();
            let w5: int = w4 + a5.len();
            let w6 = w5 + a6.len();
            let w7 = w6 + a7.len();
            let w8 = w7 + a8.len();
            let w9 = w8 + a9.len();
            let w10 = w9 + a10.len();
            assert(s@.subrange(pos as int, w1) == a1);
            assert(r1 == Some((id, w1 as usize)));
            assert(s@.subrange(w1, w2) == a2);
            assert(r2 == Some((em.start_id, w2 as usize)));
            assert(s@.subrange(w2, w3) == a3);
            assert(r3 == Some((em.end_id, w3 as usize)));
            assert(s@.subrange(w3, w4) == a4);
            assert(r4 == Some((em.oriented, w4 as usize)));
            assert(s@.subrange(w4, w5) == a5);
            assert(r5 == Some((em.color, w5 as usize)));
            assert(em.label_size != i64::MIN && em.padding_x != i64::MIN && em.padding_y
                != i64::MIN && em.width != i64::MIN && em.loop_rotation_angle != i64::MIN);
            assert(s@.subrange(w5, w6) == a6);
            assert(r6 == Some((em.label_size, w6 as usize)));
            assert(s@.subrange(w6, w7) == a7);
            assert(r7 == Some((em.padding_x, w7 as usize)));
            assert(s@.subrange(w7, w8) == a8);
            assert(r8 == Some((em.padding_y, w8 as usize)));
            assert(s@.subrange(w8, w9) == a9);
            assert(r9 == Some((em.width, w9 as usize)));
            assert(s@.subrange(w9, w10) == a10);
            assert(r10 == Some((em.loop_rotation_angle, w10 as usize)));
            assert(s@.subrange(w10, p) == a11);
            assert(em.label.len() <= 0xffff_ffff_ffff_ffff);
            assert(r11 is Some && (r11->0).0@ == em.label && (r11->0).1 == p);
            assert(res is Some);
            let t = res->0;
            assert(t.1@ =~= em);
        }
    }
    res
}

/// Joins the consumed field ranges of a record.
proof fn lemma_edge_entry_join(s: Seq<char>, id: usize, em: crate::edge::EdgeModel, q0: int, q1: int, q2: int, q3: int, q4: int, q5: int, q6: int, q7: int, q8: int, q9: int, q10: int, q11: int)
    requires
        0 <= q0,
        q0 <= q1 <= q2 <= q3 <= q4 <= q5 <= q6 <= q7 <= q8 <= q9 <= q10 <= q11 <= s.len(),
        s.subrange(q0, q1) == enc_nat_sp(id as nat),
        s.subrange(q1, q2) == enc_nat_sp(em.start_id as nat),
        s.subrange(q2, q3) == enc_nat_sp(em.end_id as nat),
        s.subrange(q3, q4) == enc_bool_sp(em.oriented),
        s.subrange(q4, q5) == enc_color_sp(em.color),
        s.subrange(q5, q6) == enc_int_sp(em.label_size as int),
        s.subrange(q6, q7) == enc_int_sp(em.padding_x as int),
        s.subrange(q7, q8) == enc_int_sp(em.padding_y as int),
        s.subrange(q8, q9) == enc_int_sp(em.width as int),
        s.subrange(q9, q10) == enc_int_sp(em.loop_rotation_angle as int),
        s.subrange(q10, q11) == enc_label_nl(em.label),
    ensures
        s.subrange(q0, q11) == enc_edge_entry(id, em),
{
    lemma_join_at(s, q9, q10, q11, enc_int_sp(em.loop_rotation_angle as int), enc_label_nl(em.label));
    lemma_join_at(s, q8, q9, q11, enc_int_sp(em.width as int), enc_int_sp(em.loop_rotation_angle as int) + (enc_label_nl(em.label)));
    lemma_join_at(s, q7, q8, q11, enc_int_sp(em.padding_y as int), enc_int_sp(em.width as int) + (enc_int_sp(em.loop_rotation_angle as int) + (enc_label_nl(em.label))));
    lemma_join_at(s, q6, q7, q11, enc_int_sp(em.padding_x as int), enc_int_sp(em.padding_y as int) + (enc_int_sp(em.width as int) + (enc_int_sp(em.loop_rotation_angle as int) + (enc_label_nl(em.label)))));
    lemma_join_at(s, q5, q6, q11, enc_int_sp(em.label_size as int), enc_int_sp(em.padding_x as int) + (enc_int_sp(em.padding_y as int) + (enc_int_sp(em.width as int) + (enc_int_sp(em.loop_rotation_angle as int) + (enc_label_nl(em.label))))));
    lemma_join_at(s, q4, q5, q11, enc_color_sp(em.color), enc_int_sp(em.label_size as int) + (enc_int_sp(em.padding_x as int) + (enc_int_sp(em.padding_y as int) + (enc_int_sp(em.width as int) + (enc_int_sp(em.loop_rotation_angle as int) + (enc_label_nl(em.label)))))));
    lemma_join_at(s, q3, q4, q11, enc_bool_sp(em.oriented), enc_color_sp(em.color) + (enc_int_sp(em.label_size as int) + (enc_int_sp(em.padding_x as int) + (enc_int_sp(em.padding_y as int) + (enc_int_sp(em.width as int) + (enc_int_sp(em.loop_rotation_angle as int) + (enc_label_nl(em.label))))))));
    lemma_join_at(s, q2, q3, q11, enc_nat_sp(em.end_id as nat), enc_bool_sp(em.oriented) + (enc_color_sp(em.color) + (enc_int_sp(em.label_size as int) + (enc_int_sp(em.padding_x as int) + (enc_int_sp(em.padding_y as int) + (enc_int_sp(em.width as int) + (enc_int_sp(em.loop_rotation_angle as int) + (enc_label_nl(em.label)))))))));
    lemma_join_at(s, q1, q2, q11, enc_nat_sp(em.start_id as nat), enc_nat_sp(em.end_id as nat) + (enc_bool_sp(em.oriented) + (enc_color_sp(em.color) + (enc_int_sp(em.label_size as int) + (enc_int_sp(em.padding_x as int) + (enc_int_sp(em.padding_y as int) + (enc_int_sp(em.width as int) + (enc_int_sp(em.loop_rotation_angle as int) + (enc_label_nl(em.label))))))))));
    lemma_join_at(s, q0, q1, q11, enc_nat_sp(id as nat), enc_nat_sp(em.start_id as nat) + (enc_nat_sp(em.end_id as nat) + (enc_bool_sp(em.oriented) + (enc_color_sp(em.color) + (enc_int_sp(em.label_size as int) + (enc_int_sp(em.padding_x as int) + (enc_int_sp(em.padding_y as int) + (enc_int_sp(em.width as int) + (enc_int_sp(em.loop_rotation_angle as int) + (enc_label_nl(em.label)))))))))));
}

/// Splits a consumed record into its field ranges; the cumulative field
/// lengths exactly cover the range.
proof fn lemma_edge_entry_split(s: Seq<char>, q0: int, p: int, id: usize, em: crate::edge::EdgeModel)
    requires
        0 <= q0 <= p <= s.len(),
        s.subrange(q0, p) == enc_edge_entry(id, em),
    ensures
        s.subrange(q0, q0 + enc_nat_sp(id as nat).len()) == enc_nat_sp(id as nat),
        s.subrange(q0 + enc_nat_sp(id as nat).len(), q0 + enc_nat_sp(id as nat).len() + enc_nat_sp(em.start_id as nat).len()) == enc_nat_sp(em.start_id as nat),
        s.subrange(q0 + enc_nat_sp(id as nat).len() + enc_nat_sp(em.start_id as nat).len(), q0 + enc_nat_sp(id as nat).len() + enc_nat_sp(em.start_id as nat).len() + enc_nat_sp(em.end_id as nat).len()) == enc_nat_sp(em.end_id as nat),
        s.subrange(q0 + enc_nat_sp(id as nat).len() + enc_nat_sp(em.start_id as nat).len() + enc_nat_sp(em.end_id as nat).len(), q0 + enc_nat_sp(id as nat).len() + enc_nat_sp(em.start_id as nat).len() + enc_nat_sp(em.end_id as nat).len() + enc_bool_sp(em.oriented).len()) == enc_bool_sp(em.oriented),
        s.subrange(q0 + enc_nat_sp(id as nat).len() + enc_nat_sp(em.start_id as nat).len() + enc_nat_sp(em.end_id as nat).len() + enc_bool_sp(em.oriented).len(), q0 + enc_nat_sp(id as nat).len() + enc_nat_sp(em.start_id as nat).len() + enc_nat_sp(em.end_id as nat).len() + enc_bool_sp(em.oriented).len() + enc_color_sp(em.color).len()) == enc_color_sp(em.color),
        s.subrange(q0 + enc_nat_sp(id as nat).len() + enc_nat_sp(em.start_id as nat).len() + enc_nat_sp(em.end_id as nat).len() + enc_bool_sp(em.oriented).len() + enc_color_sp(em.color).len(), q0 + enc_nat_sp(id as nat).len() + enc_nat_sp(em.start_id as nat).len() + enc_nat_sp(em.end_id as nat).len() + enc_bool_sp(em.oriented).len() + enc_color_sp(em.color).len() + enc_int_sp(em.label_size as int).len()) == enc_int_sp(em.label_size as int),
        s.subrange(q0 + enc_nat_sp(id as nat).len() + enc_nat_sp(em.start_id as nat).len() + enc_nat_sp(em.end_id as nat).len() + enc_bool_sp(em.oriented).len() + enc_color_sp(em.color).len() + enc_int_sp(em.label_size as int).len(), q0 + enc_nat_sp(id as nat).len() + enc_nat_sp(em.start_id as nat).len() + enc_nat_sp(em.end_id as nat).len() + enc_bool_sp(em.oriented).len() + enc_color_sp(em.color).len() + enc_int_sp(em.label_size as int).len() + enc_int_sp(em.padding_x as int).len()) == enc_int_sp(em.padding_x as int),
        s.subrange(q0 + enc_nat_sp(id as nat).len() + enc_nat_sp(em.start_id as nat).len() + enc_nat_sp(em.end_id as nat).len() + enc_bool_sp(em.oriented).len() + enc_color_sp(em.color).len() + enc_int_sp(em.label_size as int).len() + enc_int_sp(em.padding_x as int).len(), q0 + enc_nat_sp(id as nat).len() + enc_nat_sp(em.start_id as nat).len() + enc_nat_sp(em.end_id as nat).len() + enc_bool_sp(em.oriented).len() + enc_color_sp(em.color).len() + enc_int_sp(em.label_size as int).len() + enc_int_sp(em.padding_x as int).len() + enc_int_sp(em.padding_y as int).len()) == enc_int_sp(em.padding_y as int),
        s.subrange(q0 + enc_nat_sp(id as nat).len() + enc_nat_sp(em.start_id as nat).len() + enc_nat_sp(em.end_id as nat).len() + enc_bool_sp(em.oriented).len() + enc_color_sp(em.color).len() + enc_int_sp(em.label_size as int).len() + enc_int_sp(em.padding_x as int).len() + enc_int_sp(em.padding_y as int).len(), q0 + enc_nat_sp(id as nat).len() + enc_nat_sp(em.start_id as nat).len() + enc_nat_sp(em.end_id as nat).len() + enc_bool_sp(em.oriented).len() + enc_color_sp(em.color).len() + enc_int_sp(em.label_size as int).len() + enc_int_sp(em.padding_x as int).len() + enc_int_sp(em.padding_y as int).len() + enc_int_sp(em.width as int).len()) == enc_int_sp(em.width as int),
        s.subrange(q0 + enc_nat_sp(id as nat).len() + enc_nat_sp(em.start_id as nat).len() + enc_nat_sp(em.end_id as nat).len() + enc_bool_sp(em.oriented).len() + enc_color_sp(em.color).len() + enc_int_sp(em.label_size as int).len() + enc_int_sp(em.padding_x as int).len() + enc_int_sp(em.padding_y as int).len() + enc_int_sp(em.width as int).len(), q0 + enc_nat_sp(id as nat).len() + enc_nat_sp(em.start_id as nat).len() + enc_nat_sp(em.end_id as nat).len() + enc_bool_sp(em.oriented).len() + enc_color_sp(em.color).len() + enc_int_sp(em.label_size as int).len() + enc_int_sp(em.padding_x as int).len() + enc_int_sp(em.padding_y as int).len() + enc_int_sp(em.width as int).len() + enc_int_sp(em.loop_rotation_angle as int).len()) == enc_int_sp(em.loop_rotation_angle as int),
        s.subrange(q0 + enc_nat_sp(id as nat).len() + enc_nat_sp(em.start_id as nat).len() + enc_nat_sp(em.end_id as nat).len() + enc_bool_sp(em.oriented).len() + enc_color_sp(em.color).len() + enc_int_sp(em.label_size as int).len() + enc_int_sp(em.padding_x as int).len() + enc_int_sp(em.padding_y as int).len() + enc_int_sp(em.width as int).len() + enc_int_sp(em.loop_rotation_angle as int).len(), p) == enc_label_nl(em.label),
        q0 + enc_nat_sp(id as nat).len() + enc_nat_sp(em.start_id as nat).len() + enc_nat_sp(em.end_id as nat).len() + enc_bool_sp(em.oriented).len() + enc_color_sp(em.color).len() + enc_int_sp(em.label_size as int).len() + enc_int_sp(em.padding_x as int).len() + enc_int_sp(em.padding_y as int).len() + enc_int_sp(em.width as int).len() + enc_int_sp(em.loop_rotation_angle as int).len() + enc_label_nl(em.label).len() == p,
{
    lemma_split_at(s, q0, p, enc_nat_sp(id as nat), enc_nat_sp(em.start_id as nat) + (enc_nat_sp(em.end_id as nat) + (enc_bool_sp(em.oriented) + (enc_color_sp(em.color) + (enc_int_sp(em.label_size as int) + (enc_int_sp(em.padding_x as int) + (enc_int_sp(em.padding_y as int) + (enc_int_sp(em.width as int) + (enc_int_sp(em.loop_rotation_angle as int) + (enc_label_nl(em.label)))))))))));
    let w1 = q0 + enc_nat_sp(id as nat).len();
    lemma_split_at(s, w1, p, enc_nat_sp(em.start_id as nat), enc_nat_sp(em.end_id as nat) + (enc_bool_sp(em.oriented) + (enc_color_sp(em.color) + (enc_int_sp(em.label_size as int) + (enc_int_sp(em.padding_x as int) + (enc_int_sp(em.padding_y as int) + (enc_int_sp(em.width as int) + (enc_int_sp(em.loop_rotation_angle as int) + (enc_label_nl(em.label))))))))));
    let w2 = w1 + enc_nat_sp(em.start_id as nat).len();
    lemma_split_at(s, w2, p, enc_nat_sp(em.end_id as nat), enc_bool_sp(em.oriented) + (enc_color_sp(em.color) + (enc_int_sp(em.label_size as int) + (enc_int_sp(em.padding_x as int) + (enc_int_sp(em.padding_y as int) + (enc_int_sp(em.width as int) + (enc_int_sp(em.loop_rotation_angle as int) + (enc_label_nl(em.label)))))))));
    let w3 = w2 + enc_nat_sp(em.end_id as nat).len();
    lemma_split_at(s, w3, p, enc_bool_sp(em.oriented), enc_color_sp(em.color) + (enc_int_sp(em.label_size as int) + (enc_int_sp(em.padding_x as int) + (enc_int_sp(em.padding_y as int) + (enc_int_sp(em.width as int) + (enc_int_sp(em.loop_rotation_angle as int) + (enc_label_nl(em.label))))))));
    let w4 = w3 + enc_bool_sp(em.oriented).len();
    lemma_split_at(s, w4, p, enc_color_sp(em.color), enc_int_sp(em.label_size as int) + (enc_int_sp(em.padding_x as int) + (enc_int_sp(em.padding_y as int) + (enc_int_sp(em.width as int) + (enc_int_sp(em.loop_rotation_angle as int) + (enc_label_nl(em.label)))))));
    let w5 = w4 + enc_color_sp(em.color).len();
    lemma_split_at(s, w5, p, enc_int_sp(em.label_size as int), enc_int_sp(em.padding_x as int) + (enc_int_sp(em.padding_y as int) + (enc_int_sp(em.width as int) + (enc_int_sp(em.loop_rotation_angle as int) + (enc_label_nl(em.label))))));
    let w6 = w5 + enc_int_sp(em.label_size as int).len();
    lemma_split_at(s, w6, p, enc_int_sp(em.padding_x as int), enc_int_sp(em.padding_y as int) + (enc_int_sp(em.width as int) + (enc_int_sp(em.loop_rotation_angle as int) + (enc_label_nl(em.label)))));
    let w7 = w6 + enc_int_sp(em.padding_x as int).len();
    lemma_split_at(s, w7, p, enc_int_sp(em.padding_y as int), enc_int_sp(em.width as int) + (enc_int_sp(em.loop_rotation_angle as int) + (enc_label_nl(em.label))));
    let w8 = w7 + enc_int_sp(em.padding_y as int).len();
    lemma_split_at(s, w8, p, enc_int_sp(em.width as int), enc_int_sp(em.loop_rotation_angle as int) + (enc_label_nl(em.label)));
    let w9 = w8 + enc_int_sp(em.width as int).len();
    lemma_split_at(s, w9, p, enc_int_sp(em.loop_rotation_angle as int), enc_label_nl(em.label));
    let w10 = w9 + enc_int_sp(em.loop_rotation_angle as int).len();
}

/// Joins the consumed field ranges of a record.
proof fn lemma_node_entry_join(s: Seq<char>, id: usize, em: crate::node::NodeModel, q0: int, q1: int, q2: int, q3: int, q4: int, q5: int, q6: int, q7: int, q8: int, q9: int)
    requires
        0 <= q0,
        q0 <= q1 <= q2 <= q3 <= q4 <= q5 <= q6 <= q7 <= q8 <= q9 <= s.len(),
        s.subrange(q0, q1) == enc_nat_sp(id as nat),
        s.subrange(q1, q2) == enc_int_sp(em.position.x as int),
        s.subrange(q2, q3) == enc_int_sp(em.position.y as int),
        s.subrange(q3, q4) == enc_int_sp(em.size as int),
        s.subrange(q4, q5) == enc_shape_sp(em.shape),
        s.subrange(q5, q6) == enc_color_sp(em.color),
        s.subrange(q6, q7) == enc_bool_sp(em.label_size_matches_node_size),
        s.subrange(q7, q8) == enc_int_sp(em.label_size as int),
        s.subrange(q8, q9) == enc_label_nl(em.label),
    ensures
        s.subrange(q0, q9) == enc_node_entry(id, em),
{
    lemma_join_at(s, q7, q8, q9, enc_int_sp(em.label_size as int), enc_label_nl(em.label));
    lemma_join_at(s, q6, q7, q9, enc_bool_sp(em.label_size_matches_node_size), enc_int_sp(em.label_size as int) + (enc_label_nl(em.label)));
    lemma_join_at(s, q5, q6, q9, enc_color_sp(em.color), enc_bool_sp(em.label_size_matches_node_size) + (enc_int_sp(em.label_size as int) + (enc_label_nl(em.label))));
    lemma_join_at(s, q4, q5, q9, enc_shape_sp(em.shape), enc_color_sp(em.color) + (enc_bool_sp(em.label_size_matches_node_size) + (enc_int_sp(em.label_size as int) + (enc_label_nl(em.label)))));
    lemma_join_at(s, q3, q4, q9, enc_int_sp(em.size as int), enc_shape_sp(em.shape) + (enc_color_sp(em.color) + (enc_bool_sp(em.label_size_matches_node_size) + (enc_int_sp(em.label_size as int) + (enc_label_nl(em.label))))));
    lemma_join_at(s, q2, q3, q9, enc_int_sp(em.position.y as int), enc_int_sp(em.size as int) + (enc_shape_sp(em.shape) + (enc_color_sp(em.color) + (enc_bool_sp(em.label_size_matches_node_size) + (enc_int_sp(em.label_size as int) + (enc_label_nl(em.label)))))));
    lemma_join_at(s, q1, q2, q9, enc_int_sp(em.position.x as int), enc_int_sp(em.position.y as int) + (enc_int_sp(em.size as int) + (enc_shape_sp(em.shape) + (enc_color_sp(em.color) + (enc_bool_sp(em.label_size_matches_node_size) + (enc_int_sp(em.label_size as int) + (enc_label_nl(em.label))))))));
    lemma_join_at(s, q0, q1, q9, enc_nat_sp(id as nat), enc_int_sp(em.position.x as int) + (enc_int_sp(em.position.y as int) + (enc_int_sp(em.size as int) + (enc_shape_sp(em.shape) + (enc_color_sp(em.color) + (enc_bool_sp(em.label_size_matches_node_size) + (enc_int_sp(em.label_size as int) + (enc_label_nl(em.label)))))))));
}

/// Splits a consumed record into its field ranges; the cumulative field
/// lengths exactly cover the range.
proof fn lemma_node_entry_split(s: Seq<char>, q0: int, p: int, id: usize, em: crate::node::NodeModel)
    requires
        0 <= q0 <= p <= s.len(),
        s.subrange(q0, p) == enc_node_entry(id, em),
    ensures
        s.subrange(q0, q0 + enc_nat_sp(id as nat).len()) == enc_nat_sp(id as nat),
        s.subrange(q0 + enc_nat_sp(id as nat).len(), q0 + enc_nat_sp(id as nat).len() + enc_int_sp(em.position.x as int).len()) == enc_int_sp(em.position.x as int),
        s.subrange(q0 + enc_nat_sp(id as nat).len() + enc_int_sp(em.position.x as int).len(), q0 + enc_nat_sp(id as nat).len() + enc_int_sp(em.position.x as int).len() + enc_int_sp(em.position.y as int).len()) == enc_int_sp(em.position.y as int),
        s.subrange(q0 + enc_nat_sp(id as nat).len() + enc_int_sp(em.position.x as int).len() + enc_int_sp(em.position.y as int).len(), q0 + enc_nat_sp(id as nat).len() + enc_int_sp(em.position.x as int).len() + enc_int_sp(em.position.y as int).len() + enc_int_sp(em.size as int).len()) == enc_int_sp(em.size as int),
        s.subrange(q0 + enc_nat_sp(id as nat).len() + enc_int_sp(em.position.x as int).len() + enc_int_sp(em.position.y as int).len() + enc_int_sp(em.size as int).len(), q0 + enc_nat_sp(id as nat).len() + enc_int_sp(em.position.x as int).len() + enc_int_sp(em.position.y as int).len() + enc_int_sp(em.size as int).len() + enc_shape_sp(em.shape).len()) == enc_shape_sp(em.shape),
        s.subrange(q0 + enc_nat_sp(id as nat).len() + enc_int_sp(em.position.x as int).len() + enc_int_sp(em.position.y as int).len() + enc_int_sp(em.size as int).len() + enc_shape_sp(em.shape).len(), q0 + enc_nat_sp(id as nat).len() + enc_int_sp(em.position.x as int).len() + enc_int_sp(em.position.y as int).len() + enc_int_sp(em.size as int).len() + enc_shape_sp(em.shape).len() + enc_color_sp(em.color).len()) == enc_color_sp(em.color),
        s.subrange(q0 + enc_nat_sp(id as nat).len() + enc_int_sp(em.position.x as int).len() + enc_int_sp(em.position.y as int).len() + enc_int_sp(em.size as int).len() + enc_shape_sp(em.shape).len() + enc_color_sp(em.color).len(), q0 + enc_nat_sp(id as nat).len() + enc_int_sp(em.position.x as int).len() + enc_int_sp(em.position.y as int).len() + enc_int_sp(em.size as int).len() + enc_shape_sp(em.shape).len() + enc_color_sp(em.color).len() + enc_bool_sp(em.label_size_matches_node_size).len()) == enc_bool_sp(em.label_size_matches_node_size),
        s.subrange(q0 + enc_nat_sp(id as nat).len() + enc_int_sp(em.position.x as int).len() + enc_int_sp(em.position.y as int).len() + enc_int_sp(em.size as int).len() + enc_shape_sp(em.shape).len() + enc_color_sp(em.color).len() + enc_bool_sp(em.label_size_matches_node_size).len(), q0 + enc_nat_sp(id as nat).len() + enc_int_sp(em.position.x as int).len() + enc_int_sp(em.position.y as int).len() + enc_int_sp(em.size as int).len() + enc_shape_sp(em.shape).len() + enc_color_sp(em.color).len() + enc_bool_sp(em.label_size_matches_node_size).len() + enc_int_sp(em.label_size as int).len()) == enc_int_sp(em.label_size as int),
        s.subrange(q0 + enc_nat_sp(id as nat).len() + enc_int_sp(em.position.x as int).len() + enc_int_sp(em.position.y as int).len() + enc_int_sp(em.size as int).len() + enc_shape_sp(em.shape).len() + enc_color_sp(em.color).len() + enc_bool_sp(em.label_size_matches_node_size).len() + enc_int_sp(em.label_size as int).len(), p) == enc_label_nl(em.label),
        q0 + enc_nat_sp(id as nat).len() + enc_int_sp(em.position.x as int).len() + enc_int_sp(em.position.y as int).len() + enc_int_sp(em.size as int).len() + enc_shape_sp(em.shape).len() + enc_color_sp(em.color).len() + enc_bool_sp(em.label_size_matches_node_size).len() + enc_int_sp(em.label_size as int).len() + enc_label_nl(em.label).len() == p,
{
    lemma_split_at(s, q0, p, enc_nat_sp(id as nat), enc_int_sp(em.position.x as int) + (enc_int_sp(em.position.y as int) + (enc_int_sp(em.size as int) + (enc_shape_sp(em.shape) + (enc_color_sp(em.color) + (enc_bool_sp(em.label_size_matches_node_size) + (enc_int_sp(em.label_size as int) + (enc_label_nl(em.label)))))))));
    let w1 = q0 + enc_nat_sp(id as nat).len();
    lemma_split_at(s, w1, p, enc_int_sp(em.position.x as int), enc_int_sp(em.position.y as int) + (enc_int_sp(em.size as int) + (enc_shape_sp(em.shape) + (enc_color_sp(em.color) + (enc_bool_sp(em.label_size_matches_node_size) + (enc_int_sp(em.label_size as int) + (enc_label_nl(em.label))))))));
    let w2 = w1 + enc_int_sp(em.position.x as int).len();
    lemma_split_at(s, w2, p, enc_int_sp(em.position.y as int), enc_int_sp(em.size as int) + (enc_shape_sp(em.shape) + (enc_color_sp(em.color) + (enc_bool_sp(em.label_size_matches_node_size) + (enc_int_sp(em.label_size as int) + (enc_label_nl(em.label)))))));
    let w3 = w2 + enc_int_sp(em.position.y as int).len();
    lemma_split_at(s, w3, p, enc_int_sp(em.size as int), enc_shape_sp(em.shape) + (enc_color_sp(em.color) + (enc_bool_sp(em.label_size_matches_node_size) + (enc_int_sp(em.label_size as int) + (enc_label_nl(em.label))))));
    let w4 = w3 + enc_int_sp(em.size as int).len();
    lemma_split_at(s, w4, p, enc_shape_sp(em.shape), enc_color_sp(em.color) + (enc_bool_sp(em.label_size_matches_node_size) + (enc_int_sp(em.label_size as int) + (enc_label_nl(em.label)))));
    let w5 = w4 + enc_shape_sp(em.shape).len();
    lemma_split_at(s, w5, p, enc_color_sp(em.color), enc_bool_sp(em.label_size_matches_node_size) + (enc_int_sp(em.label_size as int) + (enc_label_nl(em.label))));
    let w6 = w5 + enc_color_sp(em.color).len();
    lemma_split_at(s, w6, p, enc_bool_sp(em.label_size_matches_node_size), enc_int_sp(em.label_size as int) + (enc_label_nl(em.label)));
    let w7 = w6 + enc_bool_sp(em.label_size_matches_node_size).len();
    lemma_split_at(s, w7, p, enc_int_sp(em.label_size as int), enc_label_nl(em.label));
    let w8 = w7 + enc_int_sp(em.label_size as int).len();
}

/// The view of a parsed node vector.
pub open spec fn nodes_view(v: Seq<(crate::ids::NodeId, crate::node::Node)>) -> Seq<(
    usize,
    crate::node::NodeModel,
)> {
    v.map_values(|p: (crate::ids::NodeId, crate::node::Node)| ((p.0).0, p.1@))
}

/// The view of a parsed edge vector.
pub open spec fn edges_view(v: Seq<(crate::ids::EdgeId, crate::edge::Edge)>) -> Seq<(
    usize,
    crate::edge::EdgeModel,
)> {
    v.map_values(|p: (crate::ids::EdgeId, crate::edge::Edge)| ((p.0).0, p.1@))
}

/// What the parser demands of a node record list: ids strictly above
/// `min_id` and strictly increasing, at most `counter`, attributes in
/// range.
pub open spec fn nodes_valid(
    ns: Seq<(usize, crate::node::NodeModel)>,
    min_id: usize,
    counter: usize,
) -> bool {
    &&& forall|i: int, j: int|
        0 <= i < j < ns.len() ==> (#[trigger] ns[i]).0 < (#[trigger] ns[j]).0
    &&& forall|i: int| 0 <= i < ns.len() ==> min_id < (#[trigger] ns[i]).0 <= counter
    &&& forall|i: int| 0 <= i < ns.len() ==> (#[trigger] ns[i]).1.attrs_ok()
}

/// What the parser demands of an edge record list, against the node list:
/// additionally, both endpoints of every edge are present.
pub open spec fn edges_valid(
    es: Seq<(usize, crate::edge::EdgeModel)>,
    min_id: usize,
    counter: usize,
    ns: Seq<(usize, crate::node::NodeModel)>,
) -> bool {
    &&& forall|i: int, j: int|
        0 <= i < j < es.len() ==> (#[trigger] es[i]).0 < (#[trigger] es[j]).0
    &&& forall|i: int| 0 <= i < es.len() ==> min_id < (#[trigger] es[i]).0 <= counter
    &&& forall|i: int| 0 <= i < es.len() ==> (#[trigger] es[i]).1.attrs_ok()
    &&& forall|i: int|
        0 <= i < es.len() ==> id_in_nodes(ns, (#[trigger] es[i]).1.start_id) && id_in_nodes(
            ns,
            es[i].1.end_id,
        )
}

pub open spec fn id_in_nodes(ns: Seq<(usize, crate::node::NodeModel)>, id: usize) -> bool {
    exists|k: int| 0 <= k < ns.len() && (#[trigger] ns[k]).0 == id
}

/// Whether a node with the given id was parsed.
fn contains_node(nodes: &Vec<(crate::ids::NodeId, crate::node::Node)>, id: usize) -> (r: bool)
    ensures
        r == id_in_nodes(nodes_view(nodes@), id),
{
    let n = nodes.len();
    let mut i: usize = 0;
    while i < n
        invariant
            0 <= i <= n == nodes@.len(),
            forall|j: int| 0 <= j < i ==> ((#[trigger] nodes@[j]).0).0 != id,
        decreases n - i,
    {
        if (nodes[i].0).0 == id {
            proof {
                assert(nodes_view(nodes@)[i as int].0 == id);
            }
            return true;
        }
        i = i + 1;
    }
    proof {
        assert forall|k: int|
            0 <= k < nodes_view(nodes@).len() implies (#[trigger] nodes_view(nodes@)[k]).0
            != id by {
            assert(((nodes@[k]).0).0 != id);
        }
    }
    false
}

/// Parses exactly `count` node records, ids ascending from above `min_id`
/// up to `counter`.
#[verifier::rlimit(100)]
fn parse_nodes(s: &str, pos: usize, count: usize, min_id: usize, counter: usize) -> (r: Option<
    (Vec<(crate::ids::NodeId, crate::node::Node)>, usize),
>)
    requires
        pos <= s@.len(),
    ensures
        r matches Some(t) ==> pos <= t.1 <= s@.len() && nodes_view(t.0@).len() == count
            && s@.subrange(pos as int, t.1 as int) == enc_nodes(nodes_view(t.0@))
            && nodes_valid(nodes_view(t.0@), min_id, counter),
        forall|ns: Seq<(usize, crate::node::NodeModel)>, p: int|
            #![trigger enc_nodes(ns), s@.subrange(pos as int, p)]
            pos <= p <= s@.len() && s@.subrange(pos as int, p) == enc_nodes(ns) && ns.len()
                == count && nodes_valid(ns, min_id, counter) ==> r is Some && nodes_view(
                (r->0).0@,
            ) == ns && (r->0).1 == p,
    decreases count,
{
    if count == 0 {
        let out: Vec<(crate::ids::NodeId, crate::node::Node)> = Vec::new();
        proof {
            assert(nodes_view(out@) =~= Seq::<(usize, crate::node::NodeModel)>::empty());
            assert(s@.subrange(pos as int, pos as int) =~= Seq::<char>::empty());
            assert forall|ns: Seq<(usize, crate::node::NodeModel)>, p: int|
                pos <= p <= s@.len() && s@.subrange(pos as int, p) == enc_nodes(ns) && ns.len()
                    == 0 && nodes_valid(ns, min_id, counter) implies p == pos && nodes_view(
                out@,
            ) == ns by {
                assert(enc_nodes(ns) =~= Seq::<char>::empty());
                assert(s@.subrange(pos as int, p).len() == p - pos);
                assert(nodes_view(out@) =~= ns);
            }
        }
        return Some((out, pos));
    }
    let r1 = parse_node_entry(s, pos);
    match r1 {
        Some((id, node, q)) => {
            let ghost nodem = node@;
            if min_id < id && id <= counter {
                let r2 = parse_nodes(s, q, count - 1, id, counter);
                match r2 {
                    Some((rest, p)) => {
                        let ghost restm = nodes_view(rest@);
                        let mut out: Vec<(crate::ids::NodeId, crate::node::Node)> = Vec::new();
                        out.push((crate::ids::NodeId(id), node));
                        let mut rest2 = rest;
                        out.append(&mut rest2);
                        proof {
                            let vm = nodes_view(out@);
                            assert(vm =~= seq![(id, nodem)] + restm);
                            assert(vm[0] == (id, nodem));
                            assert(vm.drop_first() =~= restm);
                            assert(enc_nodes(vm) == enc_node_entry(id, nodem) + enc_nodes(
                                restm));
                            lemma_join_at(
                                s@,
                                pos as int,
                                q as int,
                                p as int,
                                enc_node_entry(id, nodem),
                                enc_nodes(restm),
                            );
                            assert forall|i: int, j: int|
                                0 <= i < j < vm.len() implies (#[trigger] vm[i]).0 < (
                            #[trigger] vm[j]).0 by {
                                if i > 0 {
                                    assert(vm[i] == restm[i - 1] && vm[j] == restm[j - 1]);
                                } else {
                                    assert(vm[j] == restm[j - 1]);
                                }
                            }
                            assert forall|i: int|
                                0 <= i < vm.len() implies min_id < (#[trigger] vm[i]).0
                                <= counter && vm[i].1.attrs_ok() by {
                                if i > 0 {
                                    assert(vm[i] == restm[i - 1]);
                                }
                            }
                            assert(nodes_valid(vm, min_id, counter));
                            assert forall|ns: Seq<(usize, crate::node::NodeModel)>, p2: int|
                                pos <= p2 <= s@.len() && s@.subrange(pos as int, p2)
                                    == enc_nodes(ns) && ns.len() == count && nodes_valid(
                                ns,
                                min_id,
                                counter,
                            ) implies vm == ns && p == p2 by {
                                lemma_nodes_completeness_step(s@, pos as int, p2, ns, min_id,
                                    counter);
                                assert(r1 is Some && (r1->0).0 == ns[0].0 && ((r1->0).1)@
                                    == ns[0].1 && (r1->0).2 == pos + enc_node_entry(
                                    ns[0].0,
                                    ns[0].1,
                                ).len());
                                assert(id == ns[0].0 && nodem == ns[0].1);
                                let dns = ns.drop_first();
                                assert(s@.subrange(q as int, p2) == enc_nodes(dns));
                                assert(dns.len() == count - 1);
                                assert(nodes_valid(dns, id, counter));
                                assert(r2 is Some && nodes_view((r2->0).0@) == dns && (
                                r2->0).1 == p2);
                                assert(restm == dns);
                                assert(vm =~= ns);
                            }
                        }
                        Some((out, p))
                    },
                    None => {
                        proof {
                            assert forall|ns: Seq<(usize, crate::node::NodeModel)>, p2: int|
                                pos <= p2 <= s@.len() && s@.subrange(pos as int, p2)
                                    == enc_nodes(ns) && ns.len() == count && nodes_valid(
                                ns,
                                min_id,
                                counter,
                            ) implies false by {
                                lemma_nodes_completeness_step(s@, pos as int, p2, ns, min_id,
                                    counter);
                                assert(id == ns[0].0 && nodem == ns[0].1);
                                let dns = ns.drop_first();
                                assert(s@.subrange(q as int, p2) == enc_nodes(dns));
                                assert(dns.len() == count - 1);
                                assert(nodes_valid(dns, id, counter));
                                assert(r2 is Some);
                            }
                        }
                        None
                    },
                }
            } else {
                proof {
                    assert forall|ns: Seq<(usize, crate::node::NodeModel)>, p2: int|
                        pos <= p2 <= s@.len() && s@.subrange(pos as int, p2) == enc_nodes(ns)
                            && ns.len() == count && nodes_valid(ns, min_id, counter)
                        implies false by {
                        lemma_nodes_completeness_step(s@, pos as int, p2, ns, min_id, counter);
                        assert(id == ns[0].0);
                        assert(min_id < ns[0].0 <= counter);
                    }
                }
                None
            }
        },
        None => {
            proof {
                assert forall|ns: Seq<(usize, crate::node::NodeModel)>, p2: int|
                    pos <= p2 <= s@.len() && s@.subrange(pos as int, p2) == enc_nodes(ns)
                        && ns.len() == count && nodes_valid(ns, min_id, counter)
                    implies false by {
                    lemma_nodes_completeness_step(s@, pos as int, p2, ns, min_id, counter);
                    assert(r1 is Some);
                }
            }
            None
        },
    }
}

/// One unfolding step of a nonempty node record list: the text splits into
/// the first record and the remainder.
proof fn lemma_nodes_completeness_step(
    s: Seq<char>,
    pos: int,
    p: int,
    ns: Seq<(usize, crate::node::NodeModel)>,
    min_id: usize,
    counter: usize,
)
    requires
        0 <= pos <= p <= s.len(),
        s.subrange(pos, p) == enc_nodes(ns),
        ns.len() >= 1,
        nodes_valid(ns, min_id, counter),
    ensures
        s.subrange(pos, pos + enc_node_entry(ns[0].0, ns[0].1).len()) == enc_node_entry(
            ns[0].0,
            ns[0].1,
        ),
        s.subrange(pos + enc_node_entry(ns[0].0, ns[0].1).len(), p) == enc_nodes(
            ns.drop_first(),
        ),
        ns[0].1.attrs_ok(),
        min_id < ns[0].0 <= counter,
        nodes_valid(ns.drop_first(), ns[0].0, counter),
        ns.drop_first().len() == ns.len() - 1,
        pos + enc_node_entry(ns[0].0, ns[0].1).len() + enc_nodes(ns.drop_first()).len() == p,
{
    assert(enc_nodes(ns) == enc_node_entry(ns[0].0, ns[0].1) + enc_nodes(ns.drop_first()));
    lemma_split_at(s, pos, p, enc_node_entry(ns[0].0, ns[0].1), enc_nodes(ns.drop_first()));
    let dns = ns.drop_first();
    assert forall|i: int, j: int| 0 <= i < j < dns.len() implies (#[trigger] dns[i]).0 < (
    #[trigger] dns[j]).0 by {
        assert(dns[i] == ns[i + 1] && dns[j] == ns[j + 1]);
    }
    assert forall|i: int|
        0 <= i < dns.len() implies ns[0].0 < (#[trigger] dns[i]).0 <= counter
        && dns[i].1.attrs_ok() by {
        assert(dns[i] == ns[i + 1]);
        assert(ns[0].0 < ns[i + 1].0);
    }
}

/// One unfolding step of a nonempty edge record list.
proof fn lemma_edges_completeness_step(
    s: Seq<char>,
    pos: int,
    p: int,
    es: Seq<(usize, crate::edge::EdgeModel)>,
    min_id: usize,
    counter: usize,
    ns: Seq<(usize, crate::node::NodeModel)>,
)
    requires
        0 <= pos <= p <= s.len(),
        s.subrange(pos, p) == enc_edges(es),
        es.len() >= 1,
        edges_valid(es, min_id, counter, ns),
    ensures
        s.subrange(pos, pos + enc_edge_entry(es[0].0, es[0].1).len()) == enc_edge_entry(
            es[0].0,
            es[0].1,
        ),
        s.subrange(pos + enc_edge_entry(es[0].0, es[0].1).len(), p) == enc_edges(
            es.drop_first(),
        ),
        es[0].1.attrs_ok(),
        min_id < es[0].0 <= counter,
        id_in_nodes(ns, es[0].1.start_id),
        id_in_nodes(ns, es[0].1.end_id),
        edges_valid(es.drop_first(), es[0].0, counter, ns),
        es.drop_first().len() == es.len() - 1,
        pos + enc_edge_entry(es[0].0, es[0].1).len() + enc_edges(es.drop_first()).len() == p,
{
    assert(enc_edges(es) == enc_edge_entry(es[0].0, es[0].1) + enc_edges(es.drop_first()));
    lemma_split_at(s, pos, p, enc_edge_entry(es[0].0, es[0].1), enc_edges(es.drop_first()));
    let des = es.drop_first();
    assert forall|i: int, j: int| 0 <= i < j < des.len() implies (#[trigger] des[i]).0 < (
    #[trigger] des[j]).0 by {
        assert(des[i] == es[i + 1] && des[j] == es[j + 1]);
    }
    assert forall|i: int|
        0 <= i < des.len() implies es[0].0 < (#[trigger] des[i]).0 <= counter
        && des[i].1.attrs_ok() && id_in_nodes(ns, des[i].1.start_id) && id_in_nodes(
        ns,
        des[i].1.end_id,
    ) by {
        assert(des[i] == es[i + 1]);
        assert(es[0].0 < es[i + 1].0);
    }
}

/// Parses exactly `count` edge records, ids ascending, endpoints among the
/// parsed nodes.
#[verifier::rlimit(100)]
fn parse_edges(
    s: &str,
    pos: usize,
    count: usize,
    min_id: usize,
    counter: usize,
    nodes: &Vec<(crate::ids::NodeId, crate::node::Node)>,
) -> (r: Option<(Vec<(crate::ids::EdgeId, crate::edge::Edge)>, usize)>)
    requires
        pos <= s@.len(),
    ensures
        r matches Some(t) ==> pos <= t.1 <= s@.len() && edges_view(t.0@).len() == count
            && s@.subrange(pos as int, t.1 as int) == enc_edges(edges_view(t.0@))
            && edges_valid(edges_view(t.0@), min_id, counter, nodes_view(nodes@)),
        forall|es: Seq<(usize, crate::edge::EdgeModel)>, p: int|
            #![trigger enc_edges(es), s@.subrange(pos as int, p)]
            pos <= p <= s@.len() && s@.subrange(pos as int, p) == enc_edges(es) && es.len()
                == count && edges_valid(es, min_id, counter, nodes_view(nodes@)) ==> r is Some
                && edges_view((r->0).0@) == es && (r->0).1 == p,
    decreases count,
{
    if count == 0 {
        let out: Vec<(crate::ids::EdgeId, crate::edge::Edge)> = Vec::new();
        proof {
            assert(edges_view(out@) =~= Seq::<(usize, crate::edge::EdgeModel)>::empty());
            assert(s@.subrange(pos as int, pos as int) =~= Seq::<char>::empty());
            assert forall|es: Seq<(usize, crate::edge::EdgeModel)>, p: int|
                pos <= p <= s@.len() && s@.subrange(pos as int, p) == enc_edges(es) && es.len()
                    == 0 && edges_valid(es, min_id, counter, nodes_view(nodes@)) implies p
                == pos && edges_view(out@) == es by {
                assert(enc_edges(es) =~= Seq::<char>::empty());
                assert(s@.subrange(pos as int, p).len() == p - pos);
                assert(edges_view(out@) =~= es);
            }
        }
        return Some((out, pos));
    }
    let r1 = parse_edge_entry(s, pos);
    match r1 {
        Some((id, edge, q)) => {
            let ghost edgem = edge@;
            let ok = min_id < id && id <= counter && contains_node(nodes, edge.start_id.0)
                && contains_node(nodes, edge.end_id.0);
            if ok {
                let r2 = parse_edges(s, q, count - 1, id, counter, nodes);
                match r2 {
                    Some((rest, p)) => {
                        let ghost restm = edges_view(rest@);
                        let mut out: Vec<(crate::ids::EdgeId, crate::edge::Edge)> = Vec::new();
                        out.push((crate::ids::EdgeId(id), edge));
                        let mut rest2 = rest;
                        out.append(&mut rest2);
                        proof {
                            let vm = edges_view(out@);
                            assert(vm =~= seq![(id, edgem)] + restm);
                            assert(vm[0] == (id, edgem));
                            assert(vm.drop_first() =~= restm);
                            assert(enc_edges(vm) == enc_edge_entry(id, edgem) + enc_edges(
                                restm));
                            lemma_join_at(
                                s@,
                                pos as int,
                                q as int,
                                p as int,
                                enc_edge_entry(id, edgem),
                                enc_edges(restm),
                            );
                            assert forall|i: int, j: int|
                                0 <= i < j < vm.len() implies (#[trigger] vm[i]).0 < (
                            #[trigger] vm[j]).0 by {
                                if i > 0 {
                                    assert(vm[i] == restm[i - 1] && vm[j] == restm[j - 1]);
                                } else {
                                    assert(vm[j] == restm[j - 1]);
                                }
                            }
                            assert forall|i: int|
                                0 <= i < vm.len() implies min_id < (#[trigger] vm[i]).0
                                <= counter && vm[i].1.attrs_ok() && id_in_nodes(
                                nodes_view(nodes@),
                                vm[i].1.start_id,
                            ) && id_in_nodes(nodes_view(nodes@), vm[i].1.end_id) by {
                                if i > 0 {
                                    assert(vm[i] == restm[i - 1]);
                                }
                            }
                            assert(edges_valid(vm, min_id, counter, nodes_view(nodes@)));
                            assert forall|es: Seq<(usize, crate::edge::EdgeModel)>, p2: int|
                                pos <= p2 <= s@.len() && s@.subrange(pos as int, p2)
                                    == enc_edges(es) && es.len() == count && edges_valid(
                                es,
                                min_id,
                                counter,
                                nodes_view(nodes@),
                            ) implies vm == es && p == p2 by {
                                lemma_edges_completeness_step(s@, pos as int, p2, es, min_id,
                                    counter, nodes_view(nodes@));
                                assert(id == es[0].0 && edgem == es[0].1);
                                let des = es.drop_first();
                                assert(s@.subrange(q as int, p2) == enc_edges(des));
                                assert(des.len() == count - 1);
                                assert(edges_valid(des, id, counter, nodes_view(nodes@)));
                                assert(r2 is Some && edges_view((r2->0).0@) == des && (
                                r2->0).1 == p2);
                                assert(restm == des);
                                assert(vm =~= es);
                            }
                        }
                        Some((out, p))
                    },
                    None => {
                        proof {
                            assert forall|es: Seq<(usize, crate::edge::EdgeModel)>, p2: int|
                                pos <= p2 <= s@.len() && s@.subrange(pos as int, p2)
                                    == enc_edges(es) && es.len() == count && edges_valid(
                                es,
                                min_id,
                                counter,
                                nodes_view(nodes@),
                            ) implies false by {
                                lemma_edges_completeness_step(s@, pos as int, p2, es, min_id,
                                    counter, nodes_view(nodes@));
                                assert(id == es[0].0 && edgem == es[0].1);
                                let des = es.drop_first();
                                assert(s@.subrange(q as int, p2) == enc_edges(des));
                                assert(des.len() == count - 1);
                                assert(edges_valid(des, id, counter, nodes_view(nodes@)));
                                assert(r2 is Some);
                            }
                        }
                        None
                    },
                }
            } else {
                proof {
                    assert forall|es: Seq<(usize, crate::edge::EdgeModel)>, p2: int|
                        pos <= p2 <= s@.len() && s@.subrange(pos as int, p2) == enc_edges(es)
                            && es.len() == count && edges_valid(
                        es,
                        min_id,
                        counter,
                        nodes_view(nodes@),
                    ) implies false by {
                        lemma_edges_completeness_step(s@, pos as int, p2, es, min_id, counter,
                            nodes_view(nodes@));
                        assert(id == es[0].0 && edgem == es[0].1);
                        assert(min_id < es[0].0 <= counter);
                        assert(id_in_nodes(nodes_view(nodes@), edgem.start_id));
                        assert(id_in_nodes(nodes_view(nodes@), edgem.end_id));
                    }
                }
                None
            }
        },
        None => {
            proof {
                assert forall|es: Seq<(usize, crate::edge::EdgeModel)>, p2: int|
                    pos <= p2 <= s@.len() && s@.subrange(pos as int, p2) == enc_edges(es)
                        && es.len() == count && edges_valid(
                    es,
                    min_id,
                    counter,
                    nodes_view(nodes@),
                ) implies false by {
                    lemma_edges_completeness_step(s@, pos as int, p2, es, min_id, counter,
                        nodes_view(nodes@));
                    assert(r1 is Some);
                }
            }
            None
        },
    }
}

/// Joins the consumed ranges of a document: header fields, node records,
/// edge records.
proof fn lemma_graph_join(
    s: Seq<char>,
    gm: crate::graph::GraphModel,
    q1: int,
    q2: int,
    q3: int,
    q4: int,
    q5: int,
    q6: int,
)
    requires
        0 <= q1 <= q2 <= q3 <= q4 <= q5 <= q6 <= s.len(),
        s.subrange(0, q1) == enc_nat_sp(gm.node_id_counter as nat),
        s.subrange(q1, q2) == enc_nat_sp(gm.edge_id_counter as nat),
        s.subrange(q2, q3) == enc_nat_sp(gm.nodes.len()),
        s.subrange(q3, q4) == enc_nat_nl(gm.edges.len()),
        s.subrange(q4, q5) == enc_nodes(gm.nodes),
        s.subrange(q5, q6) == enc_edges(gm.edges),
    ensures
        s.subrange(0, q6) == enc_graph(gm),
{
    lemma_join_at(s, q4, q5, q6, enc_nodes(gm.nodes), enc_edges(gm.edges));
    lemma_join_at(
        s,
        q3,
        q4,
        q6,
        enc_nat_nl(gm.edges.len()),
        enc_nodes(gm.nodes) + enc_edges(gm.edges),
    );
    lemma_join_at(
        s,
        q2,
        q3,
        q6,
        enc_nat_sp(gm.nodes.len()),
        enc_nat_nl(gm.edges.len()) + (enc_nodes(gm.nodes) + enc_edges(gm.edges)),
    );
    lemma_join_at(
        s,
        q1,
        q2,
        q6,
        enc_nat_sp(gm.edge_id_counter as nat),
        enc_nat_sp(gm.nodes.len()) + (enc_nat_nl(gm.edges.len()) + (enc_nodes(gm.nodes)
            + enc_edges(gm.edges))),
    );
    lemma_join_at(
        s,
        0,
        q1,
        q6,
        enc_nat_sp(gm.node_id_counter as nat),
        enc_nat_sp(gm.edge_id_counter as nat) + (enc_nat_sp(gm.nodes.len()) + (enc_nat_nl(
            gm.edges.len(),
        ) + (enc_nodes(gm.nodes) + enc_edges(gm.edges)))),
    );
}

/// Splits a whole document into its consumed ranges; the cumulative field
/// lengths exactly cover the text.
proof fn lemma_graph_split(s: Seq<char>, m: crate::graph::GraphModel)
    requires
        s == enc_graph(m),
    ensures
        ({
            let w1 = enc_nat_sp(m.node_id_counter as nat).len() as int;
            let w2 = w1 + enc_nat_sp(m.edge_id_counter as nat).len();
            let w3 = w2 + enc_nat_sp(m.nodes.len()).len();
            let w4 = w3 + enc_nat_nl(m.edges.len()).len();
            let w5 = w4 + enc_nodes(m.nodes).len();
            &&& s.subrange(0, w1) == enc_nat_sp(m.node_id_counter as nat)
            &&& s.subrange(w1, w2) == enc_nat_sp(m.edge_id_counter as nat)
            &&& s.subrange(w2, w3) == enc_nat_sp(m.nodes.len())
            &&& s.subrange(w3, w4) == enc_nat_nl(m.edges.len())
            &&& s.subrange(w4, w5) == enc_nodes(m.nodes)
            &&& s.subrange(w5, s.len() as int) == enc_edges(m.edges)
            &&& w5 + enc_edges(m.edges).len() == s.len()
        }),
{
    let a1 = enc_nat_sp(m.node_id_counter as nat);
    let a2 = enc_nat_sp(m.edge_id_counter as nat);
    let a3 = enc_nat_sp(m.nodes.len());
    let a4 = enc_nat_nl(m.edges.len());
    let a5 = enc_nodes(m.nodes);
    let a6 = enc_edges(m.edges);
    assert(s.subrange(0, s.len() as int) =~= s);
    lemma_split_at(s, 0, s.len() as int, a1, a2 + (a3 + (a4 + (a5 + a6))));
    let w1: int = 0int + a1.len() as int;
    lemma_split_at(s, w1, s.len() as int, a2, a3 + (a4 + (a5 + a6)));
    let w2: int = w1 + a2.len();
    lemma_split_at(s, w2, s.len() as int, a3, a4 + (a5 + a6));
    let w3: int = w2 + a3.len();
    lemma_split_at(s, w3, s.len() as int, a4, a5 + a6);
    let w4: int = w3 + a4.len();
    lemma_split_at(s, w4, s.len() as int, a5, a6);
}

/// In a strictly ascending id sequence starting at one, the id at index
/// `i` is at least `i + 1`; so the length never exceeds the counter.
proof fn lemma_ids_min<T>(ns: Seq<(usize, T)>, i: int)
    requires
        forall|a: int, b: int| 0 <= a < b < ns.len() ==> (#[trigger] ns[a]).0 < (#[trigger] ns[b]).0,
        forall|a: int| 0 <= a < ns.len() ==> (#[trigger] ns[a]).0 >= 1,
        0 <= i < ns.len(),
    ensures
        ns[i].0 >= i + 1,
    decreases i,
{
    if i > 0 {
        lemma_ids_min(ns, i - 1);
        assert(ns[i - 1].0 < ns[i].0);
    }
}

/// Parses a persistence document back into a graph store.
///
/// Success means the document is exactly the canonical encoding of the
/// returned (well-formed) store; conversely, the canonical encoding of any
/// well-formed store parses back to that store. Together with
/// [`graph_string`] this is the round-trip guarantee: parsing a saved
/// document yields a store with the same nodes, edges and counters.
#[verifier::rlimit(100)]
#[verifier::spinoff_prover]
pub fn parse_graph_str(s: &str) -> (r: Result<
    crate::graph::Graph,
    crate::error::GraphEditorError,
>)
    ensures
        r matches Ok(g) ==> g@.wf() && s@ == enc_graph(g@),
        forall|m: crate::graph::GraphModel|
            #![trigger enc_graph(m)]
            m.wf() && s@ == enc_graph(m) ==> match r {
                Ok(g) => g@ == m,
                Err(_) => false,
            },
        r matches Err(e) ==> e == crate::error::GraphEditorError::FailedOpenFile,
{
    let slen = s.unicode_len();
    let r1 = parse_usize_sp(s, 0);
    let r2: Option<(usize, usize)> = match r1 {
        Some(t) => parse_usize_sp(s, t.1),
        None => None,
    };
    let r3: Option<(usize, usize)> = match r2 {
        Some(t) => parse_usize_sp(s, t.1),
        None => None,
    };
    let r4: Option<(usize, usize)> = match r3 {
        Some(t) => parse_usize_nl(s, t.1),
        None => None,
    };
    let r5: Option<(Vec<(crate::ids::NodeId, crate::node::Node)>, usize)> = match (r1, r3, r4) {
        (Some(t1), Some(t3), Some(t4)) => parse_nodes(s, t4.1, t3.0, 0, t1.0),
        _ => None,
    };
    let r6: Option<(Vec<(crate::ids::EdgeId, crate::edge::Edge)>, usize)> = match (r2, r4, &r5) {
        (Some(t2), Some(t4), Some(t5)) => parse_edges(s, t5.1, t4.0, 0, t2.0, &t5.0),
        _ => None,
    };
    let res: Result<crate::graph::Graph, crate::error::GraphEditorError> = match (r1, r2, r3,
        r4, r5, r6) {
        (Some(t1), Some(t2), Some(t3), Some(t4), Some(t5), Some(t6)) => {
            if t6.1 == slen {
                let ghost nm = nodes_view(t5.0@);
                let ghost em = edges_view(t6.0@);
                let g = crate::graph::Graph::from_parts(t5.0, t6.0, t1.0, t2.0);
                proof {
                    let gm = g@;
                    assert(gm.nodes == nm && gm.edges == em);
                    assert forall|x: usize| id_in_nodes(gm.nodes, x) implies gm.has_node(
                        x,
                    ) by {
                        let k = choose|k: int|
                            0 <= k < gm.nodes.len() && (#[trigger] gm.nodes[k]).0 == x;
                    }
                    assert(gm.wf());
                    lemma_graph_join(s@, gm, t1.1 as int, t2.1 as int, t3.1 as int,
                        t4.1 as int, t5.1 as int, t6.1 as int);
                    assert(s@.subrange(0, slen as int) =~= s@);
                    assert(s@ == enc_graph(gm));
                }
                Ok(g)
            } else {
                Err(crate::error::GraphEditorError::FailedOpenFile)
            }
        },
        _ => Err(crate::error::GraphEditorError::FailedOpenFile),
    };
    proof {
        assert forall|m: crate::graph::GraphModel|
            m.wf() && s@ == enc_graph(m) implies match res {
            Ok(g) => g@ == m,
            Err(_) => false,
        } by {
            let a1 = enc_nat_sp(m.node_id_counter as nat);
            let a2 = enc_nat_sp(m.edge_id_counter as nat);
            let a3 = enc_nat_sp(m.nodes.len());
            let a4 = enc_nat_nl(m.edges.len());
            let a5 = enc_nodes(m.nodes);
            let a6 = enc_edges(m.edges);
            lemma_graph_split(s@, m);
            let w1: int = 0int + a1.len() as int;
            let w2: int = w1 + a2.len();
            let w3: int = w2 + a3.len();
            let w4: int = w3 + a4.len();
            let w5: int = w4 + a5.len();
            if m.nodes.len() > 0 {
                lemma_ids_min(m.nodes, m.nodes.len() - 1);
            }
            if m.edges.len() > 0 {
                lemma_ids_min(m.edges, m.edges.len() - 1);
            }
            assert(m.nodes.len() <= m.node_id_counter && m.edges.len()
                <= m.edge_id_counter);
            assert(s@.subrange(0, w1) == a1);
            assert(r1 == Some((m.node_id_counter, w1 as usize)));
            assert(s@.subrange(w1, w2) == a2);
            assert(r2 == Some((m.edge_id_counter, w2 as usize)));
            let ncount: usize = m.nodes.len() as usize;
            let ecount: usize = m.edges.len() as usize;
            assert(s@.subrange(w2, w3) == enc_nat_sp(ncount as nat));
            assert(r3 == Some((ncount, w3 as usize)));
            assert(s@.subrange(w3, w4) == enc_nat_nl(ecount as nat));
            assert(r4 == Some((ecount, w4 as usize)));
            assert(s@.subrange(w4, w5) == a5);
            assert(nodes_valid(m.nodes, 0, m.node_id_counter));
            assert(r5 is Some && nodes_view((r5->0).0@) == m.nodes && (r5->0).1 == w5);
            assert(s@.subrange(w5, s@.len() as int) == a6);
            assert forall|x: usize| m.has_node(x) implies id_in_nodes(
                nodes_view((r5->0).0@),
                x,
            ) by {
                let k = choose|k: int|
                    0 <= k < m.nodes.len() && (#[trigger] m.nodes[k]).0 == x;
                assert(nodes_view((r5->0).0@)[k].0 == x);
            }
            assert(edges_valid(m.edges, 0, m.edge_id_counter, nodes_view((r5->0).0@)));
            assert(r6 is Some && edges_view((r6->0).0@) == m.edges && (r6->0).1
                == s@.len());
            assert(res is Ok);
            let g = res->Ok_0;
            assert(g@.nodes == m.nodes && g@.edges == m.edges);
            assert(g@ =~= m);
        }
    }
    res
}

} // verus!
