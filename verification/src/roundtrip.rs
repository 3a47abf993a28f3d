use vstd::prelude::*;

use crate::decode::all_digits;
use crate::decode::dig_val;
use crate::decode::is_alpha;
use crate::decode::is_digit;
use crate::decode::is_ident_char;
use crate::decode::is_ws;
use crate::decode::sp_digits_end;
use crate::decode::sp_ident_end;
use crate::decode::sp_ws;
use crate::decode::SpR;
use crate::decode::ValueV;
use crate::num::Dec;
use crate::num::pow10;

verus! {

// ---------------------------------------------------------------------------
// The decoder reproduces value trees from their literal text.
//
// `print_value` writes the canonical literal of a tree: reals in
// exponent form with the decimal point after the first mantissa digit,
// integers and ids in plain decimal, strings and enumeration tokens
// between their delimiters, tuples and records with comma-separated
// members.  `lemma_value_round_trip` proves that decoding that text
// yields the tree back, for every well-formed tree.
// ---------------------------------------------------------------------------

pub open spec fn digit_byte(d: nat) -> u8 {
    (48 + d % 10) as u8
}

/// The decimal digits of `n`, most significant first, as bytes.
pub open spec fn dec_digs(n: nat) -> Seq<u8>
    decreases n,
{
    if n < 10 {
        seq![digit_byte(n)]
    } else {
        dec_digs(n / 10) + seq![digit_byte(n % 10)]
    }
}

/// The value written by a digit run.
pub open spec fn val_digs(ds: Seq<u8>) -> nat
    decreases ds.len(),
{
    if ds.len() == 0 {
        0
    } else {
        val_digs(ds.drop_last()) * 10 + (ds.last() - 48) as nat
    }
}

/// A signed decimal integer.
pub open spec fn print_int(n: int) -> Seq<u8> {
    if n < 0 {
        seq![45u8] + dec_digs((-n) as nat)
    } else {
        dec_digs(n as nat)
    }
}

/// A real literal in exponent form: the first mantissa digit, the point,
/// the remaining digits, and the adjusted exponent.
pub open spec fn print_dec(d: Dec) -> Seq<u8> {
    let m_abs = if d.m >= 0 {
        d.m as nat
    } else {
        (-(d.m as int)) as nat
    };
    let ds = dec_digs(m_abs);
    let sign: Seq<u8> = if d.m < 0 {
        seq![45u8]
    } else {
        Seq::empty()
    };
    sign + seq![ds[0], 46u8] + ds.skip(1) + seq![69u8] + print_int(d.e + ds.len() - 1)
}

pub open spec fn print_value(v: ValueV) -> Seq<u8>
    decreases v,
{
    match v {
        ValueV::Float(d) => print_dec(d),
        ValueV::Int(n) => print_int(n as int),
        ValueV::String(s) => seq![39u8] + s + seq![39u8],
        ValueV::Id(n) => seq![35u8] + dec_digs(n as nat),
        ValueV::Bool(b) => if b {
            seq![46u8, 84, 46]
        } else {
            seq![46u8, 70, 46]
        },
        ValueV::Enum(s) => seq![46u8] + s + seq![46u8],
        ValueV::Tuple(ts) => seq![40u8] + print_list(ts) + seq![41u8],
        ValueV::Xplicit => seq![42u8],
        ValueV::Undefined => seq![36u8],
        ValueV::Desc(n, ts) => n + seq![40u8] + print_list(ts) + seq![41u8],
    }
}

pub open spec fn print_list(ts: Seq<ValueV>) -> Seq<u8>
    decreases ts, 1int,
{
    if ts.len() == 0 {
        Seq::empty()
    } else {
        print_value(ts[0]) + print_rest(ts.skip(1))
    }
}

/// The members after the first one, each preceded by its separator.
pub open spec fn print_rest(ts: Seq<ValueV>) -> Seq<u8>
    decreases ts, 2int,
{
    if ts.len() == 0 {
        Seq::empty()
    } else {
        seq![44u8] + print_value(ts[0]) + print_rest(ts.skip(1))
    }
}

// ---------------------------------------------------------------------------
// Well-formed trees: the ones whose literal text decodes back.
// ---------------------------------------------------------------------------

/// String contents must keep every quote and backslash inside an escape
/// pair.
pub open spec fn wf_str_body(s: Seq<u8>) -> bool
    decreases s.len(),
{
    if s.len() == 0 {
        true
    } else if s[0] == 92 {
        s.len() >= 2 && wf_str_body(s.skip(2))
    } else {
        s[0] != 39 && wf_str_body(s.skip(1))
    }
}

/// A name: an alphabetic head and identifier characters after it.
pub open spec fn wf_name(s: Seq<u8>) -> bool {
    &&& s.len() >= 1
    &&& is_alpha(s[0])
    &&& forall|i: int| 0 <= i < s.len() ==> is_ident_char(#[trigger] s[i])
}

/// An enumeration token: identifier characters, not one of the boolean
/// tokens.
pub open spec fn wf_token(s: Seq<u8>) -> bool {
    &&& s.len() >= 1
    &&& forall|i: int| 0 <= i < s.len() ==> is_ident_char(#[trigger] s[i])
    &&& s != seq![84u8]
    &&& s != seq![70u8]
}

/// The exponent leaves room for the mantissa-width adjustment.
pub open spec fn wf_dec(d: Dec) -> bool {
    i64::MIN + 32 < d.e < i64::MAX - 32
}

pub open spec fn wf_value(v: ValueV) -> bool
    decreases v,
{
    match v {
        ValueV::Float(d) => wf_dec(d),
        ValueV::Int(_) => true,
        ValueV::String(s) => wf_str_body(s),
        ValueV::Id(_) => true,
        ValueV::Bool(_) => true,
        ValueV::Enum(s) => wf_token(s),
        ValueV::Tuple(ts) => wf_values(ts),
        ValueV::Xplicit => true,
        ValueV::Undefined => true,
        ValueV::Desc(n, ts) => wf_name(n) && wf_values(ts),
    }
}

pub open spec fn wf_values(ts: Seq<ValueV>) -> bool
    decreases ts,
{
    if ts.len() == 0 {
        true
    } else {
        wf_value(ts[0]) && wf_values(ts.skip(1))
    }
}

// ---------------------------------------------------------------------------
// Digit runs.
// ---------------------------------------------------------------------------

pub proof fn lemma_dec_digs_digits(n: nat)
    ensures
        dec_digs(n).len() >= 1,
        forall|i: int| 0 <= i < dec_digs(n).len() ==> is_digit(#[trigger] dec_digs(n)[i]),
    decreases n,
{
    if n >= 10 {
        lemma_dec_digs_digits(n / 10);
    }
}

pub proof fn lemma_val_of_dec_digs(n: nat)
    ensures
        val_digs(dec_digs(n)) == n,
    decreases n,
{
    if n < 10 {
        assert(dec_digs(n).drop_last().len() == 0);
        assert(val_digs(dec_digs(n).drop_last()) == 0);
        assert(val_digs(dec_digs(n)) == 0 * 10 + (digit_byte(n) - 48) as nat);
        assert(digit_byte(n) == 48 + n);
    } else {
        lemma_val_of_dec_digs(n / 10);
        assert(dec_digs(n).drop_last() =~= dec_digs(n / 10));
        assert(dec_digs(n).last() == digit_byte(n % 10));
        assert((n / 10) * 10 + n % 10 == n) by (nonlinear_arith);
    }
}

/// The width of a decimal: fewer than `k` digits where `n < 10^k`.
pub proof fn lemma_dec_digs_len(n: nat, k: nat)
    requires
        n < pow10(k),
        k >= 1,
    ensures
        dec_digs(n).len() <= k,
    decreases n,
{
    if n >= 10 {
        assert(pow10(k) == 10 * pow10((k - 1) as nat));
        assert(n / 10 < pow10((k - 1) as nat)) by (nonlinear_arith)
            requires n < 10 * pow10((k - 1) as nat), n >= 10;
        lemma_dec_digs_len(n / 10, (k - 1) as nat);
    }
}

/// A digit run bounded by a non-digit is scanned exactly to its end.
pub proof fn lemma_digits_end_of_run(s: Seq<u8>, i: int, j: int)
    requires
        0 <= i <= j <= s.len(),
        all_digits(s, i, j),
        j == s.len() || !is_digit(s[j]),
    ensures
        sp_digits_end(s, i) == j,
    decreases j - i,
{
    if i < j {
        lemma_digits_end_of_run(s, i + 1, j);
    }
}

/// The value scanned from an embedded digit run equals the value of the
/// run itself.
pub proof fn lemma_dig_val_embed(s: Seq<u8>, i: int, j: int)
    requires
        0 <= i <= j <= s.len(),
    ensures
        dig_val(s, i, j) == val_digs(s.subrange(i, j)),
    decreases j - i,
{
    if i < j {
        lemma_dig_val_embed(s, i, j - 1);
        assert(s.subrange(i, j).drop_last() =~= s.subrange(i, j - 1));
        assert(s.subrange(i, j).last() == s[j - 1]);
    } else {
        assert(s.subrange(i, i).len() == 0);
    }
}

/// The leading digit of a run carries the full remaining width.
pub proof fn lemma_val_digs_head(ds: Seq<u8>)
    requires
        ds.len() >= 1,
    ensures
        val_digs(ds) == ((ds[0] - 48) as nat) * pow10((ds.len() - 1) as nat) + val_digs(
            ds.skip(1),
        ),
    decreases ds.len(),
{
    if ds.len() == 1 {
        assert(ds.skip(1).len() == 0);
        assert(ds.drop_last().len() == 0);
        assert(val_digs(ds.skip(1)) == 0);
        assert(val_digs(ds.drop_last()) == 0);
        assert(val_digs(ds) == 0 * 10 + (ds.last() - 48) as nat);
        assert(ds.last() == ds[0]);
        assert(pow10(0) == 1);
        assert(((ds[0] - 48) as nat) * 1 == (ds[0] - 48) as nat) by (nonlinear_arith);
    } else {
        lemma_val_digs_head(ds.drop_last());
        assert(ds.drop_last()[0] == ds[0]);
        assert(ds.drop_last().skip(1) =~= ds.skip(1).drop_last());
        let d0 = (ds[0] - 48) as nat;
        let p = pow10((ds.len() - 2) as nat);
        let rest = val_digs(ds.skip(1).drop_last());
        assert(ds.skip(1).last() == ds.last());
        assert((d0 * p + rest) * 10 + (ds.last() - 48) as nat == d0 * (10 * p) + (rest * 10 + (
        ds.last() - 48) as nat)) by (nonlinear_arith);
        assert(pow10((ds.len() - 1) as nat) == 10 * p);
    }
}

} // verus!

verus! {

/// After a printed value, the text may only continue with a byte that
/// cannot extend a numeric literal.
pub open spec fn delim_at(s: Seq<u8>, j: int) -> bool {
    j == s.len() || (!is_digit(s[j]) && s[j] != 46)
}

proof fn p10_consts()
    ensures
        pow10(19) == 10_000_000_000_000_000_000,
{
    reveal_with_fuel(pow10, 21);
}

/// An embedded digit run carries its digits and its value.
proof fn lemma_digs_embedded(s: Seq<u8>, i: int, n: nat)
    requires
        0 <= i,
        i + dec_digs(n).len() <= s.len(),
        s.subrange(i, i + dec_digs(n).len() as int) == dec_digs(n),
        delim_at(s, i + dec_digs(n).len() as int),
    ensures
        sp_digits_end(s, i) == i + dec_digs(n).len(),
        dig_val(s, i, i + dec_digs(n).len() as int) == n,
{
    let l = dec_digs(n).len() as int;
    lemma_dec_digs_digits(n);
    assert forall|t: int| i <= t < i + l implies is_digit(#[trigger] s[t]) by {
        assert(s[t] == dec_digs(n)[t - i]);
    }
    lemma_digits_end_of_run(s, i, i + l);
    lemma_dig_val_embed(s, i, i + l);
    lemma_val_of_dec_digs(n);
}

/// A printed integer scans back to itself.
pub proof fn lemma_int_scan(s: Seq<u8>, i: int, n: int)
    requires
        i64::MIN <= n <= i64::MAX,
        0 <= i,
        i + print_int(n).len() <= s.len(),
        s.subrange(i, i + print_int(n).len() as int) == print_int(n),
        delim_at(s, i + print_int(n).len() as int),
    ensures
        crate::decode::sp_number(s, i) == SpR::<ValueV>::Found(
            ValueV::Int(n as i64),
            i + print_int(n).len(),
        ),
        i < s.len() && (s[i] == 45 || is_digit(s[i])),
{
    let l = print_int(n).len() as int;
    let j = i + l;
    p10_consts();
    assert forall|t: int| 0 <= t < l implies s[i + t] == print_int(n)[t] by {
        assert(s.subrange(i, j)[t] == s[i + t]);
    }
    if n < 0 {
        let m = (-n) as nat;
        lemma_dec_digs_digits(m);
        assert(print_int(n)[0] == 45) by {
            assert((seq![45u8] + dec_digs(m))[0] == 45);
        }
        assert(s[i] == 45);
        assert forall|t: int| 0 <= t < l - 1 implies s[i + 1 + t] == dec_digs(m)[t] by {
            assert(print_int(n)[1 + t] == dec_digs(m)[t]) by {
                assert((seq![45u8] + dec_digs(m))[1 + t] == dec_digs(m)[t]);
            }
        }
        assert(s.subrange(i + 1, j) =~= dec_digs(m));
        lemma_digs_embedded(s, i + 1, m);
        assert(m <= (i64::MAX as nat) + 1);
        assert(sp_digits_end(s, i + 1) == j);
        assert(j == s.len() || s[j] != 46);
    } else {
        let m = n as nat;
        lemma_dec_digs_digits(m);
        assert(s[i] == dec_digs(m)[0]);
        assert(is_digit(s[i]));
        assert(s.subrange(i, j) =~= dec_digs(m));
        lemma_digs_embedded(s, i, m);
        assert(m <= i64::MAX as nat);
    }
}

/// Where each byte of a printed real stands.
proof fn lemma_print_dec_index(d: Dec)
    ensures
        ({
            let m_abs = if d.m >= 0 {
                d.m as nat
            } else {
                (-(d.m as int)) as nat
            };
            let ds = dec_digs(m_abs);
            let l = ds.len() as int;
            let sl: int = if d.m < 0 {
                1
            } else {
                0
            };
            let pv = print_dec(d);
            let pe = print_int(d.e + l - 1);
            &&& pv.len() == sl + l + 2 + pe.len()
            &&& (d.m < 0 ==> pv[0] == 45)
            &&& pv[sl] == ds[0]
            &&& pv[sl + 1] == 46
            &&& forall|t: int| 0 <= t < l - 1 ==> #[trigger] pv[sl + 2 + t] == ds[t + 1]
            &&& pv[sl + l + 1] == 69
            &&& forall|t: int| 0 <= t < pe.len() ==> #[trigger] pv[sl + l + 2 + t] == pe[t]
        }),
{
    let m_abs = if d.m >= 0 {
        d.m as nat
    } else {
        (-(d.m as int)) as nat
    };
    let ds = dec_digs(m_abs);
    let l = ds.len() as int;
    let sign: Seq<u8> = if d.m < 0 {
        seq![45u8]
    } else {
        Seq::empty()
    };
    let sl = sign.len() as int;
    let pe = print_int(d.e + l - 1);
    let part1 = sign + seq![ds[0], 46u8];
    let part2 = part1 + ds.skip(1);
    let part3 = part2 + seq![69u8];
    let pv = print_dec(d);
    lemma_dec_digs_digits(m_abs);
    assert(pv == part3 + pe);
    assert(part1.len() == sl + 2);
    assert(part2.len() == sl + 1 + l);
    assert(part3.len() == sl + l + 2);
    if d.m < 0 {
        assert(part1[0] == 45);
        assert(part2[0] == 45);
        assert(part3[0] == 45);
        assert(pv[0] == 45);
    }
    assert(part1[sl] == ds[0]);
    assert(part2[sl] == ds[0]);
    assert(part3[sl] == ds[0]);
    assert(pv[sl] == ds[0]);
    assert(part1[sl + 1] == 46);
    assert(part2[sl + 1] == 46);
    assert(part3[sl + 1] == 46);
    assert(pv[sl + 1] == 46);
    assert forall|t: int| 0 <= t < l - 1 implies #[trigger] pv[sl + 2 + t] == ds[t + 1] by {
        assert(part2[sl + 2 + t] == ds.skip(1)[t]);
        assert(ds.skip(1)[t] == ds[t + 1]);
        assert(part3[sl + 2 + t] == part2[sl + 2 + t]);
        assert(pv[sl + 2 + t] == part3[sl + 2 + t]);
    }
    assert(part3[sl + l + 1] == 69);
    assert(pv[sl + l + 1] == 69);
    assert forall|t: int| 0 <= t < pe.len() implies #[trigger] pv[sl + l + 2 + t] == pe[t] by {
        assert(pv[part3.len() + t] == pe[t]);
    }
}

/// A printed real literal scans back to its decimal.
#[verifier::rlimit(100)]
pub proof fn lemma_float_scan(s: Seq<u8>, i: int, d: Dec)
    requires
        wf_dec(d),
        0 <= i,
        i + print_dec(d).len() <= s.len(),
        s.subrange(i, i + print_dec(d).len() as int) == print_dec(d),
        delim_at(s, i + print_dec(d).len() as int),
    ensures
        crate::decode::sp_number(s, i) == SpR::<ValueV>::Found(
            ValueV::Float(d),
            i + print_dec(d).len(),
        ),
        i < s.len() && (s[i] == 45 || is_digit(s[i])),
{
    let m_abs = if d.m >= 0 {
        d.m as nat
    } else {
        (-(d.m as int)) as nat
    };
    let ds = dec_digs(m_abs);
    let l = ds.len() as int;
    let sl: int = if d.m < 0 {
        1
    } else {
        0
    };
    let pv = print_dec(d);
    let j = i + pv.len() as int;
    let p0 = i + sl;
    let ex = d.e + l - 1;
    let pe = print_int(ex);
    lemma_dec_digs_digits(m_abs);
    lemma_print_dec_index(d);
    p10_consts();
    assert(m_abs < pow10(19)) by {
        assert(m_abs <= 9_223_372_036_854_775_808);
    }
    lemma_dec_digs_len(m_abs, 19);
    // the pieces of the printed text
    assert forall|t: int| 0 <= t < pv.len() implies s[i + t] == pv[t] by {
        assert(s.subrange(i, j)[t] == s[i + t]);
    }
    if d.m < 0 {
        assert(s[i] == 45);
    } else {
        assert(s[i] == ds[0]);
        assert(is_digit(s[i]));
    }
    assert(s[p0] == ds[0]);
    assert(is_digit(s[p0]));
    assert(s[p0 + 1] == 46);
    assert forall|t: int| 0 <= t < l - 1 implies s[p0 + 2 + t] == ds.skip(1)[t] by {
        assert(pv[sl + 2 + t] == ds.skip(1)[t]);
    }
    assert(s[p0 + 1 + l] == 69);
    assert forall|t: int| 0 <= t < pe.len() implies s[p0 + 2 + l + t] == pe[t] by {
        assert(pv[sl + 2 + l + t] == pe[t]);
    }
    // scan of the single leading mantissa digit
    lemma_digits_end_of_run(s, p0, p0 + 1);
    // scan of the fraction digits
    assert forall|t: int| p0 + 2 <= t < p0 + 1 + l implies is_digit(#[trigger] s[t]) by {
        assert(s[t] == ds.skip(1)[t - (p0 + 2)]);
        assert(ds.skip(1)[t - (p0 + 2)] == ds[t - (p0 + 2) + 1]);
    }
    lemma_digits_end_of_run(s, p0 + 2, p0 + 1 + l);
    // mantissa value from the two runs
    lemma_dig_val_embed(s, p0, p0 + 1);
    lemma_dig_val_embed(s, p0 + 2, p0 + 1 + l);
    assert(s.subrange(p0, p0 + 1) =~= seq![ds[0]]);
    assert(s.subrange(p0 + 2, p0 + 1 + l) =~= ds.skip(1));
    lemma_val_digs_head(ds);
    lemma_val_of_dec_digs(m_abs);
    assert(val_digs(seq![ds[0]]) == (ds[0] - 48) as nat) by {
        assert(seq![ds[0]].drop_last().len() == 0);
        assert(val_digs(seq![ds[0]].drop_last()) == 0);
    }
    assert(dig_val(s, p0, p0 + 1) * pow10((l - 1) as nat) + dig_val(s, p0 + 2, p0 + 1 + l)
        == m_abs);
    // the exponent
    assert(j == p0 + 2 + l + pe.len());
    assert(s.subrange(p0 + 2 + l, j) =~= pe) by {
        assert forall|t: int| 0 <= t < pe.len() implies s.subrange(p0 + 2 + l, j)[t] == pe[t] by {
            assert(s[p0 + 2 + l + t] == pv[sl + l + 2 + t]);
        }
    }
    lemma_int_scan(s, p0 + 2 + l, ex);
    let e0 = if ex < 0 {
        p0 + 3 + l
    } else {
        p0 + 2 + l
    };
    let eds = dec_digs((if ex < 0 {
        -ex
    } else {
        ex
    }) as nat);
    assert(s.subrange(e0, j) =~= eds) by {
        if ex < 0 {
            assert(pe == seq![45u8] + eds);
            assert forall|t: int| 0 <= t < eds.len() implies s.subrange(e0, j)[t] == eds[t] by {
                assert(s[e0 + t] == s.subrange(p0 + 2 + l, j)[1 + t]);
                assert(pe[1 + t] == eds[t]) by {
                    assert((seq![45u8] + eds)[1 + t] == eds[t]);
                }
            }
        } else {
            assert(pe == eds);
            assert forall|t: int| 0 <= t < eds.len() implies s.subrange(e0, j)[t] == eds[t] by {
                assert(s[e0 + t] == s.subrange(p0 + 2 + l, j)[t]);
            }
        }
    }
    lemma_digs_embedded(
        s,
        e0,
        (if ex < 0 {
            -ex
        } else {
            ex
        }) as nat,
    );
    assert(dig_val(s, e0, j) <= i64::MAX as nat) by {
        assert(-(i64::MAX as int) <= ex <= i64::MAX as int);
    }
    assert(ex >= 0 ==> !(s[p0 + 2 + l] == 45 || s[p0 + 2 + l] == 43)) by {
        if ex >= 0 {
            assert(s[p0 + 2 + l] == eds[0]);
            assert(is_digit(eds[0]));
        }
    }
}

/// A printed string body scans to its closing quote.
proof fn lemma_str_scan(s: Seq<u8>, q: int, k: int, body: Seq<u8>)
    requires
        wf_str_body(body),
        0 <= q < k,
        k + body.len() < s.len(),
        s.subrange(k, k + body.len() as int) == body,
        s[k + body.len() as int] == 39,
    ensures
        crate::decode::sp_string_end(s, q, k) == SpR::<int>::Found(
            k + body.len(),
            k + body.len(),
        ),
    decreases body.len(),
{
    if body.len() == 0 {
        assert(s[k] == 39);
    } else if body[0] == 92 {
        assert(s[k] == 92) by {
            assert(s.subrange(k, k + body.len() as int)[0] == body[0]);
        }
        assert(s.subrange(k + 2, k + body.len() as int) =~= body.skip(2));
        lemma_str_scan(s, q, k + 2, body.skip(2));
    } else {
        assert(s[k] == body[0]) by {
            assert(s.subrange(k, k + body.len() as int)[0] == body[0]);
        }
        assert(s[k] != 39 && s[k] != 92);
        assert(s.subrange(k + 1, k + body.len() as int) =~= body.skip(1));
        lemma_str_scan(s, q, k + 1, body.skip(1));
    }
}

/// An identifier run bounded by a non-identifier byte is scanned exactly
/// to its end.
proof fn lemma_ident_end_of_run(s: Seq<u8>, i: int, j: int)
    requires
        0 <= i <= j <= s.len(),
        forall|t: int| i <= t < j ==> is_ident_char(#[trigger] s[t]),
        j == s.len() || !is_ident_char(s[j]),
    ensures
        sp_ident_end(s, i) == j,
    decreases j - i,
{
    if i < j {
        lemma_ident_end_of_run(s, i + 1, j);
    }
}

} // verus!

verus! {

/// Where each byte of a delimited piece stands.
proof fn lemma_wrap_index(a: u8, mid: Seq<u8>, b: u8)
    ensures
        (seq![a] + mid + seq![b]).len() == mid.len() + 2,
        (seq![a] + mid + seq![b])[0] == a,
        forall|t: int| 0 <= t < mid.len() ==> #[trigger] (seq![a] + mid + seq![b])[1 + t]
            == mid[t],
        (seq![a] + mid + seq![b])[mid.len() as int + 1] == b,
{
    let part = seq![a] + mid;
    let whole = part + seq![b];
    assert(whole == seq![a] + mid + seq![b]);
    assert(part[0] == a);
    assert(whole[0] == a);
    assert forall|t: int| 0 <= t < mid.len() implies #[trigger] (seq![a] + mid + seq![b])[1 + t]
        == mid[t] by {
        assert(part[1 + t] == mid[t]);
        assert(whole[1 + t] == part[1 + t]);
    }
    assert(whole[mid.len() as int + 1] == b);
}

/// Where each byte of a prefixed piece stands.
proof fn lemma_prefix_index(a: u8, mid: Seq<u8>)
    ensures
        (seq![a] + mid).len() == mid.len() + 1,
        (seq![a] + mid)[0] == a,
        forall|t: int| 0 <= t < mid.len() ==> #[trigger] (seq![a] + mid)[1 + t] == mid[t],
{
}

/// Where each byte of a printed record stands.
proof fn lemma_desc_index(n: Seq<u8>, pls: Seq<u8>)
    ensures
        (n + seq![40u8] + pls + seq![41u8]).len() == n.len() + pls.len() + 2,
        forall|t: int| 0 <= t < n.len() ==> #[trigger] (n + seq![40u8] + pls + seq![41u8])[t]
            == n[t],
        (n + seq![40u8] + pls + seq![41u8])[n.len() as int] == 40,
        forall|t: int| 0 <= t < pls.len() ==> #[trigger] (n + seq![40u8] + pls + seq![41u8])[
            n.len() + 1 + t
        ] == pls[t],
        (n + seq![40u8] + pls + seq![41u8])[n.len() + pls.len() + 1int] == 41,
{
    let p1 = n + seq![40u8];
    let p2 = p1 + pls;
    let whole = p2 + seq![41u8];
    assert(whole == n + seq![40u8] + pls + seq![41u8]);
    assert forall|t: int| 0 <= t < n.len() implies #[trigger] (n + seq![40u8] + pls + seq![
        41u8,
    ])[t] == n[t] by {
        assert(p1[t] == n[t]);
        assert(p2[t] == p1[t]);
        assert(whole[t] == p2[t]);
    }
    assert(p1[n.len() as int] == 40);
    assert(p2[n.len() as int] == 40);
    assert(whole[n.len() as int] == 40);
    assert forall|t: int| 0 <= t < pls.len() implies #[trigger] (n + seq![40u8] + pls + seq![
        41u8,
    ])[n.len() + 1 + t] == pls[t] by {
        assert(p2[n.len() + 1 + t] == pls[t]);
        assert(whole[n.len() + 1 + t] == p2[n.len() + 1 + t]);
    }
    assert(whole[n.len() + pls.len() + 1int] == 41);
}

/// A printed value is never empty and never opens with whitespace, a
/// separator or a closing parenthesis.
proof fn lemma_print_value_first(v: ValueV)
    requires
        wf_value(v),
    ensures
        print_value(v).len() >= 1,
        !is_ws(print_value(v)[0]),
        print_value(v)[0] != 41,
        print_value(v)[0] != 44,
{
    let pv = print_value(v);
    match v {
        ValueV::Float(d) => {
            lemma_print_dec_index(d);
            let m_abs = if d.m >= 0 {
                d.m as nat
            } else {
                (-(d.m as int)) as nat
            };
            lemma_dec_digs_digits(m_abs);
            if d.m < 0 {
            } else {
                assert(pv[0] == dec_digs(m_abs)[0]);
            }
        },
        ValueV::Int(n) => {
            let m = if n < 0 {
                (-(n as int)) as nat
            } else {
                n as nat
            };
            lemma_dec_digs_digits(m);
            if n < 0 {
                lemma_prefix_index(45, dec_digs(m));
            } else {
            }
        },
        ValueV::String(s) => {
            lemma_wrap_index(39, s, 39);
        },
        ValueV::Id(n) => {
            lemma_dec_digs_digits(n as nat);
            lemma_prefix_index(35, dec_digs(n as nat));
        },
        ValueV::Bool(b) => {
            if b {
                lemma_wrap_index(46, seq![84u8], 46);
            } else {
                lemma_wrap_index(46, seq![70u8], 46);
            }
        },
        ValueV::Enum(s) => {
            lemma_wrap_index(46, s, 46);
        },
        ValueV::Tuple(ts) => {
            lemma_wrap_index(40, print_list(ts), 41);
        },
        ValueV::Xplicit => {},
        ValueV::Undefined => {},
        ValueV::Desc(n, ts) => {
            lemma_desc_index(n, print_list(ts));
            assert(pv[0] == n[0]);
        },
    }
}

} // verus!

verus! {

/// The decoder reads a printed value back, wherever it stands, as long
/// as the byte after it cannot extend a numeric literal.
#[verifier::rlimit(100)]
pub proof fn lemma_value_scan(s: Seq<u8>, i: int, v: ValueV)
    requires
        wf_value(v),
        0 <= i,
        i + print_value(v).len() <= s.len(),
        s.subrange(i, i + print_value(v).len() as int) == print_value(v),
        delim_at(s, i + print_value(v).len() as int),
    ensures
        crate::decode::sp_value(s, i) == SpR::<ValueV>::Found(v, i + print_value(v).len()),
    decreases v,
{
    let pv = print_value(v);
    let l = pv.len() as int;
    let j = i + l;
    lemma_print_value_first(v);
    assert forall|t: int| 0 <= t < l implies s[i + t] == pv[t] by {
        assert(s.subrange(i, j)[t] == s[i + t]);
    }
    assert(s[i] == pv[0]);
    assert(sp_ws(s, i) == i);
    match v {
        ValueV::Float(d) => {
            lemma_float_scan(s, i, d);
        },
        ValueV::Int(n) => {
            lemma_int_scan(s, i, n as int);
        },
        ValueV::String(body) => {
            lemma_wrap_index(39, body, 39);
            assert(s[i] == 39);
            assert forall|t: int| 0 <= t < body.len() implies s[i + 1 + t] == body[t] by {
                assert(pv[1 + t] == body[t]);
            }
            assert(s.subrange(i + 1, i + 1 + body.len() as int) =~= body);
            assert(s[i + 1 + body.len() as int] == 39) by {
                assert(pv[body.len() as int + 1] == 39);
            }
            lemma_str_scan(s, i, i + 1, body);
            assert(s.subrange(i + 1, i + 1 + body.len() as int) == body);
        },
        ValueV::Id(n) => {
            lemma_prefix_index(35, dec_digs(n as nat));
            assert(s[i] == 35);
            assert forall|t: int| 0 <= t < dec_digs(n as nat).len() implies s[i + 1 + t]
                == dec_digs(n as nat)[t] by {
                assert(pv[1 + t] == dec_digs(n as nat)[t]);
            }
            assert(s.subrange(i + 1, j) =~= dec_digs(n as nat));
            lemma_digs_embedded(s, i + 1, n as nat);
            lemma_dec_digs_digits(n as nat);
        },
        ValueV::Bool(b) => {
            let tok: Seq<u8> = if b {
                seq![84u8]
            } else {
                seq![70u8]
            };
            lemma_wrap_index(46, tok, 46);
            assert(s[i] == 46);
            assert(s[i + 1] == tok[0]) by {
                assert(pv[1int + 0] == tok[0int]);
            }
            assert(s[i + 2] == 46) by {
                assert(pv[tok.len() as int + 1] == 46);
            }
            assert(is_ident_char(s[i + 1]));
            lemma_ident_end_of_run(s, i + 1, i + 2);
            assert(s.subrange(i + 1, i + 2) =~= tok);
        },
        ValueV::Enum(tok) => {
            lemma_wrap_index(46, tok, 46);
            assert(s[i] == 46);
            assert forall|t: int| 0 <= t < tok.len() implies s[i + 1 + t] == tok[t] by {
                assert(pv[1 + t] == tok[t]);
            }
            assert(s[i + 1 + tok.len() as int] == 46) by {
                assert(pv[tok.len() as int + 1] == 46);
            }
            assert forall|t: int| i + 1 <= t < i + 1 + tok.len() implies is_ident_char(
                #[trigger] s[t],
            ) by {
                assert(s[t] == tok[t - (i + 1)]);
            }
            lemma_ident_end_of_run(s, i + 1, i + 1 + tok.len() as int);
            assert(s.subrange(i + 1, i + 1 + tok.len() as int) =~= tok);
        },
        ValueV::Tuple(ts) => {
            let pls = print_list(ts);
            lemma_wrap_index(40, pls, 41);
            assert(s[i] == 40);
            assert forall|t: int| 0 <= t < pls.len() implies s[i + 1 + t] == pls[t] by {
                assert(pv[1 + t] == pls[t]);
            }
            assert(s.subrange(i + 1, i + 1 + pls.len() as int) =~= pls);
            assert(s[i + 1 + pls.len() as int] == 41) by {
                assert(pv[pls.len() as int + 1] == 41);
            }
            lemma_list_scan(s, i + 1, ts);
            let j2 = i + 1 + pls.len() as int;
            assert(sp_ws(s, j2) == j2);
        },
        ValueV::Xplicit => {
            assert(s[i] == 42);
        },
        ValueV::Undefined => {
            assert(s[i] == 36);
        },
        ValueV::Desc(n, ts) => {
            let pls = print_list(ts);
            let nl = n.len() as int;
            lemma_desc_index(n, pls);
            assert forall|t: int| 0 <= t < nl implies s[i + t] == n[t] by {
                assert(pv[t] == n[t]);
            }
            assert(s[i] == n[0]);
            assert(is_alpha(s[i]));
            assert(s[i + nl] == 40) by {
                assert(pv[nl] == 40);
            }
            assert forall|t: int| i <= t < i + nl implies is_ident_char(#[trigger] s[t]) by {
                assert(s[t] == n[t - i]);
            }
            lemma_ident_end_of_run(s, i, i + nl);
            assert forall|t: int| 0 <= t < pls.len() implies s[i + nl + 1 + t] == pls[t] by {
                assert(pv[nl + 1 + t] == pls[t]);
            }
            assert(s.subrange(i + nl + 1, i + nl + 1 + pls.len() as int) =~= pls);
            assert(s[i + nl + 1 + pls.len() as int] == 41) by {
                assert(pv[nl + pls.len() + 1int] == 41);
            }
            lemma_list_scan(s, i + nl + 1, ts);
            let j2 = i + nl + 1 + pls.len() as int;
            assert(sp_ws(s, j2) == j2);
            assert(s.subrange(i, i + nl) =~= n);
            assert(crate::decode::sp_desc(s, i) == SpR::<(Seq<u8>, Seq<ValueV>)>::Found(
                (n, ts),
                j,
            ));
        },
    }
}

/// A printed member list scans back, with the closing parenthesis left
/// for the caller.
pub proof fn lemma_list_scan(s: Seq<u8>, i: int, ts: Seq<ValueV>)
    requires
        wf_values(ts),
        0 <= i,
        i + print_list(ts).len() < s.len(),
        s.subrange(i, i + print_list(ts).len() as int) == print_list(ts),
        s[i + print_list(ts).len() as int] == 41,
    ensures
        crate::decode::sp_value_list(s, i) == SpR::<Seq<ValueV>>::Found(
            ts,
            i + print_list(ts).len(),
        ),
    decreases ts, 1int,
{
    let pls = print_list(ts);
    let l = pls.len() as int;
    let j = i + l;
    assert forall|t: int| 0 <= t < l implies s[i + t] == pls[t] by {
        assert(s.subrange(i, j)[t] == s[i + t]);
    }
    if ts.len() == 0 {
        assert(s[i] == 41);
        assert(sp_ws(s, i) == i);
        assert(ts =~= Seq::<ValueV>::empty());
    } else {
        let e0 = print_value(ts[0]);
        let rest = print_rest(ts.skip(1));
        assert(pls == e0 + rest);
        lemma_print_value_first(ts[0]);
        assert forall|t: int| 0 <= t < e0.len() implies s[i + t] == e0[t] by {
            assert(pls[t] == e0[t]);
        }
        assert(s.subrange(i, i + e0.len() as int) =~= e0);
        let jm = i + e0.len() as int;
        assert forall|t: int| 0 <= t < rest.len() implies s[jm + t] == rest[t] by {
            assert(pls[e0.len() + t] == rest[t]);
        }
        assert(s.subrange(jm, j) =~= rest);
        if ts.len() == 1 {
            assert(rest.len() == 0);
            assert(s[jm] == 41);
        } else {
            lemma_prefix_index(44, print_value(ts.skip(1)[0]) + print_rest(ts.skip(1).skip(1)));
            assert(s[jm] == rest[0]);
            assert(rest[0] == 44);
        }
        assert(delim_at(s, jm));
        lemma_value_scan(s, i, ts[0]);
        assert(sp_ws(s, i) == i);
        assert(s[i] != 41);
        lemma_rest_scan(s, jm, ts.skip(1));
        assert(seq![ts[0]] + ts.skip(1) =~= ts);
    }
}

/// The members after the first one scan back.
pub proof fn lemma_rest_scan(s: Seq<u8>, i: int, ts: Seq<ValueV>)
    requires
        wf_values(ts),
        0 <= i,
        i + print_rest(ts).len() < s.len(),
        s.subrange(i, i + print_rest(ts).len() as int) == print_rest(ts),
        s[i + print_rest(ts).len() as int] == 41,
    ensures
        crate::decode::sp_list_rest(s, i) == SpR::<Seq<ValueV>>::Found(
            ts,
            i + print_rest(ts).len(),
        ),
    decreases ts, 2int,
{
    let pr = print_rest(ts);
    let l = pr.len() as int;
    let j = i + l;
    assert forall|t: int| 0 <= t < l implies s[i + t] == pr[t] by {
        assert(s.subrange(i, j)[t] == s[i + t]);
    }
    if ts.len() == 0 {
        assert(s[i] == 41);
        assert(sp_ws(s, i) == i);
        assert(ts =~= Seq::<ValueV>::empty());
    } else {
        let e0 = print_value(ts[0]);
        let tail = print_rest(ts.skip(1));
        lemma_prefix_index(44, e0 + tail);
        assert(pr == seq![44u8] + (e0 + tail)) by {
            assert(seq![44u8] + e0 + tail == seq![44u8] + (e0 + tail));
        }
        assert(s[i] == 44) by {
            assert(pr[0] == 44);
        }
        assert(sp_ws(s, i) == i);
        lemma_print_value_first(ts[0]);
        assert forall|t: int| 0 <= t < e0.len() implies s[i + 1 + t] == e0[t] by {
            assert(pr[1 + t] == (e0 + tail)[t]);
        }
        assert(s.subrange(i + 1, i + 1 + e0.len() as int) =~= e0);
        let jm = i + 1 + e0.len() as int;
        assert forall|t: int| 0 <= t < tail.len() implies s[jm + t] == tail[t] by {
            assert(pr[1 + e0.len() + t] == (e0 + tail)[e0.len() + t]);
        }
        assert(s.subrange(jm, j) =~= tail);
        if ts.len() == 1 {
            assert(tail.len() == 0);
            assert(s[jm] == 41);
        } else {
            lemma_prefix_index(44, print_value(ts.skip(1)[0]) + print_rest(ts.skip(1).skip(1)));
            assert(s[jm] == tail[0]);
            assert(tail[0] == 44);
        }
        assert(delim_at(s, jm));
        lemma_value_scan(s, i + 1, ts[0]);
        lemma_rest_scan(s, jm, ts.skip(1));
        assert(seq![ts[0]] + ts.skip(1) =~= ts);
    }
}

/// Decoding the literal text of any well-formed value tree reproduces
/// the tree: the decoder is a left inverse of the printer.
pub proof fn lemma_value_round_trip(v: ValueV)
    requires
        wf_value(v),
    ensures
        crate::decode::sp_value_text(print_value(v)) == SpR::<ValueV>::Found(
            v,
            print_value(v).len() as int,
        ),
{
    let pv = print_value(v);
    lemma_print_value_first(v);
    assert(pv.subrange(0, pv.len() as int) =~= pv);
    lemma_value_scan(pv, 0, v);
    assert(sp_ws(pv, pv.len() as int) == pv.len());
}

} // verus!
