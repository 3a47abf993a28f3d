use vstd::prelude::*;

use crate::num::Dec;
use crate::num::pow10;

verus! {

broadcast use vstd::std_specs::vec::group_vec_axioms, vstd::slice::group_slice_axioms;

// ---------------------------------------------------------------------------
// The value tree of a STEP document.
//
// Every literal of the data language becomes one of these variants.  Real
// literals keep their exact decimal form (`Dec`), strings and names keep
// their raw bytes between the delimiters, with escape sequences left as
// written.
// ---------------------------------------------------------------------------

#[derive(PartialEq, Eq, Debug)]
pub enum Value {
    Float(Dec),
    Int(i64),
    String(Vec<u8>),
    Id(u64),
    Bool(bool),
    Enum(Vec<u8>),
    Tuple(Vec<Value>),
    Xplicit,
    Undefined,
    Desc(Vec<u8>, Vec<Value>),
}

/// The mathematical form of a `Value`: the same tree over `Seq<u8>`.
pub enum ValueV {
    Float(Dec),
    Int(i64),
    String(Seq<u8>),
    Id(u64),
    Bool(bool),
    Enum(Seq<u8>),
    Tuple(Seq<ValueV>),
    Xplicit,
    Undefined,
    Desc(Seq<u8>, Seq<ValueV>),
}

pub open spec fn view_values(ts: Seq<Value>) -> Seq<ValueV>
    decreases ts,
{
    if ts.len() == 0 {
        Seq::empty()
    } else {
        view_values(ts.drop_last()).push(view_value(ts.last()))
    }
}

pub open spec fn view_value(v: Value) -> ValueV
    decreases v,
{
    match v {
        Value::Float(d) => ValueV::Float(d),
        Value::Int(n) => ValueV::Int(n),
        Value::String(s) => ValueV::String(s@),
        Value::Id(n) => ValueV::Id(n),
        Value::Bool(b) => ValueV::Bool(b),
        Value::Enum(s) => ValueV::Enum(s@),
        Value::Tuple(ts) => ValueV::Tuple(view_values(ts@)),
        Value::Xplicit => ValueV::Xplicit,
        Value::Undefined => ValueV::Undefined,
        Value::Desc(n, ts) => ValueV::Desc(n@, view_values(ts@)),
    }
}

impl View for Value {
    type V = ValueV;

    open spec fn view(&self) -> ValueV {
        view_value(*self)
    }
}

pub proof fn lemma_view_values_index(ts: Seq<Value>, i: int)
    requires
        0 <= i < ts.len(),
    ensures
        view_values(ts).len() == ts.len(),
        view_values(ts)[i] == view_value(ts[i]),
    decreases ts,
{
    if ts.len() > 0 {
        if i < ts.len() - 1 {
            lemma_view_values_index(ts.drop_last(), i);
        } else {
            if ts.len() > 1 {
                lemma_view_values_index(ts.drop_last(), 0);
            }
        }
    }
}

pub proof fn lemma_view_values_len(ts: Seq<Value>)
    ensures
        view_values(ts).len() == ts.len(),
    decreases ts,
{
    if ts.len() > 0 {
        lemma_view_values_len(ts.drop_last());
    }
}

// ---------------------------------------------------------------------------
// Records of the data section and the parsed document.
// ---------------------------------------------------------------------------

#[derive(PartialEq, Eq, Debug)]
pub enum Data {
    Single(u64, Vec<u8>, Vec<Value>),
    Aggregate(u64, Vec<(Vec<u8>, Vec<Value>)>),
}

pub enum DataV {
    Single(u64, Seq<u8>, Seq<ValueV>),
    Aggregate(u64, Seq<(Seq<u8>, Seq<ValueV>)>),
}

pub open spec fn view_desc(d: (Vec<u8>, Vec<Value>)) -> (Seq<u8>, Seq<ValueV>) {
    (d.0@, view_values(d.1@))
}

pub open spec fn view_descs(ds: Seq<(Vec<u8>, Vec<Value>)>) -> Seq<(Seq<u8>, Seq<ValueV>)> {
    Seq::new(ds.len(), |i: int| view_desc(ds[i]))
}

pub open spec fn view_data(d: Data) -> DataV {
    match d {
        Data::Single(id, n, args) => DataV::Single(id, n@, view_values(args@)),
        Data::Aggregate(id, ds) => DataV::Aggregate(id, view_descs(ds@)),
    }
}

impl View for Data {
    type V = DataV;

    open spec fn view(&self) -> DataV {
        view_data(*self)
    }
}

/// One header record: a name and its argument list.
pub type Header = (Vec<u8>, Vec<Value>);

pub struct Step {
    pub header: Vec<Header>,
    pub data: Vec<Data>,
}

pub struct StepV {
    pub header: Seq<(Seq<u8>, Seq<ValueV>)>,
    pub data: Seq<DataV>,
}

impl View for Step {
    type V = StepV;

    open spec fn view(&self) -> StepV {
        StepV { header: view_descs(self.header@), data: view_datas(self.data@) }
    }
}

// ---------------------------------------------------------------------------
// Decoder errors.  A grammar mismatch carries the place where the text
// stopped matching; a span is reported where the end of the construct is
// unknown (an unterminated string).  A literal that the grammar accepted
// but that does not fit its numeric type is an internal fault.
// ---------------------------------------------------------------------------

#[derive(PartialEq, Eq, Clone, Copy, Debug)]
pub enum PreprocessErrorInfo {
    LineCol((usize, usize)),
    Span((usize, usize), (usize, usize)),
}

#[derive(PartialEq, Eq, Clone, Copy, Debug)]
pub enum PreprocessError {
    Fail(PreprocessErrorInfo),
    InternalError,
}

/// A decoder failure over raw byte positions, before positions are turned
/// into line and column pairs.
#[derive(PartialEq, Eq, Structural, Clone, Copy, Debug)]
pub enum RawError {
    Fail(usize),
    FailSpan(usize, usize),
    Internal,
}

/// The outcome of one spec-level parse step: the parsed item and the
/// position just after it, or the failure.
pub enum SpR<T> {
    Found(T, int),
    Fail(int),
    FailSpan(int, int),
    Internal,
}

// ---------------------------------------------------------------------------
// Character classes and primitive scans of the grammar.
// ---------------------------------------------------------------------------

pub open spec fn is_ws(b: u8) -> bool {
    b == 32 || b == 9 || b == 10 || b == 13
}

pub open spec fn is_digit(b: u8) -> bool {
    48 <= b <= 57
}

pub open spec fn is_alpha(b: u8) -> bool {
    (65 <= b <= 90) || (97 <= b <= 122) || b == 95
}

pub open spec fn is_ident_char(b: u8) -> bool {
    is_alpha(b) || is_digit(b)
}

/// First position at or after `i` that does not hold whitespace.
pub open spec fn sp_ws(s: Seq<u8>, i: int) -> int
    decreases s.len() - i when 0 <= i <= s.len()
{
    if i < s.len() && is_ws(s[i]) {
        sp_ws(s, i + 1)
    } else {
        i
    }
}

/// End of the digit run that starts at `i`.
pub open spec fn sp_digits_end(s: Seq<u8>, i: int) -> int
    decreases s.len() - i when 0 <= i <= s.len()
{
    if i < s.len() && is_digit(s[i]) {
        sp_digits_end(s, i + 1)
    } else {
        i
    }
}

/// End of the identifier-character run that starts at `i`.
pub open spec fn sp_ident_end(s: Seq<u8>, i: int) -> int
    decreases s.len() - i when 0 <= i <= s.len()
{
    if i < s.len() && is_ident_char(s[i]) {
        sp_ident_end(s, i + 1)
    } else {
        i
    }
}

/// The number written by the digit run `s[i..j]`.
pub open spec fn dig_val(s: Seq<u8>, i: int, j: int) -> nat
    decreases j - i when 0 <= i <= j <= s.len()
{
    if i >= j {
        0
    } else {
        dig_val(s, i, j - 1) * 10 + (s[j - 1] - 48) as nat
    }
}

pub proof fn lemma_sp_ws_range(s: Seq<u8>, i: int)
    requires
        0 <= i <= s.len(),
    ensures
        i <= sp_ws(s, i) <= s.len(),
        sp_ws(s, i) < s.len() ==> !is_ws(s[sp_ws(s, i)]),
    decreases s.len() - i,
{
    if i < s.len() && is_ws(s[i]) {
        lemma_sp_ws_range(s, i + 1);
    }
}

pub proof fn lemma_sp_digits_end_range(s: Seq<u8>, i: int)
    requires
        0 <= i <= s.len(),
    ensures
        i <= sp_digits_end(s, i) <= s.len(),
    decreases s.len() - i,
{
    if i < s.len() && is_digit(s[i]) {
        lemma_sp_digits_end_range(s, i + 1);
    }
}

pub proof fn lemma_sp_ident_end_range(s: Seq<u8>, i: int)
    requires
        0 <= i <= s.len(),
    ensures
        i <= sp_ident_end(s, i) <= s.len(),
    decreases s.len() - i,
{
    if i < s.len() && is_ident_char(s[i]) {
        lemma_sp_ident_end_range(s, i + 1);
    }
}

} // verus!

verus! {

// ---------------------------------------------------------------------------
// The grammar, as total spec functions over the byte sequence.
//
// Each function returns the parsed item and the position just after it.
// Every function skips leading whitespace itself.  The guards of the form
// `if j <= i` discharge termination; a parse never moves backwards, so the
// guarded branches are unreachable (`lemma_sp_value_advances`).
// ---------------------------------------------------------------------------

/// Does `lit` occur in `s` starting at `i`?
pub open spec fn sp_lit(s: Seq<u8>, i: int, lit: Seq<u8>) -> bool {
    &&& 0 <= i
    &&& i + lit.len() <= s.len()
    &&& forall|k: int| 0 <= k < lit.len() ==> s[i + k] == lit[k]
}

/// A number at `j` (whitespace already skipped; `s[j]` is a sign or digit).
/// A digit run followed by a point is a real, kept as its exact decimal;
/// otherwise it is an integer.  A literal whose mantissa or exponent does
/// not fit its target type is an internal fault.
pub open spec fn sp_number(s: Seq<u8>, j: int) -> SpR<ValueV> {
    let neg = s[j] == 45;
    let d0 = if s[j] == 45 || s[j] == 43 { j + 1 } else { j };
    let d1 = sp_digits_end(s, d0);
    if d1 == d0 {
        SpR::Fail(d0)
    } else if d1 < s.len() && s[d1] == 46 {
        // real: digits '.' digits? (('E'|'e') sign? digits)?
        let d2 = sp_digits_end(s, d1 + 1);
        let frac_len = d2 - (d1 + 1);
        let m_abs = dig_val(s, d0, d1) * pow10(frac_len as nat) + dig_val(s, d1 + 1, d2);
        if d2 < s.len() && (s[d2] == 69 || s[d2] == 101) {
            let es = d2 + 1;
            let eneg = es < s.len() && s[es] == 45;
            let e0 = if es < s.len() && (s[es] == 45 || s[es] == 43) { es + 1 } else { es };
            let e1 = sp_digits_end(s, e0);
            if e1 == e0 {
                SpR::Fail(e0)
            } else if dig_val(s, e0, e1) > i64::MAX as nat {
                SpR::Internal
            } else {
                let exp_abs = dig_val(s, e0, e1);
                let exp = if eneg { -(exp_abs as int) } else { exp_abs as int };
                sp_make_float(neg, m_abs, exp - frac_len, e1)
            }
        } else {
            sp_make_float(neg, m_abs, -frac_len, d2)
        }
    } else {
        let m_abs = dig_val(s, d0, d1);
        if !neg && m_abs > i64::MAX as nat {
            SpR::Internal
        } else if neg && m_abs > (i64::MAX as nat) + 1 {
            SpR::Internal
        } else {
            let m = if neg { -(m_abs as int) } else { m_abs as int };
            SpR::Found(ValueV::Int(m as i64), d1)
        }
    }
}

pub open spec fn sp_make_float(neg: bool, m_abs: nat, e: int, after: int) -> SpR<ValueV> {
    if !neg && m_abs > i64::MAX as nat {
        SpR::Internal
    } else if neg && m_abs > (i64::MAX as nat) + 1 {
        SpR::Internal
    } else if e > i64::MAX as int || e < i64::MIN as int {
        SpR::Internal
    } else {
        let m = if neg { -(m_abs as int) } else { m_abs as int };
        SpR::Found(ValueV::Float(Dec { m: m as i64, e: e as i64 }), after)
    }
}

/// End of the string body that starts at `k` (the opening quote stands at
/// some `q < k`).  Returns the position of the closing quote.  A backslash
/// escapes the byte after it.  An unterminated string is reported as a span
/// from the opening quote to the end of the text.
pub open spec fn sp_string_end(s: Seq<u8>, q: int, k: int) -> SpR<int>
    decreases s.len() - k when 0 <= k <= s.len()
{
    if k >= s.len() {
        SpR::FailSpan(q, s.len() as int)
    } else if s[k] == 39 {
        SpR::Found(k, k)
    } else if s[k] == 92 {
        if k + 2 <= s.len() {
            sp_string_end(s, q, k + 2)
        } else {
            SpR::FailSpan(q, s.len() as int)
        }
    } else {
        sp_string_end(s, q, k + 1)
    }
}

/// A value, after skipping whitespace: a number, a quoted string, an `#id`,
/// a `.TOKEN.` enumeration (`.T.`/`.F.` are the booleans), a parenthesized
/// tuple, the `*` and `$` markers, or a nested `NAME(args)` record.
pub open spec fn sp_value(s: Seq<u8>, i: int) -> SpR<ValueV>
    decreases s.len() - i, 1int when 0 <= i <= s.len()
{
    let j = sp_ws(s, i);
    if j < i || j >= s.len() {
        SpR::Fail(j)
    } else if s[j] == 45 || s[j] == 43 || is_digit(s[j]) {
        sp_number(s, j)
    } else if s[j] == 39 {
        // string
        match sp_string_end(s, j, j + 1) {
            SpR::Found(q2, _) => SpR::Found(ValueV::String(s.subrange(j + 1, q2)), q2 + 1),
            SpR::Fail(p) => SpR::Fail(p),
            SpR::FailSpan(p, q) => SpR::FailSpan(p, q),
            SpR::Internal => SpR::Internal,
        }
    } else if s[j] == 35 {
        // #id
        let d1 = sp_digits_end(s, j + 1);
        if d1 == j + 1 {
            SpR::Fail(j + 1)
        } else if dig_val(s, j + 1, d1) > u64::MAX as nat {
            SpR::Internal
        } else {
            SpR::Found(ValueV::Id(dig_val(s, j + 1, d1) as u64), d1)
        }
    } else if s[j] == 46 {
        // .TOKEN.
        let d1 = sp_ident_end(s, j + 1);
        if d1 == j + 1 {
            SpR::Fail(j + 1)
        } else if d1 >= s.len() || s[d1] != 46 {
            SpR::Fail(d1)
        } else {
            let tok = s.subrange(j + 1, d1);
            if tok =~= seq![84u8] {
                SpR::Found(ValueV::Bool(true), d1 + 1)
            } else if tok =~= seq![70u8] {
                SpR::Found(ValueV::Bool(false), d1 + 1)
            } else {
                SpR::Found(ValueV::Enum(tok), d1 + 1)
            }
        }
    } else if s[j] == 40 {
        // tuple
        match sp_value_list(s, j + 1) {
            SpR::Found(vs, j2) => {
                if j2 < j + 1 || j2 > s.len() {
                    SpR::Fail(j2)
                } else {
                    let k = sp_ws(s, j2);
                    if k < s.len() && s[k] == 41 {
                        SpR::Found(ValueV::Tuple(vs), k + 1)
                    } else {
                        SpR::Fail(k)
                    }
                }
            },
            SpR::Fail(p) => SpR::Fail(p),
            SpR::FailSpan(p, q) => SpR::FailSpan(p, q),
            SpR::Internal => SpR::Internal,
        }
    } else if s[j] == 42 {
        SpR::Found(ValueV::Xplicit, j + 1)
    } else if s[j] == 36 {
        SpR::Found(ValueV::Undefined, j + 1)
    } else if is_alpha(s[j]) {
        match sp_desc(s, j) {
            SpR::Found(d, j2) => SpR::Found(ValueV::Desc(d.0, d.1), j2),
            SpR::Fail(p) => SpR::Fail(p),
            SpR::FailSpan(p, q) => SpR::FailSpan(p, q),
            SpR::Internal => SpR::Internal,
        }
    } else {
        SpR::Fail(j)
    }
}

/// A possibly empty, comma-separated list of values.  The closing
/// parenthesis is not consumed: the caller checks it.
pub open spec fn sp_value_list(s: Seq<u8>, i: int) -> SpR<Seq<ValueV>>
    decreases s.len() - i, 2int when 0 <= i <= s.len()
{
    let j = sp_ws(s, i);
    if j < s.len() && s[j] == 41 {
        SpR::Found(Seq::empty(), j)
    } else {
        match sp_value(s, i) {
            SpR::Found(v, j2) => {
                if j2 <= i || j2 > s.len() {
                    SpR::Fail(j2)
                } else {
                    match sp_list_rest(s, j2) {
                        SpR::Found(vs, j3) => SpR::Found(seq![v] + vs, j3),
                        SpR::Fail(p) => SpR::Fail(p),
                        SpR::FailSpan(p, q) => SpR::FailSpan(p, q),
                        SpR::Internal => SpR::Internal,
                    }
                }
            },
            SpR::Fail(p) => SpR::Fail(p),
            SpR::FailSpan(p, q) => SpR::FailSpan(p, q),
            SpR::Internal => SpR::Internal,
        }
    }
}

/// The values after the first one: `("," value)*`.
pub open spec fn sp_list_rest(s: Seq<u8>, i: int) -> SpR<Seq<ValueV>>
    decreases s.len() - i, 3int when 0 <= i <= s.len()
{
    let k = sp_ws(s, i);
    if k < i {
        SpR::Fail(k)
    } else if k < s.len() && s[k] == 44 {
        match sp_value(s, k + 1) {
            SpR::Found(v, j2) => {
                if j2 <= k || j2 > s.len() {
                    SpR::Fail(j2)
                } else {
                    match sp_list_rest(s, j2) {
                        SpR::Found(vs, j3) => SpR::Found(seq![v] + vs, j3),
                        SpR::Fail(p) => SpR::Fail(p),
                        SpR::FailSpan(p, q) => SpR::FailSpan(p, q),
                        SpR::Internal => SpR::Internal,
                    }
                }
            },
            SpR::Fail(p) => SpR::Fail(p),
            SpR::FailSpan(p, q) => SpR::FailSpan(p, q),
            SpR::Internal => SpR::Internal,
        }
    } else {
        SpR::Found(Seq::empty(), i)
    }
}

/// A named record `NAME(args)`.
pub open spec fn sp_desc(s: Seq<u8>, i: int) -> SpR<(Seq<u8>, Seq<ValueV>)>
    decreases s.len() - i, 0int when 0 <= i <= s.len()
{
    let j = sp_ws(s, i);
    if j < i {
        SpR::Fail(j)
    } else if !(j < s.len() && is_alpha(s[j])) {
        SpR::Fail(j)
    } else {
        let n1 = sp_ident_end(s, j);
        if !(n1 < s.len() && s[n1] == 40) {
            SpR::Fail(n1)
        } else if n1 + 1 <= i {
            SpR::Fail(n1)
        } else {
            match sp_value_list(s, n1 + 1) {
                SpR::Found(vs, j2) => {
                    if j2 < n1 + 1 || j2 > s.len() {
                        SpR::Fail(j2)
                    } else {
                        let k = sp_ws(s, j2);
                        if k < s.len() && s[k] == 41 {
                            SpR::Found((s.subrange(j, n1), vs), k + 1)
                        } else {
                            SpR::Fail(k)
                        }
                    }
                },
                SpR::Fail(p) => SpR::Fail(p),
                SpR::FailSpan(p, q) => SpR::FailSpan(p, q),
                SpR::Internal => SpR::Internal,
            }
        }
    }
}

} // verus!

verus! {

// ---------------------------------------------------------------------------
// The document grammar: HEADER and DATA sections inside the exchange-file
// envelope.
// ---------------------------------------------------------------------------

pub open spec fn lit_iso() -> Seq<u8> {
    seq![73u8, 83, 79, 45, 49, 48, 51, 48, 51, 45, 50, 49, 59]
}

pub open spec fn lit_header() -> Seq<u8> {
    seq![72u8, 69, 65, 68, 69, 82, 59]
}

pub open spec fn lit_endsec() -> Seq<u8> {
    seq![69u8, 78, 68, 83, 69, 67, 59]
}

pub open spec fn lit_data() -> Seq<u8> {
    seq![68u8, 65, 84, 65, 59]
}

pub open spec fn lit_end_iso() -> Seq<u8> {
    seq![69u8, 78, 68, 45, 73, 83, 79, 45, 49, 48, 51, 48, 51, 45, 50, 49, 59]
}

/// One or more `NAME(args)` records, as inside an aggregate instance.
pub open spec fn sp_desc_list(s: Seq<u8>, i: int) -> SpR<Seq<(Seq<u8>, Seq<ValueV>)>>
    decreases s.len() - i, 1int when 0 <= i <= s.len()
{
    match sp_desc(s, i) {
        SpR::Found(d, j) => {
            if j <= i || j > s.len() {
                SpR::Fail(j)
            } else {
                match sp_desc_list_more(s, j) {
                    SpR::Found(ds, j2) => SpR::Found(seq![d] + ds, j2),
                    SpR::Fail(p) => SpR::Fail(p),
                    SpR::FailSpan(p, q) => SpR::FailSpan(p, q),
                    SpR::Internal => SpR::Internal,
                }
            }
        },
        SpR::Fail(p) => SpR::Fail(p),
        SpR::FailSpan(p, q) => SpR::FailSpan(p, q),
        SpR::Internal => SpR::Internal,
    }
}

pub open spec fn sp_desc_list_more(s: Seq<u8>, i: int) -> SpR<Seq<(Seq<u8>, Seq<ValueV>)>>
    decreases s.len() - i, 2int when 0 <= i <= s.len()
{
    let k = sp_ws(s, i);
    if k < i {
        SpR::Fail(k)
    } else if k < s.len() && s[k] == 41 {
        SpR::Found(Seq::empty(), k)
    } else {
        match sp_desc(s, k) {
            SpR::Found(d, j) => {
                if j <= k || j > s.len() {
                    SpR::Fail(j)
                } else {
                    match sp_desc_list_more(s, j) {
                        SpR::Found(ds, j2) => SpR::Found(seq![d] + ds, j2),
                        SpR::Fail(p) => SpR::Fail(p),
                        SpR::FailSpan(p, q) => SpR::FailSpan(p, q),
                        SpR::Internal => SpR::Internal,
                    }
                }
            },
            SpR::Fail(p) => SpR::Fail(p),
            SpR::FailSpan(p, q) => SpR::FailSpan(p, q),
            SpR::Internal => SpR::Internal,
        }
    }
}

/// One data line: `#<id> = <record>;` where the record is a single
/// `NAME(args)` or a parenthesized aggregate of them.
pub open spec fn sp_dataline(s: Seq<u8>, i: int) -> SpR<DataV> {
    let k = sp_ws(s, i);
    if !(0 <= k <= s.len()) {
        SpR::Fail(k)
    } else if !(k < s.len() && s[k] == 35) {
        SpR::Fail(k)
    } else {
        let d1 = sp_digits_end(s, k + 1);
        if d1 == k + 1 {
            SpR::Fail(d1)
        } else if dig_val(s, k + 1, d1) > u64::MAX as nat {
            SpR::Internal
        } else {
            let id = dig_val(s, k + 1, d1) as u64;
            let k2 = sp_ws(s, d1);
            if !(k2 < s.len() && s[k2] == 61) {
                SpR::Fail(k2)
            } else {
                let k3 = sp_ws(s, k2 + 1);
                if !(0 <= k3 <= s.len()) {
                    SpR::Fail(k3)
                } else if k3 < s.len() && s[k3] == 40 {
                    match sp_desc_list(s, k3 + 1) {
                        SpR::Found(ds, j) => {
                            if !(0 <= j <= s.len()) {
                                SpR::Fail(j)
                            } else {
                                let k4 = sp_ws(s, j);
                                if !(k4 < s.len() && s[k4] == 41) {
                                    SpR::Fail(k4)
                                } else {
                                    let k5 = sp_ws(s, k4 + 1);
                                    if k5 < s.len() && s[k5] == 59 {
                                        SpR::Found(DataV::Aggregate(id, ds), k5 + 1)
                                    } else {
                                        SpR::Fail(k5)
                                    }
                                }
                            }
                        },
                        SpR::Fail(p) => SpR::Fail(p),
                        SpR::FailSpan(p, q) => SpR::FailSpan(p, q),
                        SpR::Internal => SpR::Internal,
                    }
                } else {
                    match sp_desc(s, k3) {
                        SpR::Found(d, j) => {
                            if !(0 <= j <= s.len()) {
                                SpR::Fail(j)
                            } else {
                                let k4 = sp_ws(s, j);
                                if k4 < s.len() && s[k4] == 59 {
                                    SpR::Found(DataV::Single(id, d.0, d.1), k4 + 1)
                                } else {
                                    SpR::Fail(k4)
                                }
                            }
                        },
                        SpR::Fail(p) => SpR::Fail(p),
                        SpR::FailSpan(p, q) => SpR::FailSpan(p, q),
                        SpR::Internal => SpR::Internal,
                    }
                }
            }
        }
    }
}

/// The data lines up to and including the closing `ENDSEC;`.
pub open spec fn sp_data_lines(s: Seq<u8>, i: int) -> SpR<Seq<DataV>>
    decreases s.len() - i when 0 <= i <= s.len()
{
    let k = sp_ws(s, i);
    if k < i {
        SpR::Fail(k)
    } else if k < s.len() && s[k] == 35 {
        match sp_dataline(s, i) {
            SpR::Found(d, j) => {
                if j <= i || j > s.len() {
                    SpR::Fail(j)
                } else {
                    match sp_data_lines(s, j) {
                        SpR::Found(ds, j2) => SpR::Found(seq![d] + ds, j2),
                        SpR::Fail(p) => SpR::Fail(p),
                        SpR::FailSpan(p, q) => SpR::FailSpan(p, q),
                        SpR::Internal => SpR::Internal,
                    }
                }
            },
            SpR::Fail(p) => SpR::Fail(p),
            SpR::FailSpan(p, q) => SpR::FailSpan(p, q),
            SpR::Internal => SpR::Internal,
        }
    } else if sp_lit(s, k, lit_endsec()) {
        SpR::Found(Seq::empty(), k + lit_endsec().len())
    } else {
        SpR::Fail(k)
    }
}

/// The header records up to and including the closing `ENDSEC;`.  Each
/// record is a `NAME(args)` followed by a semicolon.
pub open spec fn sp_header_descs(s: Seq<u8>, i: int) -> SpR<Seq<(Seq<u8>, Seq<ValueV>)>>
    decreases s.len() - i when 0 <= i <= s.len()
{
    let k = sp_ws(s, i);
    if k < i {
        SpR::Fail(k)
    } else if sp_lit(s, k, lit_endsec()) {
        SpR::Found(Seq::empty(), k + lit_endsec().len())
    } else {
        match sp_desc(s, i) {
            SpR::Found(d, j) => {
                if j <= i || j > s.len() {
                    SpR::Fail(j)
                } else {
                    let k2 = sp_ws(s, j);
                    if k2 < j {
                        SpR::Fail(k2)
                    } else if !(k2 < s.len() && s[k2] == 59) {
                        SpR::Fail(k2)
                    } else {
                        match sp_header_descs(s, k2 + 1) {
                            SpR::Found(ds, j2) => SpR::Found(seq![d] + ds, j2),
                            SpR::Fail(p) => SpR::Fail(p),
                            SpR::FailSpan(p, q) => SpR::FailSpan(p, q),
                            SpR::Internal => SpR::Internal,
                        }
                    }
                }
            },
            SpR::Fail(p) => SpR::Fail(p),
            SpR::FailSpan(p, q) => SpR::FailSpan(p, q),
            SpR::Internal => SpR::Internal,
        }
    }
}

/// A whole exchange file: the envelope, the header section and the data
/// section, with nothing but whitespace after the closing line.
pub open spec fn sp_step(s: Seq<u8>) -> SpR<StepV> {
    let i0 = sp_ws(s, 0);
    if !sp_lit(s, i0, lit_iso()) {
        SpR::Fail(i0)
    } else {
        let i1 = sp_ws(s, i0 + lit_iso().len());
        if !sp_lit(s, i1, lit_header()) {
            SpR::Fail(i1)
        } else {
            match sp_header_descs(s, i1 + lit_header().len()) {
                SpR::Found(hs, j) => {
                    if !(0 <= j <= s.len()) {
                        SpR::Fail(j)
                    } else {
                        let i2 = sp_ws(s, j);
                        if !sp_lit(s, i2, lit_data()) {
                            SpR::Fail(i2)
                        } else {
                            match sp_data_lines(s, i2 + lit_data().len()) {
                                SpR::Found(ds, j2) => {
                                    if !(0 <= j2 <= s.len()) {
                                        SpR::Fail(j2)
                                    } else {
                                        let i3 = sp_ws(s, j2);
                                        if !sp_lit(s, i3, lit_end_iso()) {
                                            SpR::Fail(i3)
                                        } else {
                                            let i4 = sp_ws(s, i3 + lit_end_iso().len());
                                            if i4 == s.len() {
                                                SpR::Found(StepV { header: hs, data: ds }, i4)
                                            } else {
                                                SpR::Fail(i4)
                                            }
                                        }
                                    }
                                },
                                SpR::Fail(p) => SpR::Fail(p),
                                SpR::FailSpan(p, q) => SpR::FailSpan(p, q),
                                SpR::Internal => SpR::Internal,
                            }
                        }
                    }
                },
                SpR::Fail(p) => SpR::Fail(p),
                SpR::FailSpan(p, q) => SpR::FailSpan(p, q),
                SpR::Internal => SpR::Internal,
            }
        }
    }
}

// ---------------------------------------------------------------------------
// Line and column of a byte position: lines are counted from 1 and split at
// newline bytes; the column is the 1-based offset into the line.
// ---------------------------------------------------------------------------

pub open spec fn sp_line(s: Seq<u8>, p: int) -> int
    decreases p when 0 <= p <= s.len()
{
    if p <= 0 {
        1
    } else if s[p - 1] == 10 {
        sp_line(s, p - 1) + 1
    } else {
        sp_line(s, p - 1)
    }
}

pub open spec fn sp_col(s: Seq<u8>, p: int) -> int
    decreases p when 0 <= p <= s.len()
{
    if p <= 0 {
        1
    } else if s[p - 1] == 10 {
        1
    } else {
        sp_col(s, p - 1) + 1
    }
}

} // verus!

verus! {

// ---------------------------------------------------------------------------
// A parse result stays inside the text and never moves backwards.
// ---------------------------------------------------------------------------

/// The positions of `r` lie between `i` (strictly, if `strict`) and `n`.
pub open spec fn r_in_range<T>(r: SpR<T>, i: int, n: int, strict: bool) -> bool {
    match r {
        SpR::Found(_, j) => (if strict { i < j } else { i <= j }) && j <= n,
        SpR::Fail(p) => 0 <= p <= n,
        SpR::FailSpan(p, q) => 0 <= p <= q <= n,
        SpR::Internal => true,
    }
}

pub proof fn lemma_sp_number_range(s: Seq<u8>, j: int)
    requires
        0 <= j < s.len(),
    ensures
        r_in_range(sp_number(s, j), j, s.len() as int, true),
{
    let d0 = if s[j] == 45 || s[j] == 43 { j + 1 } else { j };
    lemma_sp_digits_end_range(s, d0);
    let d1 = sp_digits_end(s, d0);
    if d1 != d0 && d1 < s.len() && s[d1] == 46 {
        lemma_sp_digits_end_range(s, d1 + 1);
        let d2 = sp_digits_end(s, d1 + 1);
        if d2 < s.len() && (s[d2] == 69 || s[d2] == 101) {
            let es = d2 + 1;
            let e0 = if es < s.len() && (s[es] == 45 || s[es] == 43) { es + 1 } else { es };
            if e0 <= s.len() {
                lemma_sp_digits_end_range(s, e0);
            }
        }
    }
}

pub proof fn lemma_sp_string_end_range(s: Seq<u8>, q: int, k: int)
    requires
        0 <= q < k <= s.len(),
    ensures
        r_in_range(sp_string_end(s, q, k), k - 1, s.len() as int, true),
        sp_string_end(s, q, k) matches SpR::Found(q2, a) ==> {
            &&& k <= q2 < s.len()
            &&& a == q2
            &&& s[q2] == 39
        },
        sp_string_end(s, q, k) matches SpR::FailSpan(p, r) ==> p == q && r == s.len(),
    decreases s.len() - k,
{
    if k >= s.len() {
    } else if s[k] == 39 {
    } else if s[k] == 92 {
        if k + 2 <= s.len() {
            lemma_sp_string_end_range(s, q, k + 2);
        }
    } else {
        lemma_sp_string_end_range(s, q, k + 1);
    }
}

pub proof fn lemma_sp_value_range(s: Seq<u8>, i: int)
    requires
        0 <= i <= s.len(),
    ensures
        r_in_range(sp_value(s, i), i, s.len() as int, true),
    decreases s.len() - i, 1int,
{
    lemma_sp_ws_range(s, i);
    let j = sp_ws(s, i);
    if j < i || j >= s.len() {
    } else if s[j] == 45 || s[j] == 43 || is_digit(s[j]) {
        lemma_sp_number_range(s, j);
    } else if s[j] == 39 {
        lemma_sp_string_end_range(s, j, j + 1);
    } else if s[j] == 35 {
        lemma_sp_digits_end_range(s, j + 1);
    } else if s[j] == 46 {
        lemma_sp_ident_end_range(s, j + 1);
    } else if s[j] == 40 {
        lemma_sp_value_list_range(s, j + 1);
        match sp_value_list(s, j + 1) {
            SpR::Found(vs, j2) => {
                if j + 1 <= j2 <= s.len() {
                    lemma_sp_ws_range(s, j2);
                }
            },
            _ => {},
        }
    } else if s[j] == 42 {
    } else if s[j] == 36 {
    } else if is_alpha(s[j]) {
        lemma_sp_desc_range(s, j);
    } else {
    }
}

pub proof fn lemma_sp_value_list_range(s: Seq<u8>, i: int)
    requires
        0 <= i <= s.len(),
    ensures
        r_in_range(sp_value_list(s, i), i, s.len() as int, false),
    decreases s.len() - i, 2int,
{
    lemma_sp_ws_range(s, i);
    let j = sp_ws(s, i);
    if j < s.len() && s[j] == 41 {
    } else {
        lemma_sp_value_range(s, i);
        match sp_value(s, i) {
            SpR::Found(v, j2) => {
                if i < j2 <= s.len() {
                    lemma_sp_list_rest_range(s, j2);
                }
            },
            _ => {},
        }
    }
}

pub proof fn lemma_sp_list_rest_range(s: Seq<u8>, i: int)
    requires
        0 <= i <= s.len(),
    ensures
        r_in_range(sp_list_rest(s, i), i, s.len() as int, false),
    decreases s.len() - i, 3int,
{
    lemma_sp_ws_range(s, i);
    let k = sp_ws(s, i);
    if k >= i && k < s.len() && s[k] == 44 {
        lemma_sp_value_range(s, k + 1);
        match sp_value(s, k + 1) {
            SpR::Found(v, j2) => {
                if k < j2 <= s.len() {
                    lemma_sp_list_rest_range(s, j2);
                }
            },
            _ => {},
        }
    }
}

pub proof fn lemma_sp_desc_range(s: Seq<u8>, i: int)
    requires
        0 <= i <= s.len(),
    ensures
        r_in_range(sp_desc(s, i), i, s.len() as int, true),
    decreases s.len() - i, 0int,
{
    lemma_sp_ws_range(s, i);
    let j = sp_ws(s, i);
    if j >= i && j < s.len() && is_alpha(s[j]) {
        lemma_sp_ident_end_range(s, j);
        let n1 = sp_ident_end(s, j);
        if n1 < s.len() && s[n1] == 40 && n1 + 1 > i {
            lemma_sp_value_list_range(s, n1 + 1);
            match sp_value_list(s, n1 + 1) {
                SpR::Found(vs, j2) => {
                    if n1 + 1 <= j2 <= s.len() {
                        lemma_sp_ws_range(s, j2);
                    }
                },
                _ => {},
            }
        }
    }
}

} // verus!

verus! {

// ---------------------------------------------------------------------------
// The decoder proper.  Each function returns exactly what its spec-level
// counterpart describes; the contracts below say so, and everything the
// library knows about decoding flows through them.
// ---------------------------------------------------------------------------

/// Does the error value `e` report the failure that `sr` holds?
pub open spec fn err_matches<T>(e: RawError, sr: SpR<T>) -> bool {
    match sr {
        SpR::Found(_, _) => false,
        SpR::Fail(p) => e matches RawError::Fail(pe) && pe as int == p,
        SpR::FailSpan(p, q) => (e matches RawError::FailSpan(pe, qe) && pe as int == p && qe
            as int == q),
        SpR::Internal => e == RawError::Internal,
    }
}

pub open spec fn rv_matches(r: Result<(Value, usize), RawError>, sr: SpR<ValueV>) -> bool {
    match r {
        Ok((v, j)) => sr matches SpR::Found(vv, jj) && vv == view_value(v) && jj == j as int,
        Err(e) => err_matches(e, sr),
    }
}

pub open spec fn rvs_matches(
    r: Result<(Vec<Value>, usize), RawError>,
    sr: SpR<Seq<ValueV>>,
) -> bool {
    match r {
        Ok((vs, j)) => sr matches SpR::Found(vv, jj) && vv == view_values(vs@) && jj == j as int,
        Err(e) => err_matches(e, sr),
    }
}

pub open spec fn rd_matches(
    r: Result<((Vec<u8>, Vec<Value>), usize), RawError>,
    sr: SpR<(Seq<u8>, Seq<ValueV>)>,
) -> bool {
    match r {
        Ok((d, j)) => (sr matches SpR::Found(dv, jj) && dv.0 == d.0@ && dv.1 == view_values(d.1@)
            && jj == j as int),
        Err(e) => err_matches(e, sr),
    }
}

fn p_ws(s: &[u8], i: usize) -> (r: usize)
    requires
        i <= s@.len(),
    ensures
        r as int == sp_ws(s@, i as int),
        i <= r <= s@.len(),
{
    let mut k = i;
    while k < s.len() && (s[k] == 32 || s[k] == 9 || s[k] == 10 || s[k] == 13)
        invariant
            i <= k <= s@.len(),
            sp_ws(s@, i as int) == sp_ws(s@, k as int),
        decreases s@.len() - k,
    {
        k = k + 1;
    }
    k
}

fn p_digits_end(s: &[u8], i: usize) -> (r: usize)
    requires
        i <= s@.len(),
    ensures
        r as int == sp_digits_end(s@, i as int),
        i <= r <= s@.len(),
{
    let mut k = i;
    while k < s.len() && 48 <= s[k] && s[k] <= 57
        invariant
            i <= k <= s@.len(),
            sp_digits_end(s@, i as int) == sp_digits_end(s@, k as int),
        decreases s@.len() - k,
    {
        k = k + 1;
    }
    k
}

fn p_ident_end(s: &[u8], i: usize) -> (r: usize)
    requires
        i <= s@.len(),
    ensures
        r as int == sp_ident_end(s@, i as int),
        i <= r <= s@.len(),
{
    let mut k = i;
    while k < s.len() && ((65 <= s[k] && s[k] <= 90) || (97 <= s[k] && s[k] <= 122) || s[k] == 95
        || (48 <= s[k] && s[k] <= 57))
        invariant
            i <= k <= s@.len(),
            sp_ident_end(s@, i as int) == sp_ident_end(s@, k as int),
        decreases s@.len() - k,
    {
        k = k + 1;
    }
    k
}

// ---------------------------------------------------------------------------
// Digit runs and their numeric value.
// ---------------------------------------------------------------------------

pub proof fn lemma_pow10_pos(n: nat)
    ensures
        pow10(n) >= 1,
    decreases n,
{
    if n > 0 {
        lemma_pow10_pos((n - 1) as nat);
    }
}

/// Splitting a digit run: the whole value is the left part shifted by the
/// width of the right part, plus the right part.
pub proof fn lemma_dig_val_split(s: Seq<u8>, i: int, k: int, j: int)
    requires
        0 <= i <= k <= j <= s.len(),
    ensures
        dig_val(s, i, j) == dig_val(s, i, k) * pow10((j - k) as nat) + dig_val(s, k, j),
    decreases j - k,
{
    if k == j {
        assert(dig_val(s, i, j) == dig_val(s, i, k) * 1) by (nonlinear_arith)
            requires dig_val(s, i, j) == dig_val(s, i, k);
    } else {
        lemma_dig_val_split(s, i, k, j - 1);
        let a = dig_val(s, i, k);
        let p = pow10((j - 1 - k) as nat);
        let b = dig_val(s, k, j - 1);
        let d = (s[j - 1] - 48) as nat;
        assert((a * p + b) * 10 + d == a * (10 * p) + (b * 10 + d)) by (nonlinear_arith);
    }
}

/// The run `s[i..j]` holds only digit bytes.
pub open spec fn all_digits(s: Seq<u8>, i: int, j: int) -> bool {
    forall|k: int| i <= k < j ==> is_digit(s[k])
}

/// Writing more digits after a prefix: the whole run's value, in terms of
/// the prefix's value and the rest.
pub proof fn lemma_acc_total(s: Seq<u8>, i: int, k: int, j: int, a0: nat)
    requires
        0 <= i <= k <= j <= s.len(),
    ensures
        a0 * pow10((j - i) as nat) + dig_val(s, i, j) == (a0 * pow10((k - i) as nat) + dig_val(
            s,
            i,
            k,
        )) * pow10((j - k) as nat) + dig_val(s, k, j),
{
    lemma_dig_val_split(s, i, k, j);
    lemma_pow10_split((k - i) as nat, (j - k) as nat);
    let pa = pow10((k - i) as nat);
    let pb = pow10((j - k) as nat);
    let dk = dig_val(s, i, k);
    let b = dig_val(s, k, j);
    assert(a0 * (pa * pb) + (dk * pb + b) == (a0 * pa + dk) * pb + b) by (nonlinear_arith);
}

/// Accumulates the digits of `s[i..j]` onto `acc0`, reporting overflow of
/// the machine word.
fn p_dig_val_acc(s: &[u8], i: usize, j: usize, acc0: u64) -> (r: Option<u64>)
    requires
        i <= j <= s@.len(),
        all_digits(s@, i as int, j as int),
    ensures
        match r {
            Some(v) => v as nat == (acc0 as nat) * pow10((j - i) as nat) + dig_val(
                s@,
                i as int,
                j as int,
            ),
            None => (acc0 as nat) * pow10((j - i) as nat) + dig_val(s@, i as int, j as int)
                > u64::MAX as nat,
        },
{
    let mut acc: u64 = acc0;
    let mut k = i;
    proof {
        assert(pow10(0) == 1);
        assert(dig_val(s@, i as int, i as int) == 0);
        assert((acc0 as nat) * pow10(0) == acc0 as nat) by (nonlinear_arith);
    }
    while k < j
        invariant
            i <= k <= j <= s@.len(),
            all_digits(s@, i as int, j as int),
            acc as nat == (acc0 as nat) * pow10((k - i) as nat) + dig_val(s@, i as int, k as int),
        decreases j - k,
    {
        let d: u64 = (s[k] - 48) as u64;
        proof {
            lemma_acc_total(s@, i as int, k as int, j as int, acc0 as nat);
        }
        if acc > (u64::MAX - d) / 10 {
            proof {
                let a = acc as nat;
                let pb = pow10((j - k) as nat);
                let b = dig_val(s@, k as int, j as int);
                let total = (acc0 as nat) * pow10((j - i) as nat) + dig_val(
                    s@,
                    i as int,
                    j as int,
                );
                assert(total == a * pb + b);
                assert(pb == 10 * pow10((j - k - 1) as nat));
                lemma_pow10_pos((j - k - 1) as nat);
                lemma_dig_val_split(s@, k as int, k as int + 1, j as int);
                assert(dig_val(s@, k as int, k as int) == 0);
                assert(dig_val(s@, k as int, k as int + 1) == d);
                assert(b >= d) by (nonlinear_arith)
                    requires
                        b == (d as nat) * pow10((j - k - 1) as nat) + dig_val(
                            s@,
                            k as int + 1,
                            j as int,
                        ),
                        pow10((j - k - 1) as nat) >= 1,
                        d >= 0,
                ;
                assert(total >= a * 10 + d) by (nonlinear_arith)
                    requires
                        total == a * pb + b,
                        pb >= 10,
                        b >= d,
                        a >= 0,
                ;
                let x = (u64::MAX - d) as int;
                let q = x / 10;
                assert(x == 10 * q + x % 10 && 0 <= x % 10 < 10) by (nonlinear_arith)
                    requires x >= 0, q == x / 10;
                assert(a >= q + 1);
                assert(a * 10 >= (q + 1) * 10) by (nonlinear_arith)
                    requires a >= q + 1;
                assert(total > u64::MAX as nat);
            }
            return None;
        }
        let ghost acc_old = acc as nat;
        acc = acc * 10 + d;
        k = k + 1;
        proof {
            let a0 = acc0 as nat;
            let pa = pow10((k - 1 - i) as nat);
            let dk = dig_val(s@, i as int, k - 1);
            assert(dig_val(s@, i as int, k as int) == dk * 10 + (s@[k - 1] - 48) as nat);
            assert(pow10((k - i) as nat) == 10 * pa);
            assert((a0 * pa + dk) * 10 + (s@[k - 1] - 48) as nat == a0 * (10 * pa) + (dk * 10 + (
            s@[k - 1] - 48) as nat)) by (nonlinear_arith);
            assert(acc as nat == acc_old * 10 + (s@[k - 1] - 48) as nat);
        }
    }
    Some(acc)
}

pub proof fn lemma_pow10_split(a: nat, b: nat)
    ensures
        pow10(a + b) == pow10(a) * pow10(b),
    decreases b,
{
    if b == 0 {
        assert(pow10(a) * 1 == pow10(a)) by (nonlinear_arith);
    } else {
        lemma_pow10_split(a, (b - 1) as nat);
        let pa = pow10(a);
        let pb1 = pow10((b - 1) as nat);
        assert(pa * (10 * pb1) == 10 * (pa * pb1)) by (nonlinear_arith);
        assert(pow10(a + b) == 10 * pow10((a + b - 1) as nat));
    }
}

} // verus!

verus! {

pub proof fn lemma_sp_digits_end_digits(s: Seq<u8>, i: int)
    requires
        0 <= i <= s.len(),
    ensures
        all_digits(s, i, sp_digits_end(s, i)),
    decreases s.len() - i,
{
    if i < s.len() && is_digit(s[i]) {
        lemma_sp_digits_end_digits(s, i + 1);
        lemma_sp_digits_end_range(s, i + 1);
    }
}

/// Applies a written sign to a magnitude, failing where the result does
/// not fit the signed word.
fn signed_of(neg: bool, v: u64) -> (r: Option<i64>)
    ensures
        match r {
            Some(m) => {
                &&& m as int == if neg {
                    -(v as int)
                } else {
                    v as int
                }
                &&& !(!neg && v as nat > i64::MAX as nat)
                &&& !(neg && v as nat > (i64::MAX as nat) + 1)
            },
            None => (!neg && v as nat > i64::MAX as nat) || (neg && v as nat > (i64::MAX as nat)
                + 1),
        },
{
    if !neg {
        if v > i64::MAX as u64 {
            None
        } else {
            Some(v as i64)
        }
    } else {
        if v > 9223372036854775808u64 {
            None
        } else if v == 9223372036854775808u64 {
            Some(i64::MIN)
        } else {
            Some(-(v as i64))
        }
    }
}

pub open spec fn rpos_matches(r: Result<usize, RawError>, sr: SpR<int>) -> bool {
    match r {
        Ok(u) => sr matches SpR::Found(v, _) && u as int == v,
        Err(e) => err_matches(e, sr),
    }
}

/// Scans a string body for its closing quote.
fn p_string_end(s: &[u8], q: usize, k0: usize) -> (r: Result<usize, RawError>)
    requires
        q < k0 <= s@.len(),
    ensures
        rpos_matches(r, sp_string_end(s@, q as int, k0 as int)),
{
    let mut k = k0;
    loop
        invariant
            k0 <= k <= s@.len(),
            q < k0,
            sp_string_end(s@, q as int, k as int) == sp_string_end(s@, q as int, k0 as int),
        decreases s@.len() - k,
    {
        if k >= s.len() {
            return Err(RawError::FailSpan(q, s.len()));
        } else if s[k] == 39 {
            return Ok(k);
        } else if s[k] == 92 {
            if k < s.len() - 1 {
                k = k + 2;
            } else {
                return Err(RawError::FailSpan(q, s.len()));
            }
        } else {
            k = k + 1;
        }
    }
}

/// Decodes a numeric literal at `j`.
#[verifier::rlimit(100)]
fn p_number(s: &[u8], j: usize) -> (r: Result<(Value, usize), RawError>)
    requires
        j < s@.len(),
        s@[j as int] == 45 || s@[j as int] == 43 || is_digit(s@[j as int]),
    ensures
        rv_matches(r, sp_number(s@, j as int)),
{
    let neg = s[j] == 45;
    let d0 = if s[j] == 45 || s[j] == 43 {
        j + 1
    } else {
        j
    };
    let d1 = p_digits_end(s, d0);
    proof {
        lemma_sp_digits_end_digits(s@, d0 as int);
    }
    if d1 == d0 {
        return Err(RawError::Fail(d0));
    }
    if d1 < s.len() && s[d1] == 46 {
        // real literal
        let d2 = p_digits_end(s, d1 + 1);
        proof {
            lemma_sp_digits_end_digits(s@, d1 as int + 1);
        }
        let ghost frac_len = (d2 - (d1 + 1)) as nat;
        let ghost int_val = dig_val(s@, d0 as int, d1 as int);
        let ghost frac_val = dig_val(s@, d1 as int + 1, d2 as int);
        let ghost m_abs_spec = int_val * pow10(frac_len) + frac_val;
        proof {
            assert((0 as nat) * pow10((d1 - d0) as nat) == 0) by (nonlinear_arith);
            lemma_pow10_pos(frac_len);
            assert(int_val * pow10(frac_len) >= int_val) by (nonlinear_arith)
                requires pow10(frac_len) >= 1, int_val >= 0;
        }
        let m_opt: Option<u64> = match p_dig_val_acc(s, d0, d1, 0) {
            None => None,
            Some(ip) => p_dig_val_acc(s, d1 + 1, d2, ip),
        };
        proof {
            assert(match m_opt {
                Some(v) => v as nat == m_abs_spec,
                None => m_abs_spec > u64::MAX as nat,
            });
        }
        if d2 < s.len() && (s[d2] == 69 || s[d2] == 101) {
            let es = d2 + 1;
            let eneg = es < s.len() && s[es] == 45;
            let e0 = if es < s.len() && (s[es] == 45 || s[es] == 43) {
                es + 1
            } else {
                es
            };
            let e1 = p_digits_end(s, e0);
            proof {
                lemma_sp_digits_end_digits(s@, e0 as int);
                assert((0 as nat) * pow10((e1 - e0) as nat) == 0) by (nonlinear_arith);
            }
            if e1 == e0 {
                return Err(RawError::Fail(e0));
            }
            let ea: u64 = match p_dig_val_acc(s, e0, e1, 0) {
                None => {
                    return Err(RawError::Internal);
                },
                Some(x) => x,
            };
            if ea > i64::MAX as u64 {
                return Err(RawError::Internal);
            }
            let m: i64 = match m_opt {
                None => {
                    return Err(RawError::Internal);
                },
                Some(v) => match signed_of(neg, v) {
                    None => {
                        return Err(RawError::Internal);
                    },
                    Some(m) => m,
                },
            };
            let ev: i128 = if eneg {
                -(ea as i128)
            } else {
                ea as i128
            };
            let fr: i128 = (d2 - (d1 + 1)) as i128;
            let et: i128 = ev - fr;
            if et > i64::MAX as i128 || et < i64::MIN as i128 {
                return Err(RawError::Internal);
            }
            return Ok((Value::Float(Dec { m, e: et as i64 }), e1));
        } else {
            let m: i64 = match m_opt {
                None => {
                    return Err(RawError::Internal);
                },
                Some(v) => match signed_of(neg, v) {
                    None => {
                        return Err(RawError::Internal);
                    },
                    Some(m) => m,
                },
            };
            let fr: i128 = (d2 - (d1 + 1)) as i128;
            let et: i128 = -fr;
            if et > i64::MAX as i128 || et < i64::MIN as i128 {
                return Err(RawError::Internal);
            }
            return Ok((Value::Float(Dec { m, e: et as i64 }), d2));
        }
    } else {
        // integer literal
        match p_dig_val_acc(s, d0, d1, 0) {
            None => {
                proof {
                    assert((0 as nat) * pow10((d1 - d0) as nat) == 0) by (nonlinear_arith);
                }
                return Err(RawError::Internal);
            },
            Some(v) => {
                proof {
                    assert((0 as nat) * pow10((d1 - d0) as nat) == 0) by (nonlinear_arith);
                }
                match signed_of(neg, v) {
                    None => {
                        return Err(RawError::Internal);
                    },
                    Some(m) => {
                        return Ok((Value::Int(m), d1));
                    },
                }
            },
        }
    }
}

} // verus!

verus! {

use vstd::slice::slice_subrange;
use vstd::slice::slice_to_vec;
use vstd::string::StringSliceAdditionalSpecFns;

pub proof fn lemma_view_values_prepend(v: Value, ts: Seq<Value>)
    ensures
        view_values(ts.insert(0, v)) == seq![view_value(v)] + view_values(ts),
{
    let a = ts.insert(0, v);
    let lhs = view_values(a);
    let rhs = seq![view_value(v)] + view_values(ts);
    lemma_view_values_len(a);
    lemma_view_values_len(ts);
    assert forall|i: int| 0 <= i < lhs.len() implies lhs[i] == rhs[i] by {
        lemma_view_values_index(a, i);
        if i > 0 {
            lemma_view_values_index(ts, i - 1);
        }
    }
    assert(lhs =~= rhs);
}

#[verifier::rlimit(100)]
fn p_value(s: &[u8], i: usize) -> (r: Result<(Value, usize), RawError>)
    requires
        i <= s@.len(),
    ensures
        rv_matches(r, sp_value(s@, i as int)),
    decreases s@.len() - i, 1int,
{
    let j = p_ws(s, i);
    if j >= s.len() {
        return Err(RawError::Fail(j));
    }
    let c = s[j];
    if c == 45 || c == 43 || (48 <= c && c <= 57) {
        p_number(s, j)
    } else if c == 39 {
        match p_string_end(s, j, j + 1) {
            Ok(q2) => {
                proof {
                    lemma_sp_string_end_range(s@, j as int, j as int + 1);
                }
                let content = slice_to_vec(slice_subrange(s, j + 1, q2));
                Ok((Value::String(content), q2 + 1))
            },
            Err(e) => Err(e),
        }
    } else if c == 35 {
        let d1 = p_digits_end(s, j + 1);
        if d1 == j + 1 {
            return Err(RawError::Fail(j + 1));
        }
        proof {
            lemma_sp_digits_end_digits(s@, j as int + 1);
            assert((0 as nat) * pow10((d1 - (j + 1)) as nat) == 0) by (nonlinear_arith);
        }
        match p_dig_val_acc(s, j + 1, d1, 0) {
            None => Err(RawError::Internal),
            Some(v) => Ok((Value::Id(v), d1)),
        }
    } else if c == 46 {
        let d1 = p_ident_end(s, j + 1);
        if d1 == j + 1 {
            return Err(RawError::Fail(j + 1));
        }
        if d1 >= s.len() || s[d1] != 46 {
            return Err(RawError::Fail(d1));
        }
        let ghost tok = s@.subrange(j as int + 1, d1 as int);
        if d1 == j + 2 && s[j + 1] == 84 {
            proof {
                assert(tok =~= seq![84u8]);
            }
            Ok((Value::Bool(true), d1 + 1))
        } else if d1 == j + 2 && s[j + 1] == 70 {
            proof {
                assert(tok.len() == 1 && tok[0] == 70);
                assert(seq![84u8].len() == 1 && seq![84u8][0] == 84);
                assert(!(tok =~= seq![84u8]));
                assert(tok =~= seq![70u8]);
            }
            Ok((Value::Bool(false), d1 + 1))
        } else {
            proof {
                assert(tok.len() == d1 - j - 1);
                if d1 == j + 2 {
                    assert(tok[0] == s@[j as int + 1]);
                    assert(!(tok =~= seq![84u8]));
                    assert(!(tok =~= seq![70u8]));
                } else {
                    assert(tok.len() != 1);
                    assert(!(tok =~= seq![84u8]));
                    assert(!(tok =~= seq![70u8]));
                }
            }
            let tokv = slice_to_vec(slice_subrange(s, j + 1, d1));
            Ok((Value::Enum(tokv), d1 + 1))
        }
    } else if c == 40 {
        match p_value_list(s, j + 1) {
            Ok((vs, j2)) => {
                proof {
                    lemma_sp_value_list_range(s@, j as int + 1);
                }
                let k = p_ws(s, j2);
                if k < s.len() && s[k] == 41 {
                    Ok((Value::Tuple(vs), k + 1))
                } else {
                    Err(RawError::Fail(k))
                }
            },
            Err(e) => Err(e),
        }
    } else if c == 42 {
        Ok((Value::Xplicit, j + 1))
    } else if c == 36 {
        Ok((Value::Undefined, j + 1))
    } else if (65 <= c && c <= 90) || (97 <= c && c <= 122) || c == 95 {
        match p_desc(s, j) {
            Ok((d, j2)) => Ok((Value::Desc(d.0, d.1), j2)),
            Err(e) => Err(e),
        }
    } else {
        Err(RawError::Fail(j))
    }
}

fn p_value_list(s: &[u8], i: usize) -> (r: Result<(Vec<Value>, usize), RawError>)
    requires
        i <= s@.len(),
    ensures
        rvs_matches(r, sp_value_list(s@, i as int)),
    decreases s@.len() - i, 2int,
{
    let j = p_ws(s, i);
    if j < s.len() && s[j] == 41 {
        let vs: Vec<Value> = Vec::new();
        proof {
            assert(view_values(vs@) =~= Seq::<ValueV>::empty());
        }
        return Ok((vs, j));
    }
    match p_value(s, i) {
        Ok((v, j2)) => {
            proof {
                lemma_sp_value_range(s@, i as int);
            }
            match p_list_rest(s, j2) {
                Ok((vs, j3)) => {
                    let mut vs = vs;
                    let ghost oldvs = vs@;
                    vs.insert(0, v);
                    proof {
                        lemma_view_values_prepend(v, oldvs);
                    }
                    Ok((vs, j3))
                },
                Err(e) => Err(e),
            }
        },
        Err(e) => Err(e),
    }
}

fn p_list_rest(s: &[u8], i: usize) -> (r: Result<(Vec<Value>, usize), RawError>)
    requires
        i <= s@.len(),
    ensures
        rvs_matches(r, sp_list_rest(s@, i as int)),
    decreases s@.len() - i, 3int,
{
    let k = p_ws(s, i);
    if k < s.len() && s[k] == 44 {
        match p_value(s, k + 1) {
            Ok((v, j2)) => {
                proof {
                    lemma_sp_value_range(s@, k as int + 1);
                }
                match p_list_rest(s, j2) {
                    Ok((vs, j3)) => {
                        let mut vs = vs;
                        let ghost oldvs = vs@;
                        vs.insert(0, v);
                        proof {
                            lemma_view_values_prepend(v, oldvs);
                        }
                        Ok((vs, j3))
                    },
                    Err(e) => Err(e),
                }
            },
            Err(e) => Err(e),
        }
    } else {
        let vs: Vec<Value> = Vec::new();
        proof {
            assert(view_values(vs@) =~= Seq::<ValueV>::empty());
        }
        Ok((vs, i))
    }
}

fn p_desc(s: &[u8], i: usize) -> (r: Result<((Vec<u8>, Vec<Value>), usize), RawError>)
    requires
        i <= s@.len(),
    ensures
        rd_matches(r, sp_desc(s@, i as int)),
    decreases s@.len() - i, 0int,
{
    let j = p_ws(s, i);
    if !(j < s.len() && ((65 <= s[j] && s[j] <= 90) || (97 <= s[j] && s[j] <= 122) || s[j]
        == 95)) {
        return Err(RawError::Fail(j));
    }
    let n1 = p_ident_end(s, j);
    if !(n1 < s.len() && s[n1] == 40) {
        return Err(RawError::Fail(n1));
    }
    match p_value_list(s, n1 + 1) {
        Ok((vs, j2)) => {
            proof {
                lemma_sp_value_list_range(s@, n1 as int + 1);
            }
            let k = p_ws(s, j2);
            if k < s.len() && s[k] == 41 {
                let name = slice_to_vec(slice_subrange(s, j, n1));
                Ok(((name, vs), k + 1))
            } else {
                Err(RawError::Fail(k))
            }
        },
        Err(e) => Err(e),
    }
}

} // verus!

verus! {

// ---------------------------------------------------------------------------
// Document-level decoding: ranges and executable forms.
// ---------------------------------------------------------------------------

pub proof fn lemma_sp_desc_list_more_range(s: Seq<u8>, i: int)
    requires
        0 <= i <= s.len(),
    ensures
        r_in_range(sp_desc_list_more(s, i), i, s.len() as int, false),
    decreases s.len() - i, 2int,
{
    lemma_sp_ws_range(s, i);
    let k = sp_ws(s, i);
    if k >= i && !(k < s.len() && s[k] == 41) {
        lemma_sp_desc_range(s, k);
        match sp_desc(s, k) {
            SpR::Found(d, j) => {
                if k < j <= s.len() {
                    lemma_sp_desc_list_more_range(s, j);
                }
            },
            _ => {},
        }
    }
}

pub proof fn lemma_sp_desc_list_range(s: Seq<u8>, i: int)
    requires
        0 <= i <= s.len(),
    ensures
        r_in_range(sp_desc_list(s, i), i, s.len() as int, true),
    decreases s.len() - i, 3int,
{
    lemma_sp_desc_range(s, i);
    match sp_desc(s, i) {
        SpR::Found(d, j) => {
            if i < j <= s.len() {
                lemma_sp_desc_list_more_range(s, j);
            }
        },
        _ => {},
    }
}

pub proof fn lemma_sp_dataline_range(s: Seq<u8>, i: int)
    requires
        0 <= i <= s.len(),
    ensures
        r_in_range(sp_dataline(s, i), i, s.len() as int, true),
{
    lemma_sp_ws_range(s, i);
    let k = sp_ws(s, i);
    if k < s.len() && s[k] == 35 {
        lemma_sp_digits_end_range(s, k + 1);
        let d1 = sp_digits_end(s, k + 1);
        if d1 != k + 1 && dig_val(s, k + 1, d1) <= u64::MAX as nat {
            lemma_sp_ws_range(s, d1);
            let k2 = sp_ws(s, d1);
            if k2 < s.len() && s[k2] == 61 {
                lemma_sp_ws_range(s, k2 + 1);
                let k3 = sp_ws(s, k2 + 1);
                if k3 < s.len() && s[k3] == 40 {
                    lemma_sp_desc_list_range(s, k3 + 1);
                    match sp_desc_list(s, k3 + 1) {
                        SpR::Found(ds, j) => {
                            if 0 <= j <= s.len() {
                                lemma_sp_ws_range(s, j);
                                let k4 = sp_ws(s, j);
                                if k4 < s.len() && s[k4] == 41 {
                                    lemma_sp_ws_range(s, k4 + 1);
                                }
                            }
                        },
                        _ => {},
                    }
                } else {
                    lemma_sp_desc_range(s, k3);
                    match sp_desc(s, k3) {
                        SpR::Found(d, j) => {
                            if 0 <= j <= s.len() {
                                lemma_sp_ws_range(s, j);
                            }
                        },
                        _ => {},
                    }
                }
            }
        }
    }
}

pub open spec fn view_datas(ds: Seq<Data>) -> Seq<DataV> {
    Seq::new(ds.len(), |i: int| view_data(ds[i]))
}

pub proof fn lemma_view_descs_prepend(d: (Vec<u8>, Vec<Value>), ds: Seq<(Vec<u8>, Vec<Value>)>)
    ensures
        view_descs(ds.insert(0, d)) == seq![view_desc(d)] + view_descs(ds),
{
    assert(view_descs(ds.insert(0, d)) =~= seq![view_desc(d)] + view_descs(ds));
}

pub proof fn lemma_view_datas_prepend(d: Data, ds: Seq<Data>)
    ensures
        view_datas(ds.insert(0, d)) == seq![view_data(d)] + view_datas(ds),
{
    assert(view_datas(ds.insert(0, d)) =~= seq![view_data(d)] + view_datas(ds));
}

pub open spec fn rds_matches(
    r: Result<(Vec<(Vec<u8>, Vec<Value>)>, usize), RawError>,
    sr: SpR<Seq<(Seq<u8>, Seq<ValueV>)>>,
) -> bool {
    match r {
        Ok((ds, j)) => sr matches SpR::Found(dv, jj) && dv == view_descs(ds@) && jj == j as int,
        Err(e) => err_matches(e, sr),
    }
}

pub open spec fn rdata_matches(r: Result<(Data, usize), RawError>, sr: SpR<DataV>) -> bool {
    match r {
        Ok((d, j)) => sr matches SpR::Found(dv, jj) && dv == view_data(d) && jj == j as int,
        Err(e) => err_matches(e, sr),
    }
}

pub open spec fn rdatas_matches(
    r: Result<(Vec<Data>, usize), RawError>,
    sr: SpR<Seq<DataV>>,
) -> bool {
    match r {
        Ok((ds, j)) => sr matches SpR::Found(dv, jj) && dv == view_datas(ds@) && jj == j as int,
        Err(e) => err_matches(e, sr),
    }
}

fn p_desc_list_more(
    s: &[u8],
    i: usize,
) -> (r: Result<(Vec<(Vec<u8>, Vec<Value>)>, usize), RawError>)
    requires
        i <= s@.len(),
    ensures
        rds_matches(r, sp_desc_list_more(s@, i as int)),
    decreases s@.len() - i, 2int,
{
    let k = p_ws(s, i);
    if k < s.len() && s[k] == 41 {
        let ds: Vec<(Vec<u8>, Vec<Value>)> = Vec::new();
        proof {
            assert(view_descs(ds@) =~= Seq::<(Seq<u8>, Seq<ValueV>)>::empty());
        }
        return Ok((ds, k));
    }
    match p_desc(s, k) {
        Ok((d, j)) => {
            proof {
                lemma_sp_desc_range(s@, k as int);
            }
            match p_desc_list_more(s, j) {
                Ok((ds, j2)) => {
                    let mut ds = ds;
                    let ghost oldds = ds@;
                    ds.insert(0, d);
                    proof {
                        lemma_view_descs_prepend(d, oldds);
                    }
                    Ok((ds, j2))
                },
                Err(e) => Err(e),
            }
        },
        Err(e) => Err(e),
    }
}

fn p_desc_list(s: &[u8], i: usize) -> (r: Result<(Vec<(Vec<u8>, Vec<Value>)>, usize), RawError>)
    requires
        i <= s@.len(),
    ensures
        rds_matches(r, sp_desc_list(s@, i as int)),
{
    match p_desc(s, i) {
        Ok((d, j)) => {
            proof {
                lemma_sp_desc_range(s@, i as int);
            }
            match p_desc_list_more(s, j) {
                Ok((ds, j2)) => {
                    let mut ds = ds;
                    let ghost oldds = ds@;
                    ds.insert(0, d);
                    proof {
                        lemma_view_descs_prepend(d, oldds);
                    }
                    Ok((ds, j2))
                },
                Err(e) => Err(e),
            }
        },
        Err(e) => Err(e),
    }
}

fn p_dataline(s: &[u8], i: usize) -> (r: Result<(Data, usize), RawError>)
    requires
        i <= s@.len(),
    ensures
        rdata_matches(r, sp_dataline(s@, i as int)),
{
    let k = p_ws(s, i);
    if !(k < s.len() && s[k] == 35) {
        return Err(RawError::Fail(k));
    }
    let d1 = p_digits_end(s, k + 1);
    if d1 == k + 1 {
        return Err(RawError::Fail(d1));
    }
    proof {
        lemma_sp_digits_end_digits(s@, k as int + 1);
        assert((0 as nat) * pow10((d1 - (k + 1)) as nat) == 0) by (nonlinear_arith);
    }
    let id: u64 = match p_dig_val_acc(s, k + 1, d1, 0) {
        None => {
            return Err(RawError::Internal);
        },
        Some(v) => v,
    };
    let k2 = p_ws(s, d1);
    if !(k2 < s.len() && s[k2] == 61) {
        return Err(RawError::Fail(k2));
    }
    let k3 = p_ws(s, k2 + 1);
    if k3 < s.len() && s[k3] == 40 {
        match p_desc_list(s, k3 + 1) {
            Ok((ds, j)) => {
                proof {
                    lemma_sp_desc_list_range(s@, k3 as int + 1);
                }
                let k4 = p_ws(s, j);
                if !(k4 < s.len() && s[k4] == 41) {
                    return Err(RawError::Fail(k4));
                }
                let k5 = p_ws(s, k4 + 1);
                if k5 < s.len() && s[k5] == 59 {
                    Ok((Data::Aggregate(id, ds), k5 + 1))
                } else {
                    Err(RawError::Fail(k5))
                }
            },
            Err(e) => Err(e),
        }
    } else {
        match p_desc(s, k3) {
            Ok((d, j)) => {
                proof {
                    lemma_sp_desc_range(s@, k3 as int);
                }
                let k4 = p_ws(s, j);
                if k4 < s.len() && s[k4] == 59 {
                    Ok((Data::Single(id, d.0, d.1), k4 + 1))
                } else {
                    Err(RawError::Fail(k4))
                }
            },
            Err(e) => Err(e),
        }
    }
}

} // verus!

verus! {

fn lit_endsec_vec() -> (v: Vec<u8>)
    ensures
        v@ == lit_endsec(),
{
    let mut v: Vec<u8> = Vec::new();
    v.push(69);
    v.push(78);
    v.push(68);
    v.push(83);
    v.push(69);
    v.push(67);
    v.push(59);
    proof {
        assert(v@ =~= lit_endsec());
    }
    v
}

fn lit_iso_vec() -> (v: Vec<u8>)
    ensures
        v@ == lit_iso(),
{
    let mut v: Vec<u8> = Vec::new();
    v.push(73);
    v.push(83);
    v.push(79);
    v.push(45);
    v.push(49);
    v.push(48);
    v.push(51);
    v.push(48);
    v.push(51);
    v.push(45);
    v.push(50);
    v.push(49);
    v.push(59);
    proof {
        assert(v@ =~= lit_iso());
    }
    v
}

fn lit_header_vec() -> (v: Vec<u8>)
    ensures
        v@ == lit_header(),
{
    let mut v: Vec<u8> = Vec::new();
    v.push(72);
    v.push(69);
    v.push(65);
    v.push(68);
    v.push(69);
    v.push(82);
    v.push(59);
    proof {
        assert(v@ =~= lit_header());
    }
    v
}

fn lit_data_vec() -> (v: Vec<u8>)
    ensures
        v@ == lit_data(),
{
    let mut v: Vec<u8> = Vec::new();
    v.push(68);
    v.push(65);
    v.push(84);
    v.push(65);
    v.push(59);
    proof {
        assert(v@ =~= lit_data());
    }
    v
}

fn lit_end_iso_vec() -> (v: Vec<u8>)
    ensures
        v@ == lit_end_iso(),
{
    let mut v: Vec<u8> = Vec::new();
    v.push(69);
    v.push(78);
    v.push(68);
    v.push(45);
    v.push(73);
    v.push(83);
    v.push(79);
    v.push(45);
    v.push(49);
    v.push(48);
    v.push(51);
    v.push(48);
    v.push(51);
    v.push(45);
    v.push(50);
    v.push(49);
    v.push(59);
    proof {
        assert(v@ =~= lit_end_iso());
    }
    v
}

/// Does the literal `lit` stand at `i` in `s`?
fn p_lit(s: &[u8], i: usize, lit: &Vec<u8>) -> (r: bool)
    requires
        i <= s@.len(),
    ensures
        r == sp_lit(s@, i as int, lit@),
{
    let n = s.len();
    if n - i < lit.len() {
        return false;
    }
    let mut k: usize = 0;
    while k < lit.len()
        invariant
            0 <= k <= lit@.len(),
            i + lit@.len() <= s@.len(),
            n == s@.len(),
            forall|t: int| 0 <= t < k ==> s@[i + t] == lit@[t],
        decreases lit@.len() - k,
    {
        if s[i + k] != lit[k] {
            return false;
        }
        k = k + 1;
    }
    true
}

pub proof fn lemma_sp_data_lines_range(s: Seq<u8>, i: int)
    requires
        0 <= i <= s.len(),
    ensures
        r_in_range(sp_data_lines(s, i), i, s.len() as int, false),
    decreases s.len() - i,
{
    lemma_sp_ws_range(s, i);
    let k = sp_ws(s, i);
    if k >= i {
        if k < s.len() && s[k] == 35 {
            lemma_sp_dataline_range(s, i);
            match sp_dataline(s, i) {
                SpR::Found(d, j) => {
                    if i < j <= s.len() {
                        lemma_sp_data_lines_range(s, j);
                    }
                },
                _ => {},
            }
        }
    }
}

pub proof fn lemma_sp_header_descs_range(s: Seq<u8>, i: int)
    requires
        0 <= i <= s.len(),
    ensures
        r_in_range(sp_header_descs(s, i), i, s.len() as int, false),
    decreases s.len() - i,
{
    lemma_sp_ws_range(s, i);
    let k = sp_ws(s, i);
    if k >= i && !sp_lit(s, k, lit_endsec()) {
        lemma_sp_desc_range(s, i);
        match sp_desc(s, i) {
            SpR::Found(d, j) => {
                if i < j <= s.len() {
                    lemma_sp_ws_range(s, j);
                    let k2 = sp_ws(s, j);
                    if k2 >= j && k2 < s.len() && s[k2] == 59 {
                        lemma_sp_header_descs_range(s, k2 + 1);
                    }
                }
            },
            _ => {},
        }
    }
}

pub proof fn lemma_sp_step_range(s: Seq<u8>)
    ensures
        r_in_range(sp_step(s), 0, s.len() as int, false),
{
    lemma_sp_ws_range(s, 0);
    let i0 = sp_ws(s, 0);
    if sp_lit(s, i0, lit_iso()) {
        lemma_sp_ws_range(s, i0 + lit_iso().len());
        let i1 = sp_ws(s, i0 + lit_iso().len());
        if sp_lit(s, i1, lit_header()) {
            lemma_sp_header_descs_range(s, i1 + lit_header().len());
            match sp_header_descs(s, i1 + lit_header().len()) {
                SpR::Found(hs, j) => {
                    if 0 <= j <= s.len() {
                        lemma_sp_ws_range(s, j);
                        let i2 = sp_ws(s, j);
                        if sp_lit(s, i2, lit_data()) {
                            lemma_sp_data_lines_range(s, i2 + lit_data().len());
                            match sp_data_lines(s, i2 + lit_data().len()) {
                                SpR::Found(ds, j2) => {
                                    if 0 <= j2 <= s.len() {
                                        lemma_sp_ws_range(s, j2);
                                        let i3 = sp_ws(s, j2);
                                        if sp_lit(s, i3, lit_end_iso()) {
                                            lemma_sp_ws_range(s, i3 + lit_end_iso().len());
                                        }
                                    }
                                },
                                _ => {},
                            }
                        }
                    }
                },
                _ => {},
            }
        }
    }
}

fn p_data_lines(s: &[u8], i: usize) -> (r: Result<(Vec<Data>, usize), RawError>)
    requires
        i <= s@.len(),
    ensures
        rdatas_matches(r, sp_data_lines(s@, i as int)),
    decreases s@.len() - i,
{
    let k = p_ws(s, i);
    if k < s.len() && s[k] == 35 {
        match p_dataline(s, i) {
            Ok((d, j)) => {
                proof {
                    lemma_sp_dataline_range(s@, i as int);
                }
                match p_data_lines(s, j) {
                    Ok((ds, j2)) => {
                        let mut ds = ds;
                        let ghost oldds = ds@;
                        ds.insert(0, d);
                        proof {
                            lemma_view_datas_prepend(d, oldds);
                        }
                        Ok((ds, j2))
                    },
                    Err(e) => Err(e),
                }
            },
            Err(e) => Err(e),
        }
    } else {
        let n = s.len();
        let endsec = lit_endsec_vec();
        if p_lit(s, k, &endsec) {
            let ds: Vec<Data> = Vec::new();
            proof {
                assert(k + 7 <= n);
                assert(view_datas(ds@) =~= Seq::<DataV>::empty());
            }
            Ok((ds, k + 7))
        } else {
            Err(RawError::Fail(k))
        }
    }
}

fn p_header_descs(
    s: &[u8],
    i: usize,
) -> (r: Result<(Vec<(Vec<u8>, Vec<Value>)>, usize), RawError>)
    requires
        i <= s@.len(),
    ensures
        rds_matches(r, sp_header_descs(s@, i as int)),
    decreases s@.len() - i,
{
    let n = s.len();
    let k = p_ws(s, i);
    let endsec = lit_endsec_vec();
    if p_lit(s, k, &endsec) {
        let ds: Vec<(Vec<u8>, Vec<Value>)> = Vec::new();
        proof {
            assert(k + 7 <= n);
            assert(view_descs(ds@) =~= Seq::<(Seq<u8>, Seq<ValueV>)>::empty());
        }
        return Ok((ds, k + 7));
    }
    match p_desc(s, i) {
        Ok((d, j)) => {
            proof {
                lemma_sp_desc_range(s@, i as int);
            }
            let k2 = p_ws(s, j);
            if !(k2 < s.len() && s[k2] == 59) {
                return Err(RawError::Fail(k2));
            }
            match p_header_descs(s, k2 + 1) {
                Ok((ds, j2)) => {
                    let mut ds = ds;
                    let ghost oldds = ds@;
                    ds.insert(0, d);
                    proof {
                        lemma_view_descs_prepend(d, oldds);
                    }
                    Ok((ds, j2))
                },
                Err(e) => Err(e),
            }
        },
        Err(e) => Err(e),
    }
}

} // verus!

verus! {

// ---------------------------------------------------------------------------
// Public entry points.  Raw byte positions of a failure are turned into
// 1-based line and column pairs here.
// ---------------------------------------------------------------------------

fn line_col(s: &[u8], p: usize) -> (r: (usize, usize))
    requires
        p <= s@.len(),
        s@.len() < usize::MAX,
    ensures
        r.0 as int == sp_line(s@, p as int),
        r.1 as int == sp_col(s@, p as int),
{
    let mut line: usize = 1;
    let mut col: usize = 1;
    let mut k: usize = 0;
    while k < p
        invariant
            0 <= k <= p <= s@.len(),
            s@.len() < usize::MAX,
            line as int == sp_line(s@, k as int),
            col as int == sp_col(s@, k as int),
            line <= k + 1,
            col <= k + 1,
        decreases p - k,
    {
        if s[k] == 10 {
            line = line + 1;
            col = 1;
        } else {
            col = col + 1;
        }
        k = k + 1;
    }
    (line, col)
}

/// Does `r` report, with line and column pairs, the failure that `sr`
/// holds as raw positions?
pub open spec fn res_err_matches<T>(r: PreprocessError, b: Seq<u8>, sr: SpR<T>) -> bool {
    match sr {
        SpR::Found(_, _) => false,
        SpR::Fail(p) => (r matches PreprocessError::Fail(PreprocessErrorInfo::LineCol(lc))
            && lc.0 as int == sp_line(b, p) && lc.1 as int == sp_col(b, p)),
        SpR::FailSpan(p, q) => (r matches PreprocessError::Fail(
            PreprocessErrorInfo::Span(lc1, lc2),
        ) && lc1.0 as int == sp_line(b, p) && lc1.1 as int == sp_col(b, p) && lc2.0 as int
            == sp_line(b, q) && lc2.1 as int == sp_col(b, q)),
        SpR::Internal => r == PreprocessError::InternalError,
    }
}

fn raw_to_err(s: &[u8], e: RawError) -> (r: PreprocessError)
    requires
        s@.len() < usize::MAX,
        e matches RawError::Fail(p) ==> p <= s@.len(),
        e matches RawError::FailSpan(p, q) ==> p <= s@.len() && q <= s@.len(),
    ensures
        match e {
            RawError::Fail(p) => (r matches PreprocessError::Fail(
                PreprocessErrorInfo::LineCol(lc),
            ) && lc.0 as int == sp_line(s@, p as int) && lc.1 as int == sp_col(s@, p as int)),
            RawError::FailSpan(p, q) => (r matches PreprocessError::Fail(
                PreprocessErrorInfo::Span(lc1, lc2),
            ) && lc1.0 as int == sp_line(s@, p as int) && lc1.1 as int == sp_col(s@, p as int)
                && lc2.0 as int == sp_line(s@, q as int) && lc2.1 as int == sp_col(
                s@,
                q as int,
            )),
            RawError::Internal => r == PreprocessError::InternalError,
        },
{
    match e {
        RawError::Fail(p) => PreprocessError::Fail(PreprocessErrorInfo::LineCol(line_col(s, p))),
        RawError::FailSpan(p, q) => PreprocessError::Fail(
            PreprocessErrorInfo::Span(line_col(s, p), line_col(s, q)),
        ),
        RawError::Internal => PreprocessError::InternalError,
    }
}

pub open spec fn rstep_matches(r: Result<(Step, usize), RawError>, sr: SpR<StepV>) -> bool {
    match r {
        Ok((st, j)) => sr matches SpR::Found(sv, jj) && sv == st@ && jj == j as int,
        Err(e) => err_matches(e, sr),
    }
}

fn p_step(s: &[u8]) -> (r: Result<(Step, usize), RawError>)
    ensures
        rstep_matches(r, sp_step(s@)),
{
    let n = s.len();
    let i0 = p_ws(s, 0);
    let iso = lit_iso_vec();
    if !p_lit(s, i0, &iso) {
        return Err(RawError::Fail(i0));
    }
    proof {
        assert(lit_iso().len() == 13);
        assert(i0 + 13 <= n);
    }
    let i1 = p_ws(s, i0 + 13);
    let hd = lit_header_vec();
    if !p_lit(s, i1, &hd) {
        return Err(RawError::Fail(i1));
    }
    proof {
        assert(lit_header().len() == 7);
        assert(i1 + 7 <= n);
    }
    match p_header_descs(s, i1 + 7) {
        Ok((hs, j)) => {
            proof {
                lemma_sp_header_descs_range(s@, i1 as int + 7);
            }
            let i2 = p_ws(s, j);
            let dt = lit_data_vec();
            if !p_lit(s, i2, &dt) {
                return Err(RawError::Fail(i2));
            }
            proof {
                assert(lit_data().len() == 5);
                assert(i2 + 5 <= n);
            }
            match p_data_lines(s, i2 + 5) {
                Ok((ds, j2)) => {
                    proof {
                        lemma_sp_data_lines_range(s@, i2 as int + 5);
                    }
                    let i3 = p_ws(s, j2);
                    let ei = lit_end_iso_vec();
                    if !p_lit(s, i3, &ei) {
                        return Err(RawError::Fail(i3));
                    }
                    proof {
                        assert(lit_end_iso().len() == 17);
                        assert(i3 + 17 <= n);
                    }
                    let i4 = p_ws(s, i3 + 17);
                    if i4 == s.len() {
                        Ok((Step { header: hs, data: ds }, i4))
                    } else {
                        Err(RawError::Fail(i4))
                    }
                },
                Err(e) => Err(e),
            }
        },
        Err(e) => Err(e),
    }
}

/// Decodes a whole exchange file into its header records and data records.
/// The outcome, success and failure alike, is exactly what the grammar
/// (`sp_step`) says of the text.
pub open spec fn parse_res_matches(r: Result<Step, PreprocessError>, b: Seq<u8>) -> bool {
    match r {
        Ok(st) => sp_step(b) matches SpR::Found(sv, _) && sv == st@,
        Err(e) => res_err_matches(e, b, sp_step(b)),
    }
}

pub fn parse(s: &str) -> (r: Result<Step, PreprocessError>)
    ensures
        s.spec_bytes().len() < usize::MAX ==> parse_res_matches(r, s.spec_bytes()),
{
    let b = s.as_bytes();
    if b.len() == usize::MAX {
        return Err(PreprocessError::InternalError);
    }
    proof {
        lemma_sp_step_range(b@);
    }
    match p_step(b) {
        Ok((st, _)) => Ok(st),
        Err(e) => Err(raw_to_err(b, e)),
    }
}

/// A single value with nothing but whitespace after it.
pub open spec fn sp_value_text(b: Seq<u8>) -> SpR<ValueV> {
    match sp_value(b, 0) {
        SpR::Found(v, j) => {
            if 0 <= j <= b.len() {
                if sp_ws(b, j) == b.len() {
                    SpR::Found(v, b.len() as int)
                } else {
                    SpR::Fail(sp_ws(b, j))
                }
            } else {
                SpR::Fail(j)
            }
        },
        SpR::Fail(p) => SpR::Fail(p),
        SpR::FailSpan(p, q) => SpR::FailSpan(p, q),
        SpR::Internal => SpR::Internal,
    }
}

pub open spec fn parse_value_res_matches(r: Result<Value, PreprocessError>, b: Seq<u8>) -> bool {
    match r {
        Ok(v) => sp_value_text(b) matches SpR::Found(vv, _) && vv == v@,
        Err(e) => res_err_matches(e, b, sp_value_text(b)),
    }
}

/// Decodes one value literal standing alone in `s`.
pub fn parse_value_text(s: &str) -> (r: Result<Value, PreprocessError>)
    ensures
        s.spec_bytes().len() < usize::MAX ==> parse_value_res_matches(r, s.spec_bytes()),
{
    let b = s.as_bytes();
    if b.len() == usize::MAX {
        return Err(PreprocessError::InternalError);
    }
    proof {
        lemma_sp_value_range(b@, 0);
    }
    match p_value(b, 0) {
        Ok((v, j)) => {
            let k = p_ws(b, j);
            if k == b.len() {
                Ok(v)
            } else {
                Err(raw_to_err(b, RawError::Fail(k)))
            }
        },
        Err(e) => Err(raw_to_err(b, e)),
    }
}

/// A data section (`DATA; ... ENDSEC;`) standing alone in the text.
pub open spec fn sp_data_text(b: Seq<u8>) -> SpR<Seq<DataV>> {
    let k = sp_ws(b, 0);
    if !sp_lit(b, k, lit_data()) {
        SpR::Fail(k)
    } else {
        match sp_data_lines(b, k + lit_data().len()) {
            SpR::Found(ds, j) => {
                if 0 <= j <= b.len() {
                    if sp_ws(b, j) == b.len() {
                        SpR::Found(ds, b.len() as int)
                    } else {
                        SpR::Fail(sp_ws(b, j))
                    }
                } else {
                    SpR::Fail(j)
                }
            },
            SpR::Fail(p) => SpR::Fail(p),
            SpR::FailSpan(p, q) => SpR::FailSpan(p, q),
            SpR::Internal => SpR::Internal,
        }
    }
}

pub open spec fn parse_data_res_matches(
    r: Result<Vec<Data>, PreprocessError>,
    b: Seq<u8>,
) -> bool {
    match r {
        Ok(ds) => sp_data_text(b) matches SpR::Found(dv, _) && dv == view_datas(ds@),
        Err(e) => res_err_matches(e, b, sp_data_text(b)),
    }
}

/// Decodes a data section standing alone in `s`.
pub fn parse_data_text(s: &str) -> (r: Result<Vec<Data>, PreprocessError>)
    ensures
        s.spec_bytes().len() < usize::MAX ==> parse_data_res_matches(r, s.spec_bytes()),
{
    let b = s.as_bytes();
    if b.len() == usize::MAX {
        return Err(PreprocessError::InternalError);
    }
    let k = p_ws(b, 0);
    let dt = lit_data_vec();
    if !p_lit(b, k, &dt) {
        return Err(raw_to_err(b, RawError::Fail(k)));
    }
    proof {
        assert(lit_data().len() == 5);
        assert(k + 5 <= b@.len());
    }
    match p_data_lines(b, k + 5) {
        Ok((ds, j)) => {
            proof {
                lemma_sp_data_lines_range(b@, k as int + 5);
            }
            let k2 = p_ws(b, j);
            if k2 == b.len() {
                Ok(ds)
            } else {
                Err(raw_to_err(b, RawError::Fail(k2)))
            }
        },
        Err(e) => {
            proof {
                lemma_sp_data_lines_range(b@, k as int + 5);
            }
            Err(raw_to_err(b, e))
        },
    }
}

} // verus!

verus! {

impl Value {
    /// The string contents, where this value is a string.
    pub fn str(&self) -> (r: Option<&Vec<u8>>)
        ensures
            match r {
                Some(s) => self@ matches ValueV::String(b) && b == s@,
                None => !(self@ is String),
            },
    {
        match self {
            Value::String(s) => Some(s),
            _ => None,
        }
    }

    /// The members, where this value is a tuple.
    pub fn tuple(&self) -> (r: Option<&Vec<Value>>)
        ensures
            match r {
                Some(ts) => self@ matches ValueV::Tuple(tv) && tv == view_values(ts@),
                None => !(self@ is Tuple),
            },
    {
        match self {
            Value::Tuple(ts) => Some(ts),
            _ => None,
        }
    }

    /// The referenced record id, where this value is a reference.
    pub fn id(&self) -> (r: Option<&u64>)
        ensures
            match r {
                Some(n) => self@ matches ValueV::Id(nv) && nv == *n,
                None => !(self@ is Id),
            },
    {
        match self {
            Value::Id(n) => Some(n),
            _ => None,
        }
    }

    /// The truth value, where this value is a boolean.
    pub fn boolean(&self) -> (r: Option<&bool>)
        ensures
            match r {
                Some(b) => self@ matches ValueV::Bool(bv) && bv == *b,
                None => !(self@ is Bool),
            },
    {
        match self {
            Value::Bool(b) => Some(b),
            _ => None,
        }
    }

    /// The decimal, where this value is a real literal.
    pub fn float(&self) -> (r: Option<&Dec>)
        ensures
            match r {
                Some(d) => self@ matches ValueV::Float(dv) && dv == *d,
                None => !(self@ is Float),
            },
    {
        match self {
            Value::Float(d) => Some(d),
            _ => None,
        }
    }
}

} // verus!
