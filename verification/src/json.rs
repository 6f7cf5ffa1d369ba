//! A small verified JSON codec over raw bytes.
//!
//! The event log, the VM's captured test output and the persisted reports are
//! all line- or file-sized JSON texts whose exact shape this library owns, so
//! encoding and decoding are implemented and verified here rather than taken
//! on trust. The encoder emits compact JSON; the decoder tolerates blank
//! space between tokens, `\/` escapes and `\u00xx` escapes for code points
//! below 128, and rejects anything else (a rejected line is skipped by the
//! callers, never fatal).
//!
//! Strings are treated as byte sequences: multi-byte UTF-8 content passes
//! through both directions unchanged.

use vstd::prelude::*;

verus! {

pub const QUOTE: u8 = 34;

pub const BSLASH: u8 = 92;

pub const LBRACE: u8 = 123;

pub const RBRACE: u8 = 125;

pub const LBRACK: u8 = 91;

pub const RBRACK: u8 = 93;

pub const COLON: u8 = 58;

pub const COMMA: u8 = 44;

// ---------------------------------------------------------------------------
// Encoding: spec level
// ---------------------------------------------------------------------------
/// Decimal digits of `n`, most significant first.
pub open spec fn enc_u64(n: u64) -> Seq<u8>
    decreases n,
{
    if n < 10 {
        seq![(48 + n) as u8]
    } else {
        enc_u64((n / 10) as u64) + seq![(48 + n % 10) as u8]
    }
}

/// Lower-case hexadecimal digit for `n < 16`.
pub open spec fn hex_digit(n: u8) -> u8 {
    if n < 10 {
        (48 + n) as u8
    } else {
        (87 + n) as u8
    }
}

/// How one byte of string content is written inside a JSON string.
pub open spec fn esc_byte(b: u8) -> Seq<u8> {
    if b == QUOTE {
        seq![BSLASH, QUOTE]
    } else if b == BSLASH {
        seq![BSLASH, BSLASH]
    } else if b == 8 {
        seq![BSLASH, 98u8]
    } else if b == 12 {
        seq![BSLASH, 102u8]
    } else if b == 10 {
        seq![BSLASH, 110u8]
    } else if b == 13 {
        seq![BSLASH, 114u8]
    } else if b == 9 {
        seq![BSLASH, 116u8]
    } else if b < 32 {
        seq![BSLASH, 117u8, 48u8, 48u8, hex_digit(b / 16), hex_digit(b % 16)]
    } else {
        seq![b]
    }
}

/// The escaped form of a whole string body.
pub open spec fn esc_bytes(s: Seq<u8>) -> Seq<u8>
    decreases s.len(),
{
    if s.len() == 0 {
        Seq::empty()
    } else {
        esc_byte(s[0]) + esc_bytes(s.skip(1))
    }
}

/// A JSON string token: quote, escaped body, quote.
pub open spec fn enc_str(s: Seq<u8>) -> Seq<u8> {
    seq![QUOTE] + esc_bytes(s) + seq![QUOTE]
}

pub proof fn lemma_esc_bytes_concat(a: Seq<u8>, b: Seq<u8>)
    ensures
        esc_bytes(a + b) == esc_bytes(a) + esc_bytes(b),
    decreases a.len(),
{
    if a.len() == 0 {
        assert(a + b =~= b);
        assert(esc_bytes(a) + esc_bytes(b) =~= esc_bytes(b));
    } else {
        assert((a + b).skip(1) =~= a.skip(1) + b);
        lemma_esc_bytes_concat(a.skip(1), b);
        assert(esc_byte((a + b)[0]) + (esc_bytes(a.skip(1)) + esc_bytes(b)) =~= (esc_byte(a[0])
            + esc_bytes(a.skip(1))) + esc_bytes(b));
    }
}

pub proof fn lemma_esc_bytes_snoc(s: Seq<u8>, i: int)
    requires
        0 <= i < s.len(),
    ensures
        esc_bytes(s.subrange(0, i + 1)) == esc_bytes(s.subrange(0, i)) + esc_byte(s[i]),
{
    assert(s.subrange(0, i + 1) =~= s.subrange(0, i) + seq![s[i]]);
    lemma_esc_bytes_concat(s.subrange(0, i), seq![s[i]]);
    assert(seq![s[i]].skip(1) =~= Seq::<u8>::empty());
    assert(esc_bytes(seq![s[i]]) =~= esc_byte(s[i]) + esc_bytes(Seq::<u8>::empty()));
    assert(esc_bytes(seq![s[i]]) =~= esc_byte(s[i]));
}

// ---------------------------------------------------------------------------
// Encoding: executable level
// ---------------------------------------------------------------------------
/// Append the decimal digits of `n` to `out`.
pub fn write_u64(out: &mut Vec<u8>, n: u64)
    ensures
        final(out)@ == old(out)@ + enc_u64(n),
    decreases n,
{
    if n < 10 {
        out.push((48 + n) as u8);
        assert(final(out)@ =~= old(out)@ + enc_u64(n));
    } else {
        write_u64(out, n / 10);
        out.push((48 + n % 10) as u8);
        assert(final(out)@ =~= old(out)@ + enc_u64(n));
    }
}

fn hex_digit_exec(n: u8) -> (r: u8)
    requires
        n < 16,
    ensures
        r == hex_digit(n),
{
    if n < 10 {
        48 + n
    } else {
        87 + n
    }
}

/// Append the JSON string token for `s` to `out`.
pub fn write_str(out: &mut Vec<u8>, s: &Vec<u8>)
    ensures
        final(out)@ == old(out)@ + enc_str(s@),
{
    let ghost prefix: Seq<u8> = out@;
    out.push(QUOTE);
    let mut i: usize = 0;
    while i < s.len()
        invariant
            i <= s@.len(),
            out@ == prefix + seq![QUOTE] + esc_bytes(s@.subrange(0, i as int)),
        decreases s@.len() - i,
    {
        let b = s[i];
        proof {
            lemma_esc_bytes_snoc(s@, i as int);
        }
        if b == QUOTE {
            out.push(BSLASH);
            out.push(QUOTE);
        } else if b == BSLASH {
            out.push(BSLASH);
            out.push(BSLASH);
        } else if b == 8 {
            out.push(BSLASH);
            out.push(98);
        } else if b == 12 {
            out.push(BSLASH);
            out.push(102);
        } else if b == 10 {
            out.push(BSLASH);
            out.push(110);
        } else if b == 13 {
            out.push(BSLASH);
            out.push(114);
        } else if b == 9 {
            out.push(BSLASH);
            out.push(116);
        } else if b < 32 {
            out.push(BSLASH);
            out.push(117);
            out.push(48);
            out.push(48);
            out.push(hex_digit_exec(b / 16));
            out.push(hex_digit_exec(b % 16));
        } else {
            out.push(b);
        }
        i = i + 1;
        assert(out@ =~= prefix + seq![QUOTE] + esc_bytes(s@.subrange(0, i as int)));
    }
    out.push(QUOTE);
    assert(s@.subrange(0, s@.len() as int) =~= s@);
    assert(final(out)@ =~= prefix + enc_str(s@));
}

// ---------------------------------------------------------------------------
// Scalar values
// ---------------------------------------------------------------------------
/// A scalar JSON value, as it appears in the flat wire records.
pub enum JsonScalar {
    Null,
    Bool(bool),
    UInt(u64),
    Str(Vec<u8>),
}

/// Mathematical model of a scalar JSON value.
pub enum ScalarV {
    Null,
    Bool(bool),
    UInt(u64),
    Str(Seq<u8>),
}

impl View for JsonScalar {
    type V = ScalarV;

    open spec fn view(&self) -> ScalarV {
        match self {
            JsonScalar::Null => ScalarV::Null,
            JsonScalar::Bool(b) => ScalarV::Bool(*b),
            JsonScalar::UInt(n) => ScalarV::UInt(*n),
            JsonScalar::Str(s) => ScalarV::Str(s@),
        }
    }
}

pub open spec fn lit_true() -> Seq<u8> {
    seq![116u8, 114u8, 117u8, 101u8]
}

pub open spec fn lit_false() -> Seq<u8> {
    seq![102u8, 97u8, 108u8, 115u8, 101u8]
}

pub open spec fn lit_null() -> Seq<u8> {
    seq![110u8, 117u8, 108u8, 108u8]
}

/// How a scalar is written.
pub open spec fn enc_scalar(v: ScalarV) -> Seq<u8> {
    match v {
        ScalarV::Null => lit_null(),
        ScalarV::Bool(b) => if b {
            lit_true()
        } else {
            lit_false()
        },
        ScalarV::UInt(n) => enc_u64(n),
        ScalarV::Str(s) => enc_str(s),
    }
}

/// Append the token for scalar `v` to `out`.
pub fn write_scalar(out: &mut Vec<u8>, v: &JsonScalar)
    ensures
        final(out)@ == old(out)@ + enc_scalar(v@),
{
    match v {
        JsonScalar::Null => {
            out.push(110);
            out.push(117);
            out.push(108);
            out.push(108);
            assert(final(out)@ =~= old(out)@ + lit_null());
        },
        JsonScalar::Bool(b) => {
            if *b {
                out.push(116);
                out.push(114);
                out.push(117);
                out.push(101);
                assert(final(out)@ =~= old(out)@ + lit_true());
            } else {
                out.push(102);
                out.push(97);
                out.push(108);
                out.push(115);
                out.push(101);
                assert(final(out)@ =~= old(out)@ + lit_false());
            }
        },
        JsonScalar::UInt(n) => {
            write_u64(out, *n);
        },
        JsonScalar::Str(s) => {
            write_str(out, s);
        },
    }
}

// ---------------------------------------------------------------------------
// Parsing: spec level
// ---------------------------------------------------------------------------
pub open spec fn is_ws(b: u8) -> bool {
    b == 32 || b == 9 || b == 10 || b == 13
}

pub open spec fn is_digit(b: u8) -> bool {
    48 <= b <= 57
}

pub open spec fn is_hex(b: u8) -> bool {
    is_digit(b) || (97 <= b <= 102) || (65 <= b <= 70)
}

/// Numeric value of one hexadecimal digit byte.
pub open spec fn hex_val(b: u8) -> u8 {
    if is_digit(b) {
        (b - 48) as u8
    } else if 97 <= b <= 102 {
        (b - 87) as u8
    } else {
        (b - 55) as u8
    }
}

/// Index of the first byte at or after `i` that is not blank space.
pub open spec fn skip_ws(s: Seq<u8>, i: int) -> int
    decreases s.len() - i,
{
    if 0 <= i < s.len() && is_ws(s[i]) {
        skip_ws(s, i + 1)
    } else {
        i
    }
}


/// Index of the first byte at or after `i` that is not a decimal digit.
pub open spec fn digit_end(s: Seq<u8>, i: int) -> int
    decreases s.len() - i,
{
    if 0 <= i < s.len() && is_digit(s[i]) {
        digit_end(s, i + 1)
    } else {
        i
    }
}


/// Value of a digit string, most significant digit first.
pub open spec fn digits_val(ds: Seq<u8>) -> int
    decreases ds.len(),
{
    if ds.len() == 0 {
        0
    } else {
        digits_val(ds.drop_last()) * 10 + (ds.last() - 48)
    }
}

/// Parse an unsigned decimal number at `i`: the digit span must be non-empty
/// and its value must fit in a `u64`.
pub open spec fn parse_u64_at(s: Seq<u8>, i: int) -> Option<(u64, int)> {
    let j = digit_end(s, i);
    if j == i {
        None
    } else {
        let v = digits_val(s.subrange(i, j));
        if v > u64::MAX {
            None
        } else {
            Some((v as u64, j))
        }
    }
}

/// Parse the remainder of a string token (after the opening quote): the
/// decoded content bytes and the index just past the closing quote.
pub open spec fn parse_str_rest(s: Seq<u8>, i: int) -> Option<(Seq<u8>, int)>
    decreases s.len() - i,
{
    if !(0 <= i < s.len()) {
        None
    } else if s[i] == QUOTE {
        Some((Seq::empty(), i + 1))
    } else if s[i] == BSLASH {
        if i + 1 < s.len() {
            let c = s[i + 1];
            if c == 117 {
                // \u00xx, accepted for code points below 128 only
                if i + 5 < s.len() && is_hex(s[i + 2]) && is_hex(s[i + 3]) && is_hex(s[i + 4])
                    && is_hex(s[i + 5]) {
                    let v = hex_val(s[i + 2]) * 4096 + hex_val(s[i + 3]) * 256 + hex_val(s[i + 4])
                        * 16 + hex_val(s[i + 5]);
                    if v < 128 {
                        match parse_str_rest(s, i + 6) {
                            Some((t, j)) => Some((seq![v as u8] + t, j)),
                            None => None,
                        }
                    } else {
                        None
                    }
                } else {
                    None
                }
            } else {
                match unesc_char(c) {
                    Some(b) => match parse_str_rest(s, i + 2) {
                        Some((t, j)) => Some((seq![b] + t, j)),
                        None => None,
                    },
                    None => None,
                }
            }
        } else {
            None
        }
    } else {
        match parse_str_rest(s, i + 1) {
            Some((t, j)) => Some((seq![s[i]] + t, j)),
            None => None,
        }
    }
}

/// The byte that a single-character escape stands for, if it is one.
pub open spec fn unesc_char(c: u8) -> Option<u8> {
    if c == QUOTE {
        Some(QUOTE)
    } else if c == BSLASH {
        Some(BSLASH)
    } else if c == 47 {
        Some(47u8)
    } else if c == 98 {
        Some(8u8)
    } else if c == 102 {
        Some(12u8)
    } else if c == 110 {
        Some(10u8)
    } else if c == 114 {
        Some(13u8)
    } else if c == 116 {
        Some(9u8)
    } else {
        None
    }
}

/// Parse a whole string token at `i` (opening quote included).
pub open spec fn parse_string_at(s: Seq<u8>, i: int) -> Option<(Seq<u8>, int)> {
    if 0 <= i < s.len() && s[i] == QUOTE {
        parse_str_rest(s, i + 1)
    } else {
        None
    }
}

/// Is the literal `lit` present at index `i` of `s`?
pub open spec fn is_at(s: Seq<u8>, i: int, lit: Seq<u8>) -> bool {
    0 <= i && i + lit.len() <= s.len() && s.subrange(i, i + lit.len()) == lit
}

/// Parse one scalar token at `i` (no leading blank space).
pub open spec fn parse_scalar_at(s: Seq<u8>, i: int) -> Option<(ScalarV, int)> {
    if !(0 <= i < s.len()) {
        None
    } else if s[i] == QUOTE {
        match parse_string_at(s, i) {
            Some((t, j)) => Some((ScalarV::Str(t), j)),
            None => None,
        }
    } else if is_digit(s[i]) {
        match parse_u64_at(s, i) {
            Some((n, j)) => Some((ScalarV::UInt(n), j)),
            None => None,
        }
    } else if s[i] == 116 {
        if is_at(s, i, lit_true()) {
            Some((ScalarV::Bool(true), i + 4))
        } else {
            None
        }
    } else if s[i] == 102 {
        if is_at(s, i, lit_false()) {
            Some((ScalarV::Bool(false), i + 5))
        } else {
            None
        }
    } else if s[i] == 110 {
        if is_at(s, i, lit_null()) {
            Some((ScalarV::Null, i + 4))
        } else {
            None
        }
    } else {
        None
    }
}

/// Parse the members of a flat object, starting at a key (blank space already
/// skipped), up to and including the closing brace.
pub open spec fn parse_members(s: Seq<u8>, i: int) -> Option<(Seq<(Seq<u8>, ScalarV)>, int)>
    decreases s.len() - i,
{
    match parse_string_at(s, i) {
        Some((k, j)) => {
            let j1 = skip_ws(s, j);
            if 0 <= j1 < s.len() && s[j1] == COLON {
                let j2 = skip_ws(s, j1 + 1);
                match parse_scalar_at(s, j2) {
                    Some((v, j3)) => {
                        let j4 = skip_ws(s, j3);
                        if 0 <= j4 < s.len() && s[j4] == COMMA {
                            let j5 = skip_ws(s, j4 + 1);
                            if i < j5 <= s.len() {
                                match parse_members(s, j5) {
                                    Some((rest, j6)) => Some((seq![(k, v)] + rest, j6)),
                                    None => None,
                                }
                            } else {
                                None
                            }
                        } else if 0 <= j4 < s.len() && s[j4] == RBRACE {
                            Some((seq![(k, v)], j4 + 1))
                        } else {
                            None
                        }
                    },
                    None => None,
                }
            } else {
                None
            }
        },
        None => None,
    }
}

/// Parse a flat JSON object at `i`: returns its members in order.
pub open spec fn parse_flat_obj_at(s: Seq<u8>, i: int) -> Option<(Seq<(Seq<u8>, ScalarV)>, int)> {
    let i0 = skip_ws(s, i);
    if 0 <= i0 < s.len() && s[i0] == LBRACE {
        let i1 = skip_ws(s, i0 + 1);
        if 0 <= i1 < s.len() && s[i1] == RBRACE {
            Some((Seq::empty(), i1 + 1))
        } else {
            parse_members(s, i1)
        }
    } else {
        None
    }
}

/// Parse a whole line as a flat JSON object; trailing blank space is allowed,
/// anything else after the object is not.
pub open spec fn parse_flat_obj(s: Seq<u8>) -> Option<Seq<(Seq<u8>, ScalarV)>> {
    match parse_flat_obj_at(s, 0) {
        Some((m, j)) => if skip_ws(s, j) == s.len() {
            Some(m)
        } else {
            None
        },
        None => None,
    }
}

// ---------------------------------------------------------------------------
// Parsing: executable level
// ---------------------------------------------------------------------------
pub fn skip_ws_exec(s: &Vec<u8>, i: usize) -> (r: usize)
    requires
        i <= s@.len(),
    ensures
        r == skip_ws(s@, i as int),
        i <= r <= s@.len(),
{
    let mut cur: usize = i;
    while cur < s.len() && (s[cur] == 32 || s[cur] == 9 || s[cur] == 10 || s[cur] == 13)
        invariant
            i <= cur <= s@.len(),
            skip_ws(s@, i as int) == skip_ws(s@, cur as int),
        decreases s@.len() - cur,
    {
        cur = cur + 1;
    }
    cur
}

fn is_digit_exec(b: u8) -> (r: bool)
    ensures
        r == is_digit(b),
{
    48 <= b && b <= 57
}

fn is_hex_exec(b: u8) -> (r: bool)
    ensures
        r == is_hex(b),
{
    (48 <= b && b <= 57) || (97 <= b && b <= 102) || (65 <= b && b <= 70)
}

fn hex_val_exec(b: u8) -> (r: u8)
    requires
        is_hex(b),
    ensures
        r == hex_val(b),
{
    if 48 <= b && b <= 57 {
        b - 48
    } else if 97 <= b && b <= 102 {
        b - 87
    } else {
        b - 55
    }
}

proof fn lemma_digits_val_nonneg(ds: Seq<u8>)
    requires
        forall|k: int| 0 <= k < ds.len() ==> is_digit(ds[k]),
    ensures
        digits_val(ds) >= 0,
    decreases ds.len(),
{
    if ds.len() > 0 {
        lemma_digits_val_nonneg(ds.drop_last());
    }
}

proof fn lemma_digit_end_of(s: Seq<u8>, i: int, j: int)
    requires
        0 <= i <= j <= s.len(),
        forall|k: int| i <= k < j ==> is_digit(s[k]),
        j == s.len() || !is_digit(s[j]),
    ensures
        digit_end(s, i) == j,
    decreases j - i,
{
    if i < j {
        lemma_digit_end_of(s, i + 1, j);
    }
}

/// Parse an unsigned decimal number; `None` both when no digit is present and
/// when the value does not fit in a `u64`.
pub fn parse_u64_exec(s: &Vec<u8>, i: usize) -> (r: Option<(u64, usize)>)
    requires
        i <= s@.len(),
    ensures
        match r {
            Some((n, j)) => parse_u64_at(s@, i as int) == Some((n, j as int)) && i <= j <= s@.len(),
            None => parse_u64_at(s@, i as int) is None,
        },
{
    if i == s.len() || !is_digit_exec(s[i]) {
        proof {
            lemma_digit_end_of(s@, i as int, i as int);
        }
        return None;
    }
    let mut cur: usize = i;
    let mut acc: u64 = 0;
    let mut overflow: bool = false;
    while cur < s.len() && 48 <= s[cur] && s[cur] <= 57
        invariant
            i <= cur <= s@.len(),
            forall|k: int| (i as int) <= k < cur ==> is_digit(s@[k]),
            !overflow ==> acc as int == digits_val(s@.subrange((i as int), cur as int)),
            overflow ==> digits_val(s@.subrange((i as int), cur as int)) > u64::MAX,
        decreases s@.len() - cur,
    {
        let bc = s[cur];
        let d: u64 = (bc - 48) as u64;
        proof {
            assert(s@.subrange((i as int), cur as int + 1).drop_last() =~= s@.subrange((i as int), cur as int));
            assert(s@.subrange((i as int), cur as int + 1).last() == s@[cur as int]);
            assert(digits_val(s@.subrange((i as int), cur as int + 1)) == digits_val(
                s@.subrange((i as int), cur as int),
            ) * 10 + d);
        }
        if !overflow {
            if acc > (u64::MAX - d) / 10 {
                proof {
                    assert(acc * 10 + d > u64::MAX) by (nonlinear_arith)
                        requires
                            acc > (u64::MAX - d) / 10,
                            d <= 9,
                    ;
                }
                overflow = true;
            } else {
                proof {
                    assert(acc * 10 + d <= u64::MAX) by (nonlinear_arith)
                        requires
                            acc <= (u64::MAX - d) / 10,
                            d <= 9,
                    ;
                }
                acc = acc * 10 + d;
            }
        } else {
            proof {
                lemma_digits_val_nonneg(s@.subrange((i as int), cur as int));
                assert(digits_val(s@.subrange((i as int), cur as int + 1)) > u64::MAX) by (nonlinear_arith)
                    requires
                        digits_val(s@.subrange((i as int), cur as int + 1)) == digits_val(
                            s@.subrange((i as int), cur as int),
                        ) * 10 + d,
                        digits_val(s@.subrange((i as int), cur as int)) > u64::MAX,
                        d >= 0,
                ;
            }
        }
        cur = cur + 1;
    }
    proof {
        lemma_digit_end_of(s@, (i as int), cur as int);
    }
    if overflow {
        None
    } else {
        Some((acc, cur))
    }
}

fn unesc_char_exec(c: u8) -> (r: Option<u8>)
    ensures
        r == unesc_char(c),
{
    if c == QUOTE {
        Some(QUOTE)
    } else if c == BSLASH {
        Some(BSLASH)
    } else if c == 47 {
        Some(47)
    } else if c == 98 {
        Some(8)
    } else if c == 102 {
        Some(12)
    } else if c == 110 {
        Some(10)
    } else if c == 114 {
        Some(13)
    } else if c == 116 {
        Some(9)
    } else {
        None
    }
}

/// Relates a partially decoded string body to the whole parse: `acc` is what
/// has been decoded between `start` and `cur`.
spec fn str_rest_step(s: Seq<u8>, start: int, cur: int, acc: Seq<u8>) -> bool {
    match parse_str_rest(s, cur) {
        Some((t, j)) => parse_str_rest(s, start) == Some((acc + t, j)),
        None => parse_str_rest(s, start) is None,
    }
}

/// One decoded byte moves the relation forward by the length of its escape.
proof fn lemma_str_rest_advance(s: Seq<u8>, start: int, cur: int, acc: Seq<u8>, b: u8, step: int)
    requires
        str_rest_step(s, start, cur, acc),
        parse_str_rest(s, cur) == (match parse_str_rest(s, cur + step) {
            Some((t, j)) => Some((seq![b] + t, j)),
            None => None::<(Seq<u8>, int)>,
        }),
    ensures
        str_rest_step(s, start, cur + step, acc + seq![b]),
{
    match parse_str_rest(s, cur + step) {
        Some((t, j)) => {
            assert(acc + (seq![b] + t) =~= (acc + seq![b]) + t);
        },
        None => {
        },
    }
}

/// Parse the remainder of a string token after its opening quote.
fn parse_str_rest_exec(s: &Vec<u8>, i: usize) -> (r: Option<(Vec<u8>, usize)>)
    requires
        i <= s@.len(),
    ensures
        match r {
            Some(tj) => parse_str_rest(s@, i as int) == Some((tj.0@, tj.1 as int)) && i <= tj.1
                <= s@.len(),
            None => parse_str_rest(s@, i as int) is None,
        },
{
    let mut acc: Vec<u8> = Vec::new();
    let mut cur: usize = i;
    loop
        invariant
            i <= cur <= s@.len(),
            str_rest_step(s@, (i as int), cur as int, acc@),
        decreases s@.len() - cur,
    {
        if cur == s.len() {
            assert(parse_str_rest(s@, cur as int) is None);
            return None;
        }
        let b = s[cur];
        if b == QUOTE {
            assert(parse_str_rest(s@, cur as int) == Some((Seq::<u8>::empty(), cur as int + 1)));
            assert(acc@ + Seq::<u8>::empty() =~= acc@);
            return Some((acc, cur + 1));
        } else if b == BSLASH {
            if cur + 1 == s.len() {
                assert(parse_str_rest(s@, cur as int) is None);
                return None;
            }
            let c = s[cur + 1];
            if c == 117 {
                if s.len() - cur <= 5 {
                    assert(parse_str_rest(s@, cur as int) is None);
                    return None;
                }
                if !(is_hex_exec(s[cur + 2]) && is_hex_exec(s[cur + 3]) && is_hex_exec(s[cur + 4])
                    && is_hex_exec(s[cur + 5])) {
                    assert(parse_str_rest(s@, cur as int) is None);
                    return None;
                }
                let v: u32 = (hex_val_exec(s[cur + 2]) as u32) * 4096 + (hex_val_exec(
                    s[cur + 3],
                ) as u32) * 256 + (hex_val_exec(s[cur + 4]) as u32) * 16 + (hex_val_exec(
                    s[cur + 5],
                ) as u32);
                if v >= 128 {
                    assert(parse_str_rest(s@, cur as int) is None);
                    return None;
                }
                let ghost acc0 = acc@;
                proof {
                    assert(parse_str_rest(s@, cur as int) == (match parse_str_rest(
                        s@,
                        cur as int + 6,
                    ) {
                        Some((t, j)) => Some((seq![v as u8] + t, j)),
                        None => None::<(Seq<u8>, int)>,
                    }));
                    lemma_str_rest_advance(s@, i as int, cur as int, acc0, v as u8, 6);
                }
                acc.push(v as u8);
                assert(acc@ =~= acc0 + seq![v as u8]);
                cur = cur + 6;
            } else {
                let ub = unesc_char_exec(c);
                match ub {
                    Some(b2) => {
                        let ghost acc0 = acc@;
                        proof {
                            assert(parse_str_rest(s@, cur as int) == (match parse_str_rest(
                                s@,
                                cur as int + 2,
                            ) {
                                Some((t, j)) => Some((seq![b2] + t, j)),
                                None => None::<(Seq<u8>, int)>,
                            }));
                            lemma_str_rest_advance(s@, i as int, cur as int, acc0, b2, 2);
                        }
                        acc.push(b2);
                        assert(acc@ =~= acc0 + seq![b2]);
                        cur = cur + 2;
                    },
                    None => {
                        assert(parse_str_rest(s@, cur as int) is None);
                        return None;
                    },
                }
            }
        } else {
            let ghost acc0 = acc@;
            proof {
                assert(parse_str_rest(s@, cur as int) == (match parse_str_rest(s@, cur as int + 1) {
                    Some((t, j)) => Some((seq![b] + t, j)),
                    None => None::<(Seq<u8>, int)>,
                }));
                lemma_str_rest_advance(s@, i as int, cur as int, acc0, b, 1);
            }
            acc.push(b);
            assert(acc@ =~= acc0 + seq![b]);
            cur = cur + 1;
        }
    }
}

/// Parse a whole string token at `i`.
pub fn parse_string_exec(s: &Vec<u8>, i: usize) -> (r: Option<(Vec<u8>, usize)>)
    requires
        i <= s@.len(),
    ensures
        match r {
            Some(tj) => parse_string_at(s@, i as int) == Some((tj.0@, tj.1 as int)) && i <= tj.1
                <= s@.len(),
            None => parse_string_at(s@, i as int) is None,
        },
{
    if i < s.len() && s[i] == QUOTE {
        parse_str_rest_exec(s, i + 1)
    } else {
        None
    }
}

/// Parse one scalar token at `i`.
pub fn parse_scalar_exec(s: &Vec<u8>, i: usize) -> (r: Option<(JsonScalar, usize)>)
    requires
        i <= s@.len(),
    ensures
        match r {
            Some(vj) => parse_scalar_at(s@, i as int) == Some((vj.0@, vj.1 as int)) && i <= vj.1
                <= s@.len(),
            None => parse_scalar_at(s@, i as int) is None,
        },
{
    if i == s.len() {
        return None;
    }
    let b = s[i];
    if b == QUOTE {
        match parse_string_exec(s, i) {
            Some((t, j)) => Some((JsonScalar::Str(t), j)),
            None => None,
        }
    } else if is_digit_exec(b) {
        match parse_u64_exec(s, i) {
            Some((n, j)) => Some((JsonScalar::UInt(n), j)),
            None => None,
        }
    } else if b == 116 {
        if s.len() - i >= 4 && s[i + 1] == 114 && s[i + 2] == 117 && s[i + 3] == 101 {
            proof {
                assert(s@.subrange(i as int, i + 4 as int) =~= lit_true());
            }
            Some((JsonScalar::Bool(true), i + 4))
        } else {
            proof {
                if is_at(s@, i as int, lit_true()) {
                    assert(s@[i + 1] == lit_true()[1]);
                    assert(s@[i + 2] == lit_true()[2]);
                    assert(s@[i + 3] == lit_true()[3]);
                }
            }
            None
        }
    } else if b == 102 {
        if s.len() - i >= 5 && s[i + 1] == 97 && s[i + 2] == 108 && s[i + 3] == 115 && s[i + 4]
            == 101 {
            proof {
                assert(s@.subrange(i as int, i + 5 as int) =~= lit_false());
            }
            Some((JsonScalar::Bool(false), i + 5))
        } else {
            proof {
                if is_at(s@, i as int, lit_false()) {
                    assert(s@[i + 1] == lit_false()[1]);
                    assert(s@[i + 2] == lit_false()[2]);
                    assert(s@[i + 3] == lit_false()[3]);
                    assert(s@[i + 4] == lit_false()[4]);
                }
            }
            None
        }
    } else if b == 110 {
        if s.len() - i >= 4 && s[i + 1] == 117 && s[i + 2] == 108 && s[i + 3] == 108 {
            proof {
                assert(s@.subrange(i as int, i + 4 as int) =~= lit_null());
            }
            Some((JsonScalar::Null, i + 4))
        } else {
            proof {
                if is_at(s@, i as int, lit_null()) {
                    assert(s@[i + 1] == lit_null()[1]);
                    assert(s@[i + 2] == lit_null()[2]);
                    assert(s@[i + 3] == lit_null()[3]);
                }
            }
            None
        }
    } else {
        None
    }
}


// ---------------------------------------------------------------------------
// Flat objects: encoding and executable parsing
// ---------------------------------------------------------------------------
/// Model view of a list of key/scalar pairs.
pub open spec fn pairs_view(ps: Seq<(Vec<u8>, JsonScalar)>) -> Seq<(Seq<u8>, ScalarV)> {
    Seq::new(ps.len(), |k: int| (ps[k].0@, ps[k].1@))
}

/// The members of a non-empty flat object, commas between them, closing brace
/// included.
pub open spec fn enc_members(ps: Seq<(Seq<u8>, ScalarV)>) -> Seq<u8>
    decreases ps.len(),
{
    if ps.len() == 0 {
        Seq::empty()
    } else {
        enc_str(ps[0].0) + seq![COLON] + enc_scalar(ps[0].1) + (if ps.len() == 1 {
            seq![RBRACE]
        } else {
            seq![COMMA] + enc_members(ps.skip(1))
        })
    }
}

/// A whole flat object, compactly encoded.
pub open spec fn enc_flat_obj(ps: Seq<(Seq<u8>, ScalarV)>) -> Seq<u8> {
    if ps.len() == 0 {
        seq![LBRACE, RBRACE]
    } else {
        seq![LBRACE] + enc_members(ps)
    }
}

/// Append the compact encoding of a flat object to `out`.
pub fn write_flat_obj(out: &mut Vec<u8>, pairs: &Vec<(Vec<u8>, JsonScalar)>)
    ensures
        final(out)@ == old(out)@ + enc_flat_obj(pairs_view(pairs@)),
{
    let ghost prefix: Seq<u8> = out@;
    let ghost ps: Seq<(Seq<u8>, ScalarV)> = pairs_view(pairs@);
    out.push(LBRACE);
    if pairs.len() == 0 {
        out.push(RBRACE);
        assert(final(out)@ =~= prefix + enc_flat_obj(ps));
        return ;
    }
    proof {
        assert(ps.skip(0) =~= ps);
        assert(out@ =~= prefix + seq![LBRACE]);
        assert(prefix + enc_flat_obj(ps) =~= (prefix + seq![LBRACE]) + enc_members(ps));
    }
    let mut i: usize = 0;
    while i < pairs.len()
        invariant
            0 <= i <= pairs@.len(),
            pairs@.len() > 0,
            ps == pairs_view(pairs@),
            prefix + enc_flat_obj(ps) == out@ + enc_members(ps.skip(i as int)),
        decreases pairs@.len() - i,
    {
        let ghost before: Seq<u8> = out@;
        proof {
            assert(ps.skip(i as int)[0] == ps[i as int]);
            assert(ps.skip(i as int).len() == ps.len() - i);
            assert(ps.skip(i as int).skip(1) =~= ps.skip(i as int + 1));
        }
        write_str(out, &pairs[i].0);
        out.push(COLON);
        write_scalar(out, &pairs[i].1);
        if i + 1 == pairs.len() {
            out.push(RBRACE);
            proof {
                assert(enc_members(ps.skip(i as int)) =~= enc_str(ps[i as int].0) + seq![COLON]
                    + enc_scalar(ps[i as int].1) + seq![RBRACE]);
                assert(out@ =~= before + (enc_str(ps[i as int].0) + seq![COLON] + enc_scalar(
                    ps[i as int].1,
                ) + seq![RBRACE]));
                assert(enc_members(ps.skip(i as int + 1)) =~= Seq::<u8>::empty());
                assert(prefix + enc_flat_obj(ps) =~= out@ + enc_members(ps.skip(i as int + 1)));
            }
        } else {
            out.push(COMMA);
            proof {
                assert(enc_members(ps.skip(i as int)) =~= enc_str(ps[i as int].0) + seq![COLON]
                    + enc_scalar(ps[i as int].1) + seq![COMMA] + enc_members(ps.skip(i as int + 1)));
                assert(out@ =~= before + (enc_str(ps[i as int].0) + seq![COLON] + enc_scalar(
                    ps[i as int].1,
                ) + seq![COMMA]));
                assert(prefix + enc_flat_obj(ps) =~= out@ + enc_members(ps.skip(i as int + 1)));
            }
        }
        i = i + 1;
    }
    proof {
        assert(enc_members(ps.skip(ps.len() as int)) =~= Seq::<u8>::empty());
        assert(out@ + enc_members(ps.skip(ps.len() as int)) =~= out@);
    }
    assert(final(out)@ =~= prefix + enc_flat_obj(ps));
}


/// Relates parsed-so-far members to the whole parse.
spec fn members_step(s: Seq<u8>, start: int, cur: int, acc: Seq<(Seq<u8>, ScalarV)>) -> bool {
    match parse_members(s, cur) {
        Some((rest, j)) => parse_members(s, start) == Some((acc + rest, j)),
        None => parse_members(s, start) is None,
    }
}

proof fn lemma_members_advance(
    s: Seq<u8>,
    start: int,
    cur: int,
    acc: Seq<(Seq<u8>, ScalarV)>,
    kv: (Seq<u8>, ScalarV),
    nxt: int,
)
    requires
        members_step(s, start, cur, acc),
        parse_members(s, cur) == (match parse_members(s, nxt) {
            Some((rest, j)) => Some((seq![kv] + rest, j)),
            None => None::<(Seq<(Seq<u8>, ScalarV)>, int)>,
        }),
    ensures
        members_step(s, start, nxt, acc + seq![kv]),
{
    match parse_members(s, nxt) {
        Some((rest, j)) => {
            assert(acc + (seq![kv] + rest) =~= (acc + seq![kv]) + rest);
        },
        None => {
        },
    }
}

/// Parse the members of a flat object (see `parse_members`).
fn parse_members_exec(s: &Vec<u8>, i: usize) -> (r: Option<(Vec<(Vec<u8>, JsonScalar)>, usize)>)
    requires
        i <= s@.len(),
    ensures
        match r {
            Some(mj) => parse_members(s@, i as int) == Some((pairs_view(mj.0@), mj.1 as int)) && i
                <= mj.1 <= s@.len(),
            None => parse_members(s@, i as int) is None,
        },
{
    let mut acc: Vec<(Vec<u8>, JsonScalar)> = Vec::new();
    let mut cur: usize = i;
    proof {
        assert(pairs_view(acc@) =~= Seq::<(Seq<u8>, ScalarV)>::empty());
    }
    loop
        invariant
            i <= cur <= s@.len(),
            members_step(s@, i as int, cur as int, pairs_view(acc@)),
        decreases s@.len() - cur,
    {
        let k = match parse_string_exec(s, cur) {
            Some(kj) => kj,
            None => {
                assert(parse_members(s@, cur as int) is None);
                return None;
            },
        };
        let j1 = skip_ws_exec(s, k.1);
        if j1 == s.len() || s[j1] != COLON {
            assert(parse_members(s@, cur as int) is None);
            return None;
        }
        let j2 = skip_ws_exec(s, j1 + 1);
        let v = match parse_scalar_exec(s, j2) {
            Some(vj) => vj,
            None => {
                assert(parse_members(s@, cur as int) is None);
                return None;
            },
        };
        let j4 = skip_ws_exec(s, v.1);
        let ghost kv = (k.0@, v.0@);
        if j4 < s.len() && s[j4] == COMMA {
            let j5 = skip_ws_exec(s, j4 + 1);
            if j5 <= cur {
                // a member is never empty, so the parse cannot stand still
                assert(parse_members(s@, cur as int) is None);
                return None;
            }
            let ghost acc0 = pairs_view(acc@);
            proof {
                assert(parse_members(s@, cur as int) == (match parse_members(s@, j5 as int) {
                    Some((rest, j)) => Some((seq![kv] + rest, j)),
                    None => None::<(Seq<(Seq<u8>, ScalarV)>, int)>,
                }));
                lemma_members_advance(s@, i as int, cur as int, acc0, kv, j5 as int);
            }
            acc.push((k.0, v.0));
            proof {
                assert(pairs_view(acc@) =~= acc0 + seq![kv]);
            }
            cur = j5;
        } else if j4 < s.len() && s[j4] == RBRACE {
            let ghost acc0 = pairs_view(acc@);
            proof {
                assert(parse_members(s@, cur as int) == Some((seq![kv], j4 as int + 1)));
            }
            acc.push((k.0, v.0));
            proof {
                assert(pairs_view(acc@) =~= acc0 + seq![kv]);
            }
            return Some((acc, j4 + 1));
        } else {
            assert(parse_members(s@, cur as int) is None);
            return None;
        }
    }
}

/// Parse a whole line as a flat JSON object (see `parse_flat_obj`).
pub fn parse_flat_obj_exec(s: &Vec<u8>) -> (r: Option<Vec<(Vec<u8>, JsonScalar)>>)
    ensures
        match r {
            Some(m) => parse_flat_obj(s@) == Some(pairs_view(m@)),
            None => parse_flat_obj(s@) is None,
        },
{
    let i0 = skip_ws_exec(s, 0);
    if i0 == s.len() || s[i0] != LBRACE {
        return None;
    }
    let i1 = skip_ws_exec(s, i0 + 1);
    if i1 < s.len() && s[i1] == RBRACE {
        let j = skip_ws_exec(s, i1 + 1);
        if j == s.len() {
            let empty: Vec<(Vec<u8>, JsonScalar)> = Vec::new();
            proof {
                assert(pairs_view(Seq::<(Vec<u8>, JsonScalar)>::empty()) =~= Seq::<
                    (Seq<u8>, ScalarV),
                >::empty());
            }
            return Some(empty);
        } else {
            return None;
        }
    }
    match parse_members_exec(s, i1) {
        Some((m, j)) => {
            let j2 = skip_ws_exec(s, j);
            if j2 == s.len() {
                Some(m)
            } else {
                None
            }
        },
        None => None,
    }
}


// ---------------------------------------------------------------------------
// Round trip: what the encoder writes, the parser reads back
// ---------------------------------------------------------------------------
pub proof fn lemma_is_at_split(s: Seq<u8>, i: int, a: Seq<u8>, b: Seq<u8>)
    requires
        is_at(s, i, a + b),
    ensures
        is_at(s, i, a),
        is_at(s, i + a.len(), b),
{
    assert forall|j: int| 0 <= j < a.len() implies s.subrange(i, i + a.len())[j] == a[j] by {
        assert(s.subrange(i, i + (a + b).len())[j] == (a + b)[j]);
    }
    assert(s.subrange(i, i + a.len()) =~= a);
    assert forall|j: int| 0 <= j < b.len() implies s.subrange(
        i + a.len(),
        i + a.len() + b.len(),
    )[j] == b[j] by {
        assert(s.subrange(i, i + (a + b).len())[a.len() + j] == (a + b)[a.len() + j]);
    }
    assert(s.subrange(i + a.len(), i + a.len() + b.len()) =~= b);
}

pub proof fn lemma_is_at_byte(s: Seq<u8>, i: int, t: Seq<u8>, k: int)
    requires
        is_at(s, i, t),
        0 <= k < t.len(),
    ensures
        s[i + k] == t[k],
{
    assert(s.subrange(i, i + t.len())[k] == t[k]);
}

pub proof fn lemma_enc_u64_digits(n: u64)
    ensures
        enc_u64(n).len() >= 1,
        forall|k: int| 0 <= k < enc_u64(n).len() ==> is_digit(#[trigger] enc_u64(n)[k]),
        digits_val(enc_u64(n)) == n,
    decreases n,
{
    if n < 10 {
        assert(enc_u64(n) =~= seq![(48 + n) as u8]);
        assert(enc_u64(n).drop_last() =~= Seq::<u8>::empty());
        assert(digits_val(Seq::<u8>::empty()) == 0);
        assert(enc_u64(n).last() == (48 + n) as u8);
        assert(digits_val(enc_u64(n)) == 0 * 10 + ((48 + n) as u8 - 48));
    } else {
        lemma_enc_u64_digits(n / 10);
        let pre = enc_u64((n / 10) as u64);
        let last = (48 + n % 10) as u8;
        assert(enc_u64(n) =~= pre + seq![last]);
        assert(enc_u64(n).drop_last() =~= pre);
        assert(forall|k: int|
            0 <= k < pre.len() ==> #[trigger] enc_u64(n)[k] == pre[k]);
        assert(digits_val(enc_u64(n)) == digits_val(pre) * 10 + (last - 48));
        assert((n / 10) * 10 + n % 10 == n) by (nonlinear_arith);
    }
}

pub proof fn lemma_parse_u64_of_enc(s: Seq<u8>, i: int, n: u64)
    requires
        is_at(s, i, enc_u64(n)),
        i + enc_u64(n).len() == s.len() || !is_digit(s[i + enc_u64(n).len()]),
    ensures
        parse_u64_at(s, i) == Some((n, i + enc_u64(n).len())),
{
    let t = enc_u64(n);
    lemma_enc_u64_digits(n);
    assert forall|k: int| i <= k < i + t.len() implies is_digit(s[k]) by {
        lemma_is_at_byte(s, i, t, k - i);
    }
    lemma_digit_end_of(s, i, i + t.len());
    assert(s.subrange(i, i + t.len()) == t);
}

proof fn lemma_hex_digit(n: u8)
    requires
        n < 16,
    ensures
        is_hex(hex_digit(n)),
        hex_val(hex_digit(n)) == n,
        !is_ws(hex_digit(n)),
{
}

/// The escaped body of `x` followed by a closing quote parses back to `x`.
pub proof fn lemma_parse_str_rest_of_esc(s: Seq<u8>, i: int, x: Seq<u8>)
    requires
        is_at(s, i, esc_bytes(x) + seq![QUOTE]),
    ensures
        parse_str_rest(s, i) == Some((x, i + esc_bytes(x).len() + 1)),
    decreases x.len(),
{
    if x.len() == 0 {
        assert(esc_bytes(x) + seq![QUOTE] =~= seq![QUOTE]);
        lemma_is_at_byte(s, i, seq![QUOTE], 0);
        assert(parse_str_rest(s, i) == Some((Seq::<u8>::empty(), i + 1)));
        assert(x =~= Seq::<u8>::empty());
    } else {
        let b = x[0];
        let e = esc_byte(b);
        let rest = esc_bytes(x.skip(1)) + seq![QUOTE];
        assert(esc_bytes(x) + seq![QUOTE] =~= e + rest);
        lemma_is_at_split(s, i, e, rest);
        lemma_parse_str_rest_of_esc(s, i + e.len(), x.skip(1));
        let tail_end = i + e.len() + esc_bytes(x.skip(1)).len() + 1;
        assert(parse_str_rest(s, i + e.len()) == Some((x.skip(1), tail_end)));
        assert(seq![b] + x.skip(1) =~= x);
        if b == QUOTE || b == BSLASH || b == 8 || b == 12 || b == 10 || b == 13 || b == 9 {
            assert(e.len() == 2);
            lemma_is_at_byte(s, i, e, 0);
            lemma_is_at_byte(s, i, e, 1);
            assert(s[i] == BSLASH);
            assert(unesc_char(s[i + 1]) == Some(b));
            assert(parse_str_rest(s, i) == Some((seq![b] + x.skip(1), tail_end)));
        } else if b < 32 {
            assert(e =~= seq![BSLASH, 117u8, 48u8, 48u8, hex_digit(b / 16), hex_digit(b % 16)]);
            assert(e.len() == 6);
            lemma_is_at_byte(s, i, e, 0);
            lemma_is_at_byte(s, i, e, 1);
            lemma_is_at_byte(s, i, e, 2);
            lemma_is_at_byte(s, i, e, 3);
            lemma_is_at_byte(s, i, e, 4);
            lemma_is_at_byte(s, i, e, 5);
            lemma_hex_digit(b / 16);
            lemma_hex_digit(b % 16);
            assert(is_hex(48u8) && hex_val(48u8) == 0);
            let v = hex_val(s[i + 2]) * 4096 + hex_val(s[i + 3]) * 256 + hex_val(s[i + 4]) * 16
                + hex_val(s[i + 5]);
            assert(v == (b / 16) * 16 + b % 16);
            assert((b / 16) * 16 + b % 16 == b) by (nonlinear_arith);
            assert(v < 128);
            assert(parse_str_rest(s, i) == Some((seq![b] + x.skip(1), tail_end)));
        } else {
            assert(e =~= seq![b]);
            lemma_is_at_byte(s, i, e, 0);
            assert(s[i] == b);
            assert(s[i] != QUOTE && s[i] != BSLASH);
            assert(parse_str_rest(s, i) == Some((seq![b] + x.skip(1), tail_end)));
        }
    }
}

/// A whole encoded string token parses back to its content.
pub proof fn lemma_parse_string_of_enc(s: Seq<u8>, i: int, x: Seq<u8>)
    requires
        is_at(s, i, enc_str(x)),
    ensures
        parse_string_at(s, i) == Some((x, i + enc_str(x).len())),
{
    assert(enc_str(x) =~= seq![QUOTE] + (esc_bytes(x) + seq![QUOTE]));
    lemma_is_at_split(s, i, seq![QUOTE], esc_bytes(x) + seq![QUOTE]);
    lemma_is_at_byte(s, i, seq![QUOTE], 0);
    lemma_parse_str_rest_of_esc(s, i + 1, x);
}

/// First byte of an encoded scalar: never blank space, and it selects the
/// right branch of the scalar parser.
proof fn lemma_enc_scalar_first(v: ScalarV)
    ensures
        enc_scalar(v).len() >= 1,
        !is_ws(enc_scalar(v)[0]),
        enc_scalar(v)[0] != COMMA && enc_scalar(v)[0] != RBRACE,
{
    match v {
        ScalarV::Null => {
        },
        ScalarV::Bool(b) => {
        },
        ScalarV::UInt(n) => {
            lemma_enc_u64_digits(n);
            assert(is_digit(enc_u64(n)[0]));
        },
        ScalarV::Str(x) => {
            assert(enc_scalar(v)[0] == QUOTE);
        },
    }
}

/// An encoded scalar parses back to itself, provided a number is followed by
/// a byte that is not a digit (or by the end of the text).
pub proof fn lemma_parse_scalar_of_enc(s: Seq<u8>, i: int, v: ScalarV)
    requires
        is_at(s, i, enc_scalar(v)),
        v is UInt ==> i + enc_scalar(v).len() == s.len() || !is_digit(
            s[i + enc_scalar(v).len()],
        ),
    ensures
        parse_scalar_at(s, i) == Some((v, i + enc_scalar(v).len())),
{
    match v {
        ScalarV::Null => {
            lemma_is_at_byte(s, i, lit_null(), 0);
            assert(s[i] == 110);
            assert(!is_digit(s[i]) && s[i] != QUOTE && s[i] != 116 && s[i] != 102);
        },
        ScalarV::Bool(b) => {
            if b {
                lemma_is_at_byte(s, i, lit_true(), 0);
                assert(s[i] == 116);
            } else {
                lemma_is_at_byte(s, i, lit_false(), 0);
                assert(s[i] == 102);
            }
        },
        ScalarV::UInt(n) => {
            lemma_enc_u64_digits(n);
            lemma_is_at_byte(s, i, enc_u64(n), 0);
            assert(is_digit(s[i]));
            lemma_parse_u64_of_enc(s, i, n);
        },
        ScalarV::Str(x) => {
            lemma_is_at_byte(s, i, enc_str(x), 0);
            assert(s[i] == QUOTE);
            lemma_parse_string_of_enc(s, i, x);
        },
    }
}

proof fn lemma_skip_ws_still(s: Seq<u8>, i: int)
    requires
        0 <= i,
        i == s.len() || !is_ws(s[i]),
    ensures
        skip_ws(s, i) == i,
{
}

/// Encoded members parse back to themselves.
pub proof fn lemma_parse_members_of_enc(s: Seq<u8>, i: int, ps: Seq<(Seq<u8>, ScalarV)>)
    requires
        ps.len() >= 1,
        is_at(s, i, enc_members(ps)),
    ensures
        parse_members(s, i) == Some((ps, i + enc_members(ps).len())),
    decreases ps.len(),
{
    let k = ps[0].0;
    let v = ps[0].1;
    let key_tok = enc_str(k);
    let val_tok = enc_scalar(v);
    let tail: Seq<u8> = if ps.len() == 1 {
        seq![RBRACE]
    } else {
        seq![COMMA] + enc_members(ps.skip(1))
    };
    assert(enc_members(ps) =~= key_tok + (seq![COLON] + (val_tok + tail)));
    lemma_is_at_split(s, i, key_tok, seq![COLON] + (val_tok + tail));
    let i1 = i + key_tok.len();
    lemma_is_at_split(s, i1, seq![COLON], val_tok + tail);
    let i2 = i1 + 1;
    lemma_is_at_split(s, i2, val_tok, tail);
    let i3 = i2 + val_tok.len();
    lemma_parse_string_of_enc(s, i, k);
    lemma_is_at_byte(s, i1, seq![COLON], 0);
    lemma_skip_ws_still(s, i1);
    lemma_enc_scalar_first(v);
    lemma_is_at_byte(s, i2, val_tok, 0);
    lemma_skip_ws_still(s, i2);
    lemma_is_at_byte(s, i3, tail, 0);
    if v is UInt {
        assert(!is_digit(s[i3]));
    }
    lemma_parse_scalar_of_enc(s, i2, v);
    lemma_skip_ws_still(s, i3);
    if ps.len() == 1 {
        assert(s[i3] == RBRACE);
        assert(s[i3] != COMMA);
        assert(parse_members(s, i) == Some((seq![(k, v)], i3 + 1)));
        assert(seq![(k, v)] =~= ps);
    } else {
        assert(s[i3] == COMMA);
        let i4 = i3 + 1;
        lemma_is_at_split(s, i3, seq![COMMA], enc_members(ps.skip(1)));
        lemma_enc_members_first(ps.skip(1));
        lemma_is_at_byte(s, i4, enc_members(ps.skip(1)), 0);
        lemma_skip_ws_still(s, i4);
        lemma_parse_members_of_enc(s, i4, ps.skip(1));
        assert(parse_members(s, i4) == Some((ps.skip(1), i4 + enc_members(ps.skip(1)).len())));
        assert(i < i4 <= s.len());
        assert(parse_members(s, i) == Some(
            (seq![(k, v)] + ps.skip(1), i4 + enc_members(ps.skip(1)).len()),
        ));
        assert(seq![(k, v)] + ps.skip(1) =~= ps);
    }
}

/// Encoded members begin with a quote.
proof fn lemma_enc_members_first(ps: Seq<(Seq<u8>, ScalarV)>)
    requires
        ps.len() >= 1,
    ensures
        enc_members(ps).len() >= 1,
        enc_members(ps)[0] == QUOTE,
{
    assert(enc_members(ps)[0] == enc_str(ps[0].0)[0]);
}

/// A whole encoded flat object parses back to its member list.
pub proof fn lemma_parse_flat_obj_of_enc(ps: Seq<(Seq<u8>, ScalarV)>)
    ensures
        parse_flat_obj(enc_flat_obj(ps)) == Some(ps),
{
    let s = enc_flat_obj(ps);
    if ps.len() == 0 {
        assert(s =~= seq![LBRACE, RBRACE]);
        assert(skip_ws(s, 0) == 0);
        assert(skip_ws(s, 1) == 1);
        assert(skip_ws(s, 2) == 2);
        assert(parse_flat_obj_at(s, 0) == Some((Seq::<(Seq<u8>, ScalarV)>::empty(), 2int)));
        assert(Seq::<(Seq<u8>, ScalarV)>::empty() =~= ps);
    } else {
        assert(s =~= seq![LBRACE] + enc_members(ps));
        assert(s[0] == LBRACE);
        assert(skip_ws(s, 0) == 0);
        lemma_enc_members_first(ps);
        assert(is_at(s, 1, enc_members(ps))) by {
            assert(s.subrange(1, 1 + enc_members(ps).len() as int) =~= enc_members(ps));
        }
        lemma_is_at_byte(s, 1, enc_members(ps), 0);
        assert(s[1] == QUOTE);
        assert(!is_ws(s[1]) && s[1] != RBRACE);
        lemma_skip_ws_still(s, 1);
        lemma_parse_members_of_enc(s, 1, ps);
        assert(parse_members(s, 1) == Some((ps, s.len() as int)));
        lemma_skip_ws_still(s, s.len() as int);
    }
}

} // verus!
