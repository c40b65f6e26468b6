//! The wire format: a counter travels as the JSON text `{"number":<int>}`,
//! and errors as `{"error":"<message>"}`, both as bytes.
//!
//! The grammar accepted by the parser is the JSON object with the single
//! key `number` and an integer value: optional whitespace between tokens,
//! an optional minus sign, no leading zeros, and a value that must fit in
//! a 32-bit signed integer.

use vstd::prelude::*;

use crate::counter::Counter;

verus! {

/// Why a request body was rejected.
#[derive(Clone, Copy, Debug, PartialEq, Eq, Structural)]
pub enum ParseError {
    /// The bytes do not spell `{"number":<int>}`.
    Malformed,
    /// The bytes are well-formed but the integer does not fit in `i32`.
    OutOfRange,
}

/// An ASCII decimal digit.
pub open spec fn is_digit(b: u8) -> bool {
    48 <= b <= 57
}

/// JSON insignificant whitespace: space, tab, line feed, carriage return.
pub open spec fn is_ws(b: u8) -> bool {
    b == 32 || b == 9 || b == 10 || b == 13
}

/// The decimal digits of `n`, most significant first.
pub open spec fn dec_rep_nat(n: nat) -> Seq<u8>
    decreases n,
{
    if n < 10 {
        seq![(48 + n) as u8]
    } else {
        dec_rep_nat(n / 10).push((48 + n % 10) as u8)
    }
}

/// The decimal spelling of `n`: a minus sign for negative values, then
/// the digits of its magnitude.
pub open spec fn dec_rep(n: int) -> Seq<u8> {
    if n < 0 {
        seq![45u8] + dec_rep_nat((-n) as nat)
    } else {
        dec_rep_nat(n as nat)
    }
}

/// The bytes of `{"number":` — the opening brace, the quoted key and the
/// colon, with no whitespace.
pub open spec fn object_prefix() -> Seq<u8> {
    seq![123u8, 34u8, 110u8, 117u8, 109u8, 98u8, 101u8, 114u8, 34u8, 58u8]
}

/// The quoted key `"number"`.
pub open spec fn key_bytes() -> Seq<u8> {
    seq![34u8, 110u8, 117u8, 109u8, 98u8, 101u8, 114u8, 34u8]
}

/// The canonical JSON spelling of a counter holding `n`:
/// `{"number":` then the decimal spelling of `n`, then `}`.
pub open spec fn counter_json(n: int) -> Seq<u8> {
    object_prefix() + dec_rep(n) + seq![125u8]
}

/// The JSON error body `{"error":"<msg>"}`.
pub open spec fn error_json(msg: Seq<u8>) -> Seq<u8> {
    seq![123u8, 34u8, 101u8, 114u8, 114u8, 111u8, 114u8, 34u8, 58u8, 34u8] + msg + seq![
        34u8,
        125u8,
    ]
}

/// The first index at or after `i` that does not hold whitespace, or the
/// length if whitespace runs to the end.
pub open spec fn skip_ws(s: Seq<u8>, i: int) -> int
    decreases s.len() - i,
{
    if i < s.len() && is_ws(s[i]) {
        skip_ws(s, i + 1)
    } else {
        i
    }
}

/// The first index at or after `i` that does not hold a digit, or the
/// length if digits run to the end.
pub open spec fn digits_end(s: Seq<u8>, i: int) -> int
    decreases s.len() - i,
{
    if i < s.len() && is_digit(s[i]) {
        digits_end(s, i + 1)
    } else {
        i
    }
}

/// The value of a sequence of digit bytes, most significant first.
pub open spec fn val_of_digits(s: Seq<u8>) -> int
    decreases s.len(),
{
    if s.len() == 0 {
        0
    } else {
        val_of_digits(s.drop_last()) * 10 + (s.last() - 48)
    }
}

/// A JSON integer at position `i` of `s`: an optional minus sign, then
/// digits with no leading zero. Yields the value and the index just past
/// the digits, or nothing if no integer starts at `i`.
pub open spec fn parse_int_at(s: Seq<u8>, i: int) -> Option<(int, int)> {
    let (neg, d0) = if i < s.len() && s[i] == 45 {
        (true, i + 1)
    } else {
        (false, i)
    };
    if d0 < s.len() && is_digit(s[d0]) {
        let e = digits_end(s, d0);
        if s[d0] == 48 && e != d0 + 1 {
            None
        } else {
            let v = val_of_digits(s.subrange(d0, e));
            Some((if neg { -v } else { v }, e))
        }
    } else {
        None
    }
}

/// What `s` spells as a counter body: the integer of `{"number":<int>}`
/// with optional whitespace between tokens, or nothing if `s` spells
/// anything else.
pub open spec fn parse_counter_json(s: Seq<u8>) -> Option<int> {
    let i0 = skip_ws(s, 0);
    if i0 < s.len() && s[i0] == 123 {
        let i1 = skip_ws(s, i0 + 1);
        if i1 + 8 <= s.len() && s.subrange(i1, i1 + 8) == key_bytes() {
            let i2 = skip_ws(s, i1 + 8);
            if i2 < s.len() && s[i2] == 58 {
                let i3 = skip_ws(s, i2 + 1);
                match parse_int_at(s, i3) {
                    Some((v, e)) => {
                        let i4 = skip_ws(s, e);
                        if i4 < s.len() && s[i4] == 125 && skip_ws(s, i4 + 1) == s.len() {
                            Some(v)
                        } else {
                            None
                        }
                    },
                    None => None,
                }
            } else {
                None
            }
        } else {
            None
        }
    } else {
        None
    }
}

/// Powers of ten.
pub open spec fn pow10(k: nat) -> int
    decreases k,
{
    if k == 0 {
        1
    } else {
        10 * pow10((k - 1) as nat)
    }
}

proof fn lemma_pow10_pos(k: nat)
    ensures
        pow10(k) >= 1,
    decreases k,
{
    if k > 0 {
        lemma_pow10_pos((k - 1) as nat);
    }
}

proof fn lemma_pow10_le(j: nat, k: nat)
    requires
        j <= k,
    ensures
        pow10(j) <= pow10(k),
    decreases k,
{
    if j < k {
        lemma_pow10_le(j, (k - 1) as nat);
        lemma_pow10_pos((k - 1) as nat);
    }
}

proof fn lemma_pow10_ten()
    ensures
        pow10(10) == 10_000_000_000,
{
    assert(pow10(0) == 1);
    assert(pow10(1) == 10);
    assert(pow10(2) == 100);
    assert(pow10(3) == 1000);
    assert(pow10(4) == 10000);
    assert(pow10(5) == 100000);
    assert(pow10(6) == 1000000);
    assert(pow10(7) == 10000000);
    assert(pow10(8) == 100000000);
    assert(pow10(9) == 1000000000);
}

/// Where the digit run from `i` ends, everything before it is a digit
/// and what follows, if anything, is not.
proof fn lemma_digits_end_props(s: Seq<u8>, i: int)
    requires
        0 <= i <= s.len(),
    ensures
        i <= digits_end(s, i) <= s.len(),
        forall|k: int| i <= k < digits_end(s, i) ==> is_digit(s[k]),
        digits_end(s, i) == s.len() || !is_digit(s[digits_end(s, i)]),
    decreases s.len() - i,
{
    if i < s.len() && is_digit(s[i]) {
        lemma_digits_end_props(s, i + 1);
    }
}

/// A run of digits values to something nonnegative and below ten to its
/// length; if it does not start with a zero digit, to at least ten to
/// one less than its length.
proof fn lemma_val_of_digits_bounds(s: Seq<u8>)
    requires
        forall|k: int| 0 <= k < s.len() ==> is_digit(s[k]),
    ensures
        0 <= val_of_digits(s) < pow10(s.len() as nat),
        s.len() >= 1 && s[0] != 48 ==> val_of_digits(s) >= pow10((s.len() - 1) as nat),
    decreases s.len(),
{
    if s.len() == 0 {
    } else {
        let head = s.drop_last();
        lemma_val_of_digits_bounds(head);
        assert(val_of_digits(s) == val_of_digits(head) * 10 + (s.last() - 48));
        assert(pow10(s.len() as nat) == 10 * pow10((s.len() - 1) as nat));
        if s.len() >= 2 && s[0] != 48 {
            assert(head[0] == s[0]);
            assert(val_of_digits(head) >= pow10((head.len() - 1) as nat));
        }
    }
}

/// The value of the decimal spelling of `m` is `m` again.
proof fn lemma_val_of_rep(m: nat)
    ensures
        val_of_digits(dec_rep_nat(m)) == m,
    decreases m,
{
    if m < 10 {
        let d = (48 + m) as u8;
        assert(dec_rep_nat(m) == seq![d]);
        assert(seq![d].drop_last() =~= Seq::<u8>::empty());
        assert(val_of_digits(Seq::<u8>::empty()) == 0);
        assert(val_of_digits(seq![d]) == val_of_digits(seq![d].drop_last()) * 10 + (seq![d].last()
            - 48));
    } else {
        lemma_val_of_rep(m / 10);
        let r = dec_rep_nat(m / 10).push((48 + m % 10) as u8);
        assert(dec_rep_nat(m) == r);
        assert(r.drop_last() =~= dec_rep_nat(m / 10));
        assert(r.last() == (48 + m % 10) as u8);
        assert(val_of_digits(r) == val_of_digits(r.drop_last()) * 10 + (r.last() - 48));
    }
}

/// Every byte of a decimal spelling is a digit, there is at least one,
/// and only zero's spelling starts with the digit zero.
pub proof fn lemma_dec_rep_nat_digits(n: nat)
    ensures
        dec_rep_nat(n).len() >= 1,
        forall|i: int| 0 <= i < dec_rep_nat(n).len() ==> is_digit(#[trigger] dec_rep_nat(n)[i]),
        n > 0 ==> dec_rep_nat(n)[0] != 48,
        n == 0 ==> dec_rep_nat(n) == seq![48u8],
    decreases n,
{
    if n < 10 {
        assert(dec_rep_nat(n) == seq![(48 + n) as u8]);
    } else {
        lemma_dec_rep_nat_digits(n / 10);
        assert(dec_rep_nat(n) == dec_rep_nat(n / 10).push((48 + n % 10) as u8));
        assert(dec_rep_nat(n)[0] == dec_rep_nat(n / 10)[0]);
    }
}

/// If everything from `i` up to `j` is a digit and `j` sits at the end
/// or before a non-digit, the digit run from `i` ends exactly at `j`.
proof fn lemma_digits_end_exact(s: Seq<u8>, i: int, j: int)
    requires
        0 <= i <= j <= s.len(),
        forall|k: int| i <= k < j ==> is_digit(s[k]),
        j == s.len() || !is_digit(s[j]),
    ensures
        digits_end(s, i) == j,
{
    lemma_digits_end_props(s, i);
    let e = digits_end(s, i);
    if e < j {
        assert(is_digit(s[e]));
        assert(false);
    }
    if e > j {
        assert(is_digit(s[j]));
        assert(false);
    }
}

/// Law: a serialized counter parses back to the value it held — for any
/// value an `i32` can hold, negative, zero or positive.
pub proof fn lemma_json_round_trip(n: int)
    requires
        i32::MIN <= n <= i32::MAX,
    ensures
        parse_counter_json(counter_json(n)) == Some(n),
{
    let s = counter_json(n);
    let mag: nat = if n < 0 {
        (-n) as nat
    } else {
        n as nat
    };
    let rep = dec_rep_nat(mag);
    lemma_dec_rep_nat_digits(mag);
    let d0: int = if n < 0 {
        11
    } else {
        10
    };
    let e: int = d0 + rep.len();
    assert(s.len() == e + 1);
    // Each region of the serialized text, byte by byte.
    assert(forall|i: int| 0 <= i < 10 ==> s[i] == object_prefix()[i]);
    assert(forall|i: int| d0 <= i < e ==> s[i] == rep[i - d0]);
    if n < 0 {
        assert(s[10] == 45);
    }
    assert(s[e] == 125);
    // No whitespace anywhere, so every skip stays put.
    assert(skip_ws(s, 0) == 0);
    assert(s[0] == 123);
    assert(skip_ws(s, 1) == 1);
    assert(s.subrange(1, 9) =~= key_bytes());
    assert(skip_ws(s, 9) == 9);
    assert(s[9] == 58);
    assert(skip_ws(s, 10) == 10);
    // The integer: an optional sign, then exactly the digits of `mag`.
    assert(is_digit(s[d0]));
    lemma_digits_end_exact(s, d0, e);
    if mag == 0 {
        assert(rep == seq![48u8]);
    } else {
        assert(s[d0] != 48);
    }
    assert(s.subrange(d0, e) =~= rep);
    lemma_val_of_rep(mag);
    assert(parse_int_at(s, 10) == Some((n, e)));
    // The closing brace, and nothing after it.
    assert(skip_ws(s, e) == e);
    assert(skip_ws(s, e + 1) == s.len());
    assert(parse_counter_json(s) == Some(n));
}

/// Appends the decimal digits of `m` to `out`.
fn push_dec_u32(out: &mut Vec<u8>, m: u32)
    ensures
        final(out)@ == old(out)@ + dec_rep_nat(m as nat),
    decreases m,
{
    if m >= 10 {
        push_dec_u32(out, m / 10);
    }
    let d: u8 = (m % 10) as u8;
    out.push(48 + d);
    proof {
        assert(out@ =~= old(out)@ + dec_rep_nat(m as nat));
    }
}

/// Serialize a counter as the canonical JSON text `{"number":<int>}`.
pub fn counter_to_json(c: &Counter) -> (out: Vec<u8>)
    ensures
        out@ == counter_json(c.number as int),
{
    let mut out: Vec<u8> = Vec::new();
    out.push(123);
    out.push(34);
    out.push(110);
    out.push(117);
    out.push(109);
    out.push(98);
    out.push(101);
    out.push(114);
    out.push(34);
    out.push(58);
    proof {
        assert(out@ =~= object_prefix());
    }
    let n = c.number;
    if n < 0 {
        out.push(45);
        let wide: i64 = -(n as i64);
        let m: u32 = wide as u32;
        proof {
            assert(0 < wide <= 0x8000_0000);
            assert(m as int == -(n as int));
        }
        push_dec_u32(&mut out, m);
    } else {
        push_dec_u32(&mut out, n as u32);
    }
    out.push(125);
    proof {
        assert(out@ =~= counter_json(c.number as int));
    }
    out
}

/// Build the error body `{"error":"<msg>"}` around a message. The fixed
/// messages this library uses hold no quote, backslash or control byte,
/// so the result is well-formed JSON.
pub fn error_body(msg: &Vec<u8>) -> (out: Vec<u8>)
    ensures
        out@ == error_json(msg@),
{
    let mut out: Vec<u8> = Vec::new();
    out.push(123);
    out.push(34);
    out.push(101);
    out.push(114);
    out.push(114);
    out.push(111);
    out.push(114);
    out.push(34);
    out.push(58);
    out.push(34);
    let mut i: usize = 0;
    while i < msg.len()
        invariant
            0 <= i <= msg@.len(),
            out@ == seq![
                123u8,
                34u8,
                101u8,
                114u8,
                114u8,
                111u8,
                114u8,
                34u8,
                58u8,
                34u8,
            ] + msg@.subrange(0, i as int),
        decreases msg@.len() - i,
    {
        out.push(msg[i]);
        i = i + 1;
        proof {
            assert(msg@.subrange(0, i as int) =~= msg@.subrange(0, i - 1) + seq![msg@[i - 1]]);
            assert(out@ =~= seq![
                123u8,
                34u8,
                101u8,
                114u8,
                114u8,
                111u8,
                114u8,
                34u8,
                58u8,
                34u8,
            ] + msg@.subrange(0, i as int));
        }
    }
    out.push(34);
    out.push(125);
    proof {
        assert(msg@.subrange(0, msg@.len() as int) =~= msg@);
        assert(out@ =~= error_json(msg@));
    }
    out
}

fn skip_ws_exec(s: &Vec<u8>, from: usize) -> (j: usize)
    requires
        from <= s@.len(),
    ensures
        j == skip_ws(s@, from as int),
        from <= j <= s@.len(),
{
    let mut i: usize = from;
    while i < s.len() && (s[i] == 32 || s[i] == 9 || s[i] == 10 || s[i] == 13)
        invariant
            from <= i <= s@.len(),
            skip_ws(s@, from as int) == skip_ws(s@, i as int),
        decreases s@.len() - i,
    {
        i = i + 1;
    }
    i
}

fn digits_end_exec(s: &Vec<u8>, from: usize) -> (j: usize)
    requires
        from <= s@.len(),
    ensures
        j == digits_end(s@, from as int),
        from <= j <= s@.len(),
{
    let mut i: usize = from;
    while i < s.len() && 48 <= s[i] && s[i] <= 57
        invariant
            from <= i <= s@.len(),
            digits_end(s@, from as int) == digits_end(s@, i as int),
        decreases s@.len() - i,
    {
        i = i + 1;
    }
    i
}

/// Whether the eight bytes of `s` at `at` spell the quoted key `"number"`.
fn match_key(s: &Vec<u8>, at: usize) -> (r: bool)
    requires
        at + 8 <= s@.len(),
    ensures
        r == (s@.subrange(at as int, at as int + 8) == key_bytes()),
{
    let n = s.len();
    assert(at + 8 <= n);
    let r = s[at] == 34 && s[at + 1] == 110 && s[at + 2] == 117 && s[at + 3] == 109 && s[at + 4]
        == 98 && s[at + 5] == 101 && s[at + 6] == 114 && s[at + 7] == 34;
    proof {
        let sub = s@.subrange(at as int, at as int + 8);
        if r {
            assert(sub =~= key_bytes());
        } else {
            if sub == key_bytes() {
                assert(s@[at as int] == key_bytes()[0]);
                assert(s@[at as int + 1] == key_bytes()[1]);
                assert(s@[at as int + 2] == key_bytes()[2]);
                assert(s@[at as int + 3] == key_bytes()[3]);
                assert(s@[at as int + 4] == key_bytes()[4]);
                assert(s@[at as int + 5] == key_bytes()[5]);
                assert(s@[at as int + 6] == key_bytes()[6]);
                assert(s@[at as int + 7] == key_bytes()[7]);
            }
        }
    }
    r
}

/// Parse a counter body. Returns the counter `{"number":<int>}` spells;
/// `Malformed` if the bytes spell anything else, `OutOfRange` if they are
/// well-formed but the integer does not fit in `i32`.
pub fn counter_from_json(s: &Vec<u8>) -> (r: Result<Counter, ParseError>)
    ensures
        match parse_counter_json(s@) {
            Some(v) => {
                &&& (i32::MIN <= v <= i32::MAX ==> r == Ok::<Counter, ParseError>(
                    Counter { number: v as i32 },
                ))
                &&& (!(i32::MIN <= v <= i32::MAX) ==> r == Err::<Counter, ParseError>(
                    ParseError::OutOfRange,
                ))
            },
            None => r == Err::<Counter, ParseError>(ParseError::Malformed),
        },
{
    let i0 = skip_ws_exec(s, 0);
    if !(i0 < s.len() && s[i0] == 123) {
        return Err(ParseError::Malformed);
    }
    let i1 = skip_ws_exec(s, i0 + 1);
    if s.len() - i1 < 8 {
        return Err(ParseError::Malformed);
    }
    if !match_key(s, i1) {
        return Err(ParseError::Malformed);
    }
    let i2 = skip_ws_exec(s, i1 + 8);
    if !(i2 < s.len() && s[i2] == 58) {
        return Err(ParseError::Malformed);
    }
    let i3 = skip_ws_exec(s, i2 + 1);
    let neg: bool = i3 < s.len() && s[i3] == 45;
    let d0: usize = if neg {
        i3 + 1
    } else {
        i3
    };
    if !(d0 < s.len() && 48 <= s[d0] && s[d0] <= 57) {
        return Err(ParseError::Malformed);
    }
    let e = digits_end_exec(s, d0);
    proof {
        lemma_digits_end_props(s@, d0 as int);
    }
    if s[d0] == 48 && e != d0 + 1 {
        return Err(ParseError::Malformed);
    }
    let i4 = skip_ws_exec(s, e);
    if !(i4 < s.len() && s[i4] == 125) {
        return Err(ParseError::Malformed);
    }
    let i5 = skip_ws_exec(s, i4 + 1);
    if i5 != s.len() {
        return Err(ParseError::Malformed);
    }
    // The shape is right: the spec parse yields the value of the digit
    // run from d0 to e, negated when a minus sign preceded it.
    let ghost digits = s@.subrange(d0 as int, e as int);
    let ghost v: int = if neg {
        -val_of_digits(digits)
    } else {
        val_of_digits(digits)
    };
    proof {
        assert(parse_counter_json(s@) == Some(v));
        assert(forall|k: int| 0 <= k < digits.len() ==> is_digit(#[trigger] digits[k]));
        lemma_val_of_digits_bounds(digits);
        lemma_pow10_ten();
    }
    let nd: usize = e - d0;
    if nd > 10 {
        proof {
            // No leading zero and more than ten digits: the magnitude is
            // at least ten to the tenth, far beyond i32.
            assert(s@[d0 as int] != 48);
            assert(digits[0] == s@[d0 as int]);
            lemma_pow10_le(10, (nd - 1) as nat);
            assert(val_of_digits(digits) >= pow10(10));
        }
        return Err(ParseError::OutOfRange);
    }
    let mut acc: u64 = 0;
    let mut k: usize = d0;
    while k < e
        invariant
            d0 <= k <= e <= s@.len(),
            nd == e - d0 <= 10,
            digits == s@.subrange(d0 as int, e as int),
            forall|j: int| d0 <= j < e ==> is_digit(#[trigger] s@[j]),
            acc == val_of_digits(s@.subrange(d0 as int, k as int)),
            acc < pow10((k - d0) as nat),
        decreases e - k,
    {
        proof {
            lemma_pow10_le((k - d0) as nat, 9);
            lemma_pow10_ten();
            assert(pow10(9) == 1000000000) by {
                assert(pow10(10) == 10 * pow10(9));
            }
            assert(s@.subrange(d0 as int, k as int + 1).drop_last() =~= s@.subrange(
                d0 as int,
                k as int,
            ));
        }
        let d: u8 = s[k] - 48;
        acc = acc * 10 + (d as u64);
        k = k + 1;
        proof {
            assert(pow10((k - d0) as nat) == 10 * pow10((k - 1 - d0) as nat));
        }
    }
    proof {
        assert(s@.subrange(d0 as int, k as int) =~= digits);
        lemma_pow10_le(nd as nat, 10);
        assert(acc < 10_000_000_000);
    }
    let sv: i64 = if neg {
        -(acc as i64)
    } else {
        acc as i64
    };
    proof {
        assert(sv == v);
    }
    if sv < (i32::MIN as i64) || sv > (i32::MAX as i64) {
        Err(ParseError::OutOfRange)
    } else {
        Ok(Counter { number: sv as i32 })
    }
}

} // verus!
