//! IPv4 endpoints, their `a.b.c.d:p` text, and the 200-byte zero-padded
//! slots in which identifiers and endpoints travel to and from the helper.

use vstd::prelude::*;

verus! {

/// Width of an identifier or endpoint slot on the rendezvous wire.
pub const SLOT_LEN: usize = 200;

pub const DOT: u8 = 0x2E;

pub const COLON: u8 = 0x3A;

pub const DIGIT_ZERO: u8 = 0x30;

/// An IPv4 address with a port.
#[derive(Clone, Copy, Debug, PartialEq, Eq, Structural)]
pub struct Endpoint {
    pub a: u8,
    pub b: u8,
    pub c: u8,
    pub d: u8,
    pub port: u16,
}

/// Decimal digits of `n`, without leading zeros.
pub open spec fn decimal(n: nat) -> Seq<u8>
    decreases n,
{
    if n < 10 {
        seq![(DIGIT_ZERO + n) as u8]
    } else {
        decimal(n / 10) + seq![(DIGIT_ZERO + n % 10) as u8]
    }
}

/// `n` in decimal, then a separator, then `rest`.
pub open spec fn field_then(n: nat, sep: u8, rest: Seq<u8>) -> Seq<u8> {
    decimal(n) + seq![sep] + rest
}

/// The text of an endpoint: `a.b.c.d:port`, each number in decimal.
pub open spec fn endpoint_text(e: Endpoint) -> Seq<u8> {
    field_then(
        e.a as nat,
        DOT,
        field_then(
            e.b as nat,
            DOT,
            field_then(e.c as nat, DOT, field_then(e.d as nat, COLON, decimal(e.port as nat))),
        ),
    )
}

/// `s` cut or zero-padded to exactly `SLOT_LEN` bytes.
pub open spec fn padded(s: Seq<u8>) -> Seq<u8> {
    if s.len() >= SLOT_LEN {
        s.take(SLOT_LEN as int)
    } else {
        s + Seq::new((SLOT_LEN - s.len()) as nat, |i: int| 0u8)
    }
}

/// `s` without its trailing zero bytes.
pub open spec fn without_trailing_zeros(s: Seq<u8>) -> Seq<u8>
    decreases s.len(),
{
    if s.len() == 0 || s.last() != 0 {
        s
    } else {
        without_trailing_zeros(s.drop_last())
    }
}

pub open spec fn is_digit(b: u8) -> bool {
    DIGIT_ZERO <= b <= DIGIT_ZERO + 9
}

/// The number that a string of digits stands for.
pub open spec fn digits_value(s: Seq<u8>) -> nat
    decreases s.len(),
{
    if s.len() == 0 {
        0
    } else {
        digits_value(s.drop_last()) * 10 + (s.last() - DIGIT_ZERO) as nat
    }
}

/// Non-empty digits without a leading zero (but "0" itself).
pub open spec fn canonical_digits(s: Seq<u8>) -> bool {
    &&& s.len() >= 1
    &&& forall|i: int| 0 <= i < s.len() ==> is_digit(#[trigger] s[i])
    &&& (s.len() == 1 || s[0] != DIGIT_ZERO)
}

/// The decimal text of `n` starts at `pos` in `text` and the next byte,
/// if any, is no digit.
pub open spec fn decimal_at(text: Seq<u8>, pos: int, n: nat) -> bool {
    let end = pos + decimal(n).len();
    &&& 0 <= pos
    &&& end <= text.len()
    &&& text.subrange(pos, end) == decimal(n)
    &&& (end == text.len() || !is_digit(text[end]))
}

proof fn lemma_decimal_canonical(n: nat)
    ensures
        canonical_digits(decimal(n)),
        digits_value(decimal(n)) == n,
        decimal(n).last() != 0,
        n >= 10 ==> decimal(n).len() >= 2,
    decreases n,
{
    let s = decimal(n);
    if n < 10 {
        assert(s.drop_last() =~= Seq::<u8>::empty());
        assert(digits_value(Seq::<u8>::empty()) == 0);
        assert(digits_value(s) == n);
        assert(is_digit(s[0]));
    } else {
        lemma_decimal_canonical(n / 10);
        let p = decimal(n / 10);
        assert(s.drop_last() =~= p);
        assert(s.last() == (DIGIT_ZERO + n % 10) as u8);
        assert(n == (n / 10) * 10 + n % 10) by (nonlinear_arith);
        assert forall|i: int| 0 <= i < s.len() implies is_digit(#[trigger] s[i]) by {
            if i < p.len() {
                assert(s[i] == p[i]);
            }
        }
        assert(s[0] == p[0]);
        if n / 10 < 10 {
            assert(p == seq![(DIGIT_ZERO + n / 10) as u8]);
        } else {
            assert(p.len() >= 2);
        }
        assert(s[0] != DIGIT_ZERO);
        assert(digits_value(s) == digits_value(p) * 10 + (s.last() - DIGIT_ZERO) as nat);
        assert(digits_value(s) == n);
    }
}

proof fn lemma_canonical_is_decimal(s: Seq<u8>)
    requires
        canonical_digits(s),
    ensures
        decimal(digits_value(s)) == s,
        s.len() >= 2 ==> digits_value(s) >= 10,
        s[0] != DIGIT_ZERO ==> digits_value(s) >= 1,
    decreases s.len(),
{
    if s.len() == 1 {
        assert(s.drop_last() =~= Seq::<u8>::empty());
        assert(is_digit(s[0]));
        assert(decimal(digits_value(s)) =~= s);
    } else {
        let p = s.drop_last();
        assert(p[0] == s[0]);
        assert forall|i: int| 0 <= i < p.len() implies is_digit(#[trigger] p[i]) by {
            assert(p[i] == s[i]);
        }
        lemma_canonical_is_decimal(p);
        assert(is_digit(s[s.len() - 1]));
        let v = digits_value(s);
        let d = (s.last() - DIGIT_ZERO) as nat;
        assert(v == digits_value(p) * 10 + d);
        assert(v / 10 == digits_value(p) && v % 10 == d) by (nonlinear_arith)
            requires
                v == digits_value(p) * 10 + d,
                d < 10,
        ;
        assert(decimal(v) =~= s);
    }
}

proof fn lemma_decimal_at_unique(text: Seq<u8>, pos: int, n: nat, m: nat)
    requires
        decimal_at(text, pos, n),
        decimal_at(text, pos, m),
    ensures
        n == m,
{
    lemma_decimal_canonical(n);
    lemma_decimal_canonical(m);
    let ln = decimal(n).len() as int;
    let lm = decimal(m).len() as int;
    if ln < lm {
        assert(decimal(m)[ln] == text[pos + ln]);
    } else if lm < ln {
        assert(decimal(n)[lm] == text[pos + lm]);
    }
    assert(decimal(n) == decimal(m));
}

/// Appends the decimal digits of `n`.
fn push_decimal(v: &mut Vec<u8>, n: u16)
    ensures
        final(v)@ == old(v)@ + decimal(n as nat),
    decreases n,
{
    if n >= 10 {
        push_decimal(v, n / 10);
    }
    v.push(DIGIT_ZERO + (n % 10) as u8);
    assert(final(v)@ =~= old(v)@ + decimal(n as nat));
}

/// The text `a.b.c.d:port` of an endpoint.
pub fn render_endpoint(e: &Endpoint) -> (r: Vec<u8>)
    ensures
        r@ == endpoint_text(*e),
{
    let mut v: Vec<u8> = Vec::new();
    push_decimal(&mut v, e.a as u16);
    v.push(DOT);
    push_decimal(&mut v, e.b as u16);
    v.push(DOT);
    push_decimal(&mut v, e.c as u16);
    v.push(DOT);
    push_decimal(&mut v, e.d as u16);
    v.push(COLON);
    push_decimal(&mut v, e.port);
    assert(v@ =~= endpoint_text(*e));
    v
}

/// Reads the number whose decimal text starts at `pos`, if there is one
/// below 65536 followed by no further digit.
fn read_field(text: &[u8], pos: usize) -> (r: Option<(u16, usize)>)
    requires
        pos <= text@.len(),
    ensures
        match r {
            Some((n, end)) => decimal_at(text@, pos as int, n as nat) && end == pos + decimal(
                n as nat,
            ).len(),
            None => forall|n: nat| n < 0x10000 ==> !decimal_at(text@, pos as int, n),
        },
{
    let mut i: usize = pos;
    let mut value: u32 = 0;
    while i < text.len() && DIGIT_ZERO <= text[i] && text[i] <= DIGIT_ZERO + 9
        invariant
            pos <= i <= text@.len(),
            forall|k: int| pos <= k < i ==> is_digit(#[trigger] text@[k]),
            value == if digits_value(text@.subrange(pos as int, i as int)) < 100000 {
                digits_value(text@.subrange(pos as int, i as int))
            } else {
                100000
            },
        decreases text@.len() - i,
    {
        let ghost before = text@.subrange(pos as int, i as int);
        let digit = (text[i] - DIGIT_ZERO) as u32;
        if value >= 100000 {
            value = 100000;
        } else {
            value = value * 10 + digit;
            if value > 100000 {
                value = 100000;
            }
        }
        i += 1;
        assert(text@.subrange(pos as int, i as int).drop_last() =~= before);
    }
    let ghost field = text@.subrange(pos as int, i as int);
    proof {
        assert forall|n: nat| n < 0x10000 && #[trigger] decimal_at(text@, pos as int, n) implies {
            &&& i == pos + decimal(n).len()
            &&& field == decimal(n)
        } by {
            lemma_decimal_canonical(n);
            let l = pos + decimal(n).len();
            assert forall|k: int| pos <= k < l implies is_digit(#[trigger] text@[k]) by {
                assert(text@[k] == decimal(n)[k - pos]);
            }
            if i < l {
                assert(is_digit(text@[i as int]));
            }
        }
    }
    if i == pos || (text[pos] == DIGIT_ZERO && i - pos > 1) || value >= 0x10000 {
        proof {
            assert forall|n: nat| n < 0x10000 implies !decimal_at(text@, pos as int, n) by {
                if decimal_at(text@, pos as int, n) {
                    lemma_decimal_canonical(n);
                }
            }
        }
        None
    } else {
        proof {
            assert(canonical_digits(field)) by {
                assert(field[0] == text@[pos as int]);
            }
            lemma_canonical_is_decimal(field);
        }
        Some((value as u16, i))
    }
}

proof fn lemma_field_then_split(t: Seq<u8>, p: int, n: nat, sep: u8, rest: Seq<u8>)
    requires
        0 <= p <= t.len(),
        !is_digit(sep),
        t.subrange(p, t.len() as int) == field_then(n, sep, rest),
    ensures
        decimal_at(t, p, n),
        t[p + decimal(n).len()] == sep,
        t.subrange(p + decimal(n).len() + 1, t.len() as int) == rest,
{
    let l = decimal(n).len() as int;
    let f = field_then(n, sep, rest);
    assert(f.len() == t.len() - p);
    assert(t.subrange(p, p + l) =~= f.subrange(0, l));
    assert(f.subrange(0, l) =~= decimal(n));
    assert(t[p + l] == f[l]);
    assert(t.subrange(p + l + 1, t.len() as int) =~= f.subrange(l + 1, f.len() as int));
    assert(f.subrange(l + 1, f.len() as int) =~= rest);
}

proof fn lemma_field_then_join(t: Seq<u8>, p: int, n: nat, sep: u8)
    requires
        decimal_at(t, p, n),
        p + decimal(n).len() < t.len(),
        t[p + decimal(n).len()] == sep,
    ensures
        t.subrange(p, t.len() as int) == field_then(
            n,
            sep,
            t.subrange(p + decimal(n).len() + 1, t.len() as int),
        ),
{
    let l = decimal(n).len() as int;
    assert(t.subrange(p, t.len() as int) =~= field_then(
        n,
        sep,
        t.subrange(p + l + 1, t.len() as int),
    ));
}

/// Reads a number below 65536 in decimal at `pos`, then the separator.
fn read_field_then(text: &[u8], pos: usize, sep: u8) -> (r: Option<(u16, usize)>)
    requires
        pos <= text@.len(),
        !is_digit(sep),
    ensures
        match r {
            Some((n, next)) => {
                &&& pos < next <= text@.len()
                &&& text@.subrange(pos as int, text@.len() as int) == field_then(
                    n as nat,
                    sep,
                    text@.subrange(next as int, text@.len() as int),
                )
                &&& forall|m: nat, rest: Seq<u8>|
                    m < 0x10000 && text@.subrange(pos as int, text@.len() as int) == #[trigger] field_then(m, sep, rest)
                        ==> m == n && rest == text@.subrange(next as int, text@.len() as int)
            },
            None => forall|m: nat, rest: Seq<u8>|
                m < 0x10000 ==> text@.subrange(pos as int, text@.len() as int) != #[trigger] field_then(m, sep, rest),
        },
{
    match read_field(text, pos) {
        Some((n, end)) => {
            if end < text.len() && text[end] == sep {
                proof {
                    lemma_field_then_join(text@, pos as int, n as nat, sep);
                    assert forall|m: nat, rest: Seq<u8>|
                        m < 0x10000 && text@.subrange(pos as int, text@.len() as int) == #[trigger] field_then(m, sep, rest)
                        implies m == n && rest == text@.subrange(end + 1, text@.len() as int) by {
                        lemma_field_then_split(text@, pos as int, m, sep, rest);
                        lemma_decimal_at_unique(text@, pos as int, m, n as nat);
                    }
                }
                Some((n, end + 1))
            } else {
                proof {
                    assert forall|m: nat, rest: Seq<u8>| m < 0x10000 implies text@.subrange(
                        pos as int,
                        text@.len() as int,
                    ) != #[trigger] field_then(m, sep, rest) by {
                        if text@.subrange(pos as int, text@.len() as int) == field_then(m, sep, rest) {
                            lemma_field_then_split(text@, pos as int, m, sep, rest);
                            lemma_decimal_at_unique(text@, pos as int, m, n as nat);
                        }
                    }
                }
                None
            }
        },
        None => {
            proof {
                assert forall|m: nat, rest: Seq<u8>| m < 0x10000 implies text@.subrange(
                    pos as int,
                    text@.len() as int,
                ) != #[trigger] field_then(m, sep, rest) by {
                    if text@.subrange(pos as int, text@.len() as int) == field_then(m, sep, rest) {
                        lemma_field_then_split(text@, pos as int, m, sep, rest);
                    }
                }
            }
            None
        },
    }
}

/// Reads a number below 65536 in decimal that runs from `pos` to the end.
fn read_last_field(text: &[u8], pos: usize) -> (r: Option<u16>)
    requires
        pos <= text@.len(),
    ensures
        match r {
            Some(n) => text@.subrange(pos as int, text@.len() as int) == decimal(n as nat),
            None => forall|m: nat|
                m < 0x10000 ==> text@.subrange(pos as int, text@.len() as int) != #[trigger] decimal(m),
        },
{
    let ghost tail = text@.subrange(pos as int, text@.len() as int);
    proof {
        assert forall|m: nat| #[trigger] decimal(m) == tail implies decimal_at(text@, pos as int, m) by {
            assert(text@.subrange(pos as int, pos + decimal(m).len()) =~= tail);
        }
    }
    match read_field(text, pos) {
        Some((n, end)) => {
            if end == text.len() {
                Some(n)
            } else {
                proof {
                    assert forall|m: nat| m < 0x10000 implies tail != #[trigger] decimal(m) by {
                        if tail == decimal(m) {
                            lemma_decimal_at_unique(text@, pos as int, m, n as nat);
                        }
                    }
                }
                None
            }
        },
        None => None,
    }
}

spec fn tail_d(e: Endpoint) -> Seq<u8> {
    field_then(e.d as nat, COLON, decimal(e.port as nat))
}

spec fn tail_c(e: Endpoint) -> Seq<u8> {
    field_then(e.c as nat, DOT, tail_d(e))
}

spec fn tail_b(e: Endpoint) -> Seq<u8> {
    field_then(e.b as nat, DOT, tail_c(e))
}

proof fn lemma_field_then_injective(n: nat, m: nat, sep: u8, r1: Seq<u8>, r2: Seq<u8>)
    requires
        !is_digit(sep),
        field_then(n, sep, r1) == field_then(m, sep, r2),
    ensures
        n == m,
        r1 == r2,
{
    let t = field_then(n, sep, r1);
    assert(t.subrange(0, t.len() as int) =~= t);
    lemma_field_then_split(t, 0, n, sep, r1);
    lemma_field_then_split(t, 0, m, sep, r2);
    lemma_decimal_at_unique(t, 0, n, m);
}

/// Distinct endpoints have distinct texts.
pub proof fn lemma_endpoint_text_injective(e1: Endpoint, e2: Endpoint)
    requires
        endpoint_text(e1) == endpoint_text(e2),
    ensures
        e1 == e2,
{
    assert(!is_digit(DOT) && !is_digit(COLON));
    lemma_field_then_injective(e1.a as nat, e2.a as nat, DOT, tail_b(e1), tail_b(e2));
    lemma_field_then_injective(e1.b as nat, e2.b as nat, DOT, tail_c(e1), tail_c(e2));
    lemma_field_then_injective(e1.c as nat, e2.c as nat, DOT, tail_d(e1), tail_d(e2));
    lemma_field_then_injective(
        e1.d as nat,
        e2.d as nat,
        COLON,
        decimal(e1.port as nat),
        decimal(e2.port as nat),
    );
    lemma_decimal_canonical(e1.port as nat);
    lemma_decimal_canonical(e2.port as nat);
}

/// Parses the text of an endpoint, `a.b.c.d:port` with each number in
/// plain decimal; nothing else is accepted.
pub fn parse_endpoint(text: &[u8]) -> (r: Option<Endpoint>)
    ensures
        match r {
            Some(e) => text@ == endpoint_text(e),
            None => forall|e: Endpoint| text@ != #[trigger] endpoint_text(e),
        },
{
    let ghost t = text@;
    let ghost len = text@.len() as int;
    assert(t.subrange(0, len) =~= t);
    assert(!is_digit(DOT) && !is_digit(COLON));
    let (a, p1) = match read_field_then(text, 0, DOT) {
        Some(x) => x,
        None => {
            assert forall|e: Endpoint| t != #[trigger] endpoint_text(e) by {
                assert(endpoint_text(e) == field_then(e.a as nat, DOT, tail_b(e)));
            }
            return None;
        },
    };
    assert forall|e: Endpoint| #[trigger] endpoint_text(e) == t implies e.a == a && t.subrange(
        p1 as int,
        len,
    ) == tail_b(e) by {
        assert(endpoint_text(e) == field_then(e.a as nat, DOT, tail_b(e)));
    }
    if a > 255 {
        return None;
    }
    let (b, p2) = match read_field_then(text, p1, DOT) {
        Some(x) => x,
        None => {
            assert forall|e: Endpoint| t != #[trigger] endpoint_text(e) by {
                if t == endpoint_text(e) {
                    assert(t.subrange(p1 as int, len) == field_then(e.b as nat, DOT, tail_c(e)));
                }
            }
            return None;
        },
    };
    assert forall|e: Endpoint| #[trigger] endpoint_text(e) == t implies e.a == a && e.b == b
        && t.subrange(p2 as int, len) == tail_c(e) by {
        assert(t.subrange(p1 as int, len) == field_then(e.b as nat, DOT, tail_c(e)));
    }
    if b > 255 {
        return None;
    }
    let (c, p3) = match read_field_then(text, p2, DOT) {
        Some(x) => x,
        None => {
            assert forall|e: Endpoint| t != #[trigger] endpoint_text(e) by {
                if t == endpoint_text(e) {
                    assert(t.subrange(p2 as int, len) == field_then(e.c as nat, DOT, tail_d(e)));
                }
            }
            return None;
        },
    };
    assert forall|e: Endpoint| #[trigger] endpoint_text(e) == t implies e.a == a && e.b == b
        && e.c == c && t.subrange(p3 as int, len) == tail_d(e) by {
        assert(t.subrange(p2 as int, len) == field_then(e.c as nat, DOT, tail_d(e)));
    }
    if c > 255 {
        return None;
    }
    let (d, p4) = match read_field_then(text, p3, COLON) {
        Some(x) => x,
        None => {
            assert forall|e: Endpoint| t != #[trigger] endpoint_text(e) by {
                if t == endpoint_text(e) {
                    assert(t.subrange(p3 as int, len) == field_then(
                        e.d as nat,
                        COLON,
                        decimal(e.port as nat),
                    ));
                }
            }
            return None;
        },
    };
    assert forall|e: Endpoint| #[trigger] endpoint_text(e) == t implies e.a == a && e.b == b
        && e.c == c && e.d == d && t.subrange(p4 as int, len) == decimal(e.port as nat) by {
        assert(t.subrange(p3 as int, len) == field_then(e.d as nat, COLON, decimal(e.port as nat)));
    }
    if d > 255 {
        return None;
    }
    let port = match read_last_field(text, p4) {
        Some(x) => x,
        None => {
            return None;
        },
    };
    let e = Endpoint { a: a as u8, b: b as u8, c: c as u8, d: d as u8, port };
    assert(t.subrange(p3 as int, len) == tail_d(e));
    assert(t.subrange(p2 as int, len) == tail_c(e));
    assert(t.subrange(p1 as int, len) == tail_b(e));
    Some(e)
}

proof fn lemma_decimal_len(n: nat)
    ensures
        n < 10 ==> decimal(n).len() == 1,
        n < 100 ==> decimal(n).len() <= 2,
        n < 1000 ==> decimal(n).len() <= 3,
        n < 10000 ==> decimal(n).len() <= 4,
        n < 100000 ==> decimal(n).len() <= 5,
    decreases n,
{
    if n >= 10 {
        lemma_decimal_len(n / 10);
    }
}

/// The text of an endpoint fits in a slot with room to spare, and ends in
/// a digit.
pub proof fn lemma_endpoint_text_short(e: Endpoint)
    ensures
        endpoint_text(e).len() <= 21,
        endpoint_text(e).last() != 0,
{
    lemma_decimal_len(e.a as nat);
    lemma_decimal_len(e.b as nat);
    lemma_decimal_len(e.c as nat);
    lemma_decimal_len(e.d as nat);
    lemma_decimal_len(e.port as nat);
    lemma_decimal_canonical(e.port as nat);
    let t = endpoint_text(e);
    assert(t.last() == decimal(e.port as nat).last());
}

proof fn lemma_strip_zeros(text: Seq<u8>, k: nat)
    requires
        text.len() == 0 || text.last() != 0,
    ensures
        without_trailing_zeros(text + Seq::new(k, |i: int| 0u8)) == text,
    decreases k,
{
    let s = text + Seq::new(k, |i: int| 0u8);
    if k == 0 {
        assert(s =~= text);
    } else {
        assert(s.last() == 0);
        assert(s.drop_last() =~= text + Seq::new((k - 1) as nat, |i: int| 0u8));
        lemma_strip_zeros(text, (k - 1) as nat);
    }
}

/// The helper's reply for an endpoint, stripped of its padding, reads back
/// as that endpoint.
pub proof fn lemma_reply_round_trip(e: Endpoint)
    ensures
        padded(endpoint_text(e)).len() == SLOT_LEN,
        without_trailing_zeros(padded(endpoint_text(e))) == endpoint_text(e),
{
    lemma_endpoint_text_short(e);
    let t = endpoint_text(e);
    lemma_strip_zeros(t, (SLOT_LEN - t.len()) as nat);
}

/// `s` cut or zero-padded to a slot of `SLOT_LEN` bytes.
pub fn pad_slot(s: &[u8]) -> (r: Vec<u8>)
    ensures
        r@ == padded(s@),
        r@.len() == SLOT_LEN,
{
    let mut v: Vec<u8> = Vec::with_capacity(SLOT_LEN);
    let mut i: usize = 0;
    while i < SLOT_LEN
        invariant
            i <= SLOT_LEN,
            v@.len() == i,
            forall|k: int| 0 <= k < i ==> #[trigger] v@[k] == padded(s@)[k],
        decreases SLOT_LEN - i,
    {
        if i < s.len() {
            v.push(s[i]);
        } else {
            v.push(0);
        }
        i += 1;
    }
    assert(v@ =~= padded(s@));
    v
}

/// The 200-byte slot in which the helper sends an endpoint: its text,
/// zero-padded.
pub fn format_socket_info(addr: &Endpoint) -> (r: Vec<u8>)
    ensures
        r@ == padded(endpoint_text(*addr)),
        r@.len() == SLOT_LEN,
{
    let text = render_endpoint(addr);
    pad_slot(text.as_slice())
}

/// `s` without its trailing zero bytes.
pub fn strip_trailing_zeros(s: &[u8]) -> (r: Vec<u8>)
    ensures
        r@ == without_trailing_zeros(s@),
{
    let mut n: usize = s.len();
    assert(s@.take(n as int) =~= s@);
    while n > 0 && s[n - 1] == 0
        invariant
            n <= s@.len(),
            without_trailing_zeros(s@.take(n as int)) == without_trailing_zeros(s@),
        decreases n,
    {
        assert(s@.take(n as int).drop_last() =~= s@.take(n - 1));
        n -= 1;
    }
    let mut v: Vec<u8> = Vec::with_capacity(n);
    let mut i: usize = 0;
    while i < n
        invariant
            i <= n <= s@.len(),
            v@ =~= s@.take(i as int),
        decreases n - i,
    {
        v.push(s[i]);
        i += 1;
        assert(v@ =~= s@.take(i as int));
    }
    v
}

/// The partner's endpoint from the helper's reply: trailing zeros are
/// stripped and the rest must be the text of an endpoint.
pub fn parse_partner(reply: &[u8]) -> (r: Option<Endpoint>)
    ensures
        match r {
            Some(e) => without_trailing_zeros(reply@) == endpoint_text(e),
            None => forall|e: Endpoint| without_trailing_zeros(reply@) != #[trigger] endpoint_text(e),
        },
{
    let text = strip_trailing_zeros(reply);
    parse_endpoint(text.as_slice())
}

} // verus!
