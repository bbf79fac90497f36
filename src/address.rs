use vstd::prelude::*;

verus! {

/// A network locator for a socket-based substrate: an IPv4 host `a.b.c.d` and a port.
#[derive(Clone, Copy, Debug, PartialEq, Eq, Hash, Structural)]
pub struct SocketAddress {
    pub a: u8,
    pub b: u8,
    pub c: u8,
    pub d: u8,
    pub port: u16,
}

/// Length of the compact binary form: four host bytes, then the port big-endian.
pub const COMPACT_LEN: usize = 6;

/// The compact binary form of an address.
pub open spec fn compact_of(x: SocketAddress) -> Seq<u8> {
    seq![x.a, x.b, x.c, x.d, (x.port / 256) as u8, (x.port % 256) as u8]
}

/// What a byte string decodes to in the compact form: an address exactly when it
/// holds six bytes.
pub open spec fn compact_decoded(s: Seq<u8>) -> Option<SocketAddress> {
    if s.len() == COMPACT_LEN {
        Some(SocketAddress { a: s[0], b: s[1], c: s[2], d: s[3], port: (s[4] * 256 + s[5]) as u16 })
    } else {
        None
    }
}

impl SocketAddress {
    /// Writes the compact binary form.
    pub fn encode_compact(&self) -> (r: Vec<u8>)
        ensures
            r@ == compact_of(*self),
    {
        let hi: u8 = (self.port / 256) as u8;
        let lo: u8 = (self.port % 256) as u8;
        let r = vec![self.a, self.b, self.c, self.d, hi, lo];
        assert(r@ =~= compact_of(*self));
        r
    }

    /// Reads the compact binary form, rejecting any input that is not six bytes long.
    pub fn decode_compact(bytes: &[u8]) -> (r: Option<SocketAddress>)
        ensures
            r == compact_decoded(bytes@),
    {
        if bytes.len() != COMPACT_LEN {
            return None;
        }
        let port: u16 = (bytes[4] as u16) * 256 + (bytes[5] as u16);
        Some(SocketAddress { a: bytes[0], b: bytes[1], c: bytes[2], d: bytes[3], port })
    }
}

/// Decoding the compact form of any address gives that address back.
pub proof fn lemma_compact_round_trip(x: SocketAddress)
    ensures
        compact_decoded(compact_of(x)) == Some(x),
{
    let p = x.port as int;
    assert((p / 256) * 256 + p % 256 == p) by (nonlinear_arith);
    assert(0 <= p / 256 < 256) by (nonlinear_arith) requires 0 <= p < 65536;
    let s = compact_of(x);
    assert(s[4] * 256 + s[5] == p);
}

/// An ASCII decimal digit.
pub open spec fn is_digit(c: u8) -> bool {
    48 <= c <= 57
}

pub open spec fn all_digits(s: Seq<u8>) -> bool {
    forall|i: int| 0 <= i < s.len() ==> is_digit(#[trigger] s[i])
}

/// The decimal digits of `n`, without leading zeros.
pub open spec fn dec_of(n: nat) -> Seq<u8>
    decreases n,
{
    if n < 10 {
        seq![(48 + n) as u8]
    } else {
        dec_of(n / 10) + seq![(48 + n % 10) as u8]
    }
}

/// The number that a string of digits spells.
pub open spec fn digits_value(s: Seq<u8>) -> nat
    decreases s.len(),
{
    if s.len() == 0 {
        0
    } else {
        digits_value(s.drop_last()) * 10 + (s.last() - 48) as nat
    }
}

/// The human-readable form of an address: `a.b.c.d:port`, in ASCII.
pub open spec fn text_of(x: SocketAddress) -> Seq<u8> {
    dec_of(x.a as nat) + seq![46u8] + dec_of(x.b as nat) + seq![46u8] + dec_of(x.c as nat) + seq![
        46u8,
    ] + dec_of(x.d as nat) + seq![58u8] + dec_of(x.port as nat)
}

/// `s` holds the decimal form of `n` from `start`, and no further digit follows.
pub open spec fn number_at(s: Seq<u8>, start: int, n: nat) -> bool {
    let end = start + dec_of(n).len();
    &&& 0 <= start
    &&& end <= s.len()
    &&& s.subrange(start, end) == dec_of(n)
    &&& (end == s.len() || !is_digit(s[end]))
}

proof fn lemma_dec(n: nat)
    ensures
        dec_of(n).len() >= 1,
        all_digits(dec_of(n)),
        digits_value(dec_of(n)) == n,
    decreases n,
{
    let s = dec_of(n);
    if n >= 10 {
        lemma_dec(n / 10);
        assert(s.drop_last() =~= dec_of(n / 10));
        assert(s.last() == 48 + n % 10);
        assert((n / 10) * 10 + n % 10 == n) by (nonlinear_arith);
        assert(digits_value(s) == digits_value(s.drop_last()) * 10 + (s.last() - 48) as nat);
    } else {
        assert(s.drop_last() =~= Seq::<u8>::empty());
        assert(s.last() == 48 + n);
        assert(digits_value(s) == digits_value(s.drop_last()) * 10 + (s.last() - 48) as nat);
    }
}

/// A prefix of a string of digits spells no larger number than the whole.
proof fn lemma_prefix_value(s: Seq<u8>, k: int)
    requires
        all_digits(s),
        0 <= k <= s.len(),
    ensures
        digits_value(s.take(k)) <= digits_value(s),
    decreases s.len(),
{
    if k < s.len() {
        let t = s.drop_last();
        assert(all_digits(t)) by {
            assert forall|i: int| 0 <= i < t.len() implies is_digit(#[trigger] t[i]) by {
                assert(t[i] == s[i]);
            }
        }
        lemma_prefix_value(t, k);
        assert(t.take(k) =~= s.take(k));
    } else {
        assert(s.take(k) =~= s);
    }
}

/// Where a maximal run of digits from `start` ends against the decimal form of
/// `n` found there.
proof fn lemma_run_end(s: Seq<u8>, start: int, i: int, n: nat)
    requires
        number_at(s, start, n),
        start <= i <= s.len(),
        all_digits(s.subrange(start, i)),
    ensures
        i <= start + dec_of(n).len(),
        i < start + dec_of(n).len() ==> is_digit(s[i]),
        s.subrange(start, i) == dec_of(n).take(i - start),
{
    let l = dec_of(n).len() as int;
    lemma_dec(n);
    if i > start + l {
        assert(s.subrange(start, i)[l] == s[start + l]);
    }
    if i < start + l {
        assert(s.subrange(start, start + l)[i - start] == s[i]);
    }
    assert(s.subrange(start, i) =~= dec_of(n).take(i - start));
}

/// Reads a decimal number of at most `limit` from `start`, as long as digits go
/// on. Where the decimal form of some `n <= limit` stands there, the result is
/// `n` and the position just after it.
fn parse_number(bytes: &[u8], start: usize, limit: u32) -> (r: Option<(u32, usize)>)
    requires
        start <= bytes@.len(),
        limit <= 65535,
    ensures
        r matches Some((v, j)) ==> start < j <= bytes@.len() && v <= limit,
        forall|n: nat|
            number_at(bytes@, start as int, n) && n <= limit ==> r == Some(
                (n as u32, (start + dec_of(n).len()) as usize),
            ),
{
    let mut i: usize = start;
    let mut v: u32 = 0;
    while i < bytes.len() && 48 <= bytes[i] && bytes[i] <= 57
        invariant
            start <= i <= bytes@.len(),
            v <= limit,
            limit <= 65535,
            all_digits(bytes@.subrange(start as int, i as int)),
            v == digits_value(bytes@.subrange(start as int, i as int)),
        decreases bytes@.len() - i,
    {
        let d: u32 = (bytes[i] - 48) as u32;
        let ghost next = bytes@.subrange(start as int, i + 1);
        assert(next.drop_last() =~= bytes@.subrange(start as int, i as int));
        let nv: u32 = v * 10 + d;
        if nv > limit {
            proof {
                assert(all_digits(next));
                assert forall|n: nat| number_at(bytes@, start as int, n) && n <= limit implies false by {
                    lemma_run_end(bytes@, start as int, i + 1, n);
                    lemma_dec(n);
                    lemma_prefix_value(dec_of(n), i + 1 - start);
                }
            }
            return None;
        }
        v = nv;
        i = i + 1;
    }
    if i == start {
        proof {
            assert forall|n: nat| number_at(bytes@, start as int, n) && n <= limit implies false by {
                lemma_dec(n);
                assert(bytes@.subrange(start as int, start + dec_of(n).len())[0] == bytes@[start as int]);
            }
        }
        return None;
    }
    proof {
        assert forall|n: nat| number_at(bytes@, start as int, n) && n <= limit implies i == start
            + dec_of(n).len() && v == n by {
            lemma_run_end(bytes@, start as int, i as int, n);
            lemma_dec(n);
            assert(dec_of(n).take(i - start) =~= dec_of(n));
        }
    }
    Some((v, i))
}

/// Whether two byte strings are equal.
fn same_bytes(p: &[u8], q: &[u8]) -> (r: bool)
    ensures
        r == (p@ == q@),
{
    if p.len() != q.len() {
        return false;
    }
    let mut k: usize = 0;
    while k < p.len()
        invariant
            p@.len() == q@.len(),
            k <= p@.len(),
            forall|j: int| 0 <= j < k ==> p@[j] == q@[j],
        decreases p@.len() - k,
    {
        if p[k] != q[k] {
            assert(p@[k as int] != q@[k as int]);
            return false;
        }
        k = k + 1;
    }
    assert(p@ =~= q@);
    true
}

/// Appends the decimal form of `n`.
fn push_decimal(out: &mut Vec<u8>, n: u16)
    ensures
        final(out)@ == old(out)@ + dec_of(n as nat),
    decreases n,
{
    if n >= 10 {
        push_decimal(out, n / 10);
    }
    out.push(48 + (n % 10) as u8);
    assert(final(out)@ =~= old(out)@ + dec_of(n as nat));
}

/// The address laid out in its human-readable form.
proof fn lemma_text_layout(x: SocketAddress)
    ensures
        ({
            let s = text_of(x);
            let p1: int = dec_of(x.a as nat).len() + 1int;
            let p2: int = p1 + dec_of(x.b as nat).len() + 1;
            let p3: int = p2 + dec_of(x.c as nat).len() + 1;
            let p4: int = p3 + dec_of(x.d as nat).len() + 1;
            &&& number_at(s, 0, x.a as nat)
            &&& s[p1 - 1] == 46
            &&& number_at(s, p1, x.b as nat)
            &&& s[p2 - 1] == 46
            &&& number_at(s, p2, x.c as nat)
            &&& s[p3 - 1] == 46
            &&& number_at(s, p3, x.d as nat)
            &&& s[p4 - 1] == 58
            &&& number_at(s, p4, x.port as nat)
            &&& s.len() == p4 + dec_of(x.port as nat).len()
        }),
{
    let s = text_of(x);
    let da = dec_of(x.a as nat);
    let db = dec_of(x.b as nat);
    let dc = dec_of(x.c as nat);
    let dd = dec_of(x.d as nat);
    let dp = dec_of(x.port as nat);
    let p1: int = da.len() + 1int;
    let p2: int = p1 + db.len() + 1;
    let p3: int = p2 + dc.len() + 1;
    let p4: int = p3 + dd.len() + 1;
    assert(s.subrange(0, da.len() as int) =~= da);
    assert(s.subrange(p1, p1 + db.len()) =~= db);
    assert(s.subrange(p2, p2 + dc.len()) =~= dc);
    assert(s.subrange(p3, p3 + dd.len()) =~= dd);
    assert(s.subrange(p4, p4 + dp.len()) =~= dp);
}

impl SocketAddress {
    /// Writes the human-readable form, `a.b.c.d:port`.
    pub fn encode_text(&self) -> (r: Vec<u8>)
        ensures
            r@ == text_of(*self),
    {
        let mut r: Vec<u8> = Vec::new();
        push_decimal(&mut r, self.a as u16);
        r.push(46);
        push_decimal(&mut r, self.b as u16);
        r.push(46);
        push_decimal(&mut r, self.c as u16);
        r.push(46);
        push_decimal(&mut r, self.d as u16);
        r.push(58);
        push_decimal(&mut r, self.port);
        assert(r@ =~= text_of(*self));
        r
    }

    /// Reads the human-readable form. Only the exact form that `encode_text`
    /// writes is accepted: no leading zeros, no spaces, nothing after the port.
    pub fn decode_text(bytes: &[u8]) -> (r: Option<SocketAddress>)
        ensures
            r == text_decoded(bytes@),
    {
        let ghost target = choose|x: SocketAddress| bytes@ == text_of(x);
        proof {
            if exists|x: SocketAddress| bytes@ == text_of(x) {
                lemma_text_layout(target);
            }
        }
        let (a, i1) = match parse_number(bytes, 0, 255) {
            Some(p) => p,
            None => return None,
        };
        if i1 >= bytes.len() || bytes[i1] != 46 {
            return None;
        }
        let (b, i2) = match parse_number(bytes, i1 + 1, 255) {
            Some(p) => p,
            None => return None,
        };
        if i2 >= bytes.len() || bytes[i2] != 46 {
            return None;
        }
        let (c, i3) = match parse_number(bytes, i2 + 1, 255) {
            Some(p) => p,
            None => return None,
        };
        if i3 >= bytes.len() || bytes[i3] != 46 {
            return None;
        }
        let (d, i4) = match parse_number(bytes, i3 + 1, 255) {
            Some(p) => p,
            None => return None,
        };
        if i4 >= bytes.len() || bytes[i4] != 58 {
            return None;
        }
        let (port, i5) = match parse_number(bytes, i4 + 1, 65535) {
            Some(p) => p,
            None => return None,
        };
        let x = SocketAddress { a: a as u8, b: b as u8, c: c as u8, d: d as u8, port: port as u16 };
        let t = x.encode_text();
        if !same_bytes(t.as_slice(), bytes) {
            return None;
        }
        proof {
            lemma_text_round_trip(x);
        }
        Some(x)
    }
}

/// The decimal form of one number found at a place determines the number.
proof fn lemma_number_unique(s: Seq<u8>, start: int, n: nat, m: nat)
    requires
        number_at(s, start, n),
        number_at(s, start, m),
    ensures
        n == m,
{
    lemma_dec(n);
    lemma_dec(m);
    let ln = dec_of(n).len() as int;
    let lm = dec_of(m).len() as int;
    lemma_run_end(s, start, start + lm, n);
    lemma_run_end(s, start, start + ln, m);
    assert(dec_of(n).take(ln) =~= dec_of(n));
}

/// No two addresses share a human-readable form.
proof fn lemma_text_injective(x: SocketAddress, y: SocketAddress)
    requires
        text_of(x) == text_of(y),
    ensures
        x == y,
{
    lemma_text_layout(x);
    lemma_text_layout(y);
    let s = text_of(x);
    lemma_number_unique(s, 0, x.a as nat, y.a as nat);
    let p1: int = dec_of(x.a as nat).len() + 1int;
    lemma_number_unique(s, p1, x.b as nat, y.b as nat);
    let p2: int = p1 + dec_of(x.b as nat).len() + 1;
    lemma_number_unique(s, p2, x.c as nat, y.c as nat);
    let p3: int = p2 + dec_of(x.c as nat).len() + 1;
    lemma_number_unique(s, p3, x.d as nat, y.d as nat);
    let p4: int = p3 + dec_of(x.d as nat).len() + 1;
    lemma_number_unique(s, p4, x.port as nat, y.port as nat);
}

/// What a byte string decodes to in the human-readable form: the address whose
/// form it is, if there is one.
pub open spec fn text_decoded(s: Seq<u8>) -> Option<SocketAddress> {
    if exists|x: SocketAddress| text_of(x) == s {
        Some(choose|x: SocketAddress| text_of(x) == s)
    } else {
        None
    }
}

/// Decoding the human-readable form of any address gives that address back.
pub proof fn lemma_text_round_trip(x: SocketAddress)
    ensures
        text_decoded(text_of(x)) == Some(x),
{
    let y = choose|y: SocketAddress| text_of(y) == text_of(x);
    lemma_text_injective(x, y);
}

} // verus!
