//! The compact binary encoding of stored documents and indices: lengths as
//! eight little-endian bytes, strings as their UTF-8 bytes after their
//! length, lists as their length and then their items, optional values as a
//! tag byte and then the value.

use vstd::prelude::*;
use crate::ids::PartOfSpeech;
use vstd::utf8::{decode_utf8, encode_utf8, encode_utf8_decode_utf8, encode_utf8_valid_utf8, valid_utf8};

verus! {

/// Little-endian value of a byte sequence.
pub open spec fn le_value(s: Seq<u8>) -> nat
    decreases s.len(),
{
    if s.len() == 0 {
        0
    } else {
        s[0] as nat + 256 * le_value(s.subrange(1, s.len() as int))
    }
}

/// 256 to the power `k`.
pub open spec fn pow256(k: nat) -> nat
    decreases k,
{
    if k == 0 {
        1
    } else {
        256 * pow256((k - 1) as nat)
    }
}

proof fn lemma_pow256_increases(a: nat, b: nat)
    requires
        a <= b,
    ensures
        pow256(a) <= pow256(b),
    decreases b,
{
    if a < b {
        lemma_pow256_increases(a, (b - 1) as nat);
    }
}

/// The `k` lowest little-endian bytes of `n`.
pub open spec fn le_bytes(n: nat, k: nat) -> Seq<u8>
    decreases k,
{
    if k == 0 {
        Seq::empty()
    } else {
        seq![(n % 256) as u8] + le_bytes(n / 256, (k - 1) as nat)
    }
}

/// The encoding of a length.
pub open spec fn enc_len(n: nat) -> Seq<u8> {
    le_bytes(n, 8)
}

/// The length encoded at `pos`, and where it ends.
pub open spec fn dec_len(b: Seq<u8>, pos: int) -> Option<(nat, int)> {
    if 0 <= pos && pos + 8 <= b.len() {
        Some((le_value(b.subrange(pos, pos + 8)), pos + 8))
    } else {
        None
    }
}

proof fn lemma_le_round_trip(n: nat, k: nat)
    requires
        n < pow256(k),
    ensures
        le_bytes(n, k).len() == k,
        le_value(le_bytes(n, k)) == n,
    decreases k,
{
    if k > 0 {
        let p = pow256((k - 1) as nat);
        assert(pow256(k) == 256 * p);
        assert(n / 256 < p) by (nonlinear_arith)
            requires
                n < 256 * p,
        ;
        lemma_le_round_trip(n / 256, (k - 1) as nat);
        let s = le_bytes(n, k);
        assert(s.subrange(1, s.len() as int) =~= le_bytes(n / 256, (k - 1) as nat));
    } else {
        assert(pow256(0) == 1);
    }
}

/// `b` holds `e` from position `pos` on.
pub open spec fn holds_at(b: Seq<u8>, pos: int, e: Seq<u8>) -> bool {
    0 <= pos && pos + e.len() <= b.len() && b.subrange(pos, pos + e.len()) == e
}

proof fn lemma_holds_split(b: Seq<u8>, pos: int, x: Seq<u8>, y: Seq<u8>)
    requires
        holds_at(b, pos, x + y),
    ensures
        holds_at(b, pos, x),
        holds_at(b, pos + x.len(), y),
{
    let whole = b.subrange(pos, pos + (x + y).len());
    assert(whole == x + y);
    assert(b.subrange(pos, pos + x.len()) =~= whole.subrange(0, x.len() as int));
    assert(whole.subrange(0, x.len() as int) =~= x);
    assert(b.subrange(pos + x.len(), pos + x.len() + y.len()) =~= whole.subrange(x.len() as int, whole.len() as int));
    assert(whole.subrange(x.len() as int, whole.len() as int) =~= y);
}

proof fn lemma_len_round_trip(n: nat, b: Seq<u8>, pos: int)
    requires
        n <= usize::MAX,
        holds_at(b, pos, enc_len(n)),
    ensures
        enc_len(n).len() == 8,
        dec_len(b, pos) == Some((n, pos + 8)),
{
    assert(pow256(8) == 0x1_0000_0000_0000_0000) by {
        reveal_with_fuel(pow256, 9);
    }
    lemma_le_round_trip(n, 8);
}

/// Appends the encoding of length `n`.
fn write_len(n: usize, out: &mut Vec<u8>)
    ensures
        final(out)@ == old(out)@ + enc_len(n as nat),
{
    let ghost start = out@;
    let mut x: u64 = n as u64;
    let mut i: usize = 0;
    assert(out@ + le_bytes(x as nat, 8) =~= start + enc_len(n as nat));
    while i < 8
        invariant
            i <= 8,
            out@ + le_bytes(x as nat, (8 - i) as nat) == start + enc_len(n as nat),
        decreases 8 - i,
    {
        let ghost rest = le_bytes(x as nat, (8 - i) as nat);
        assert(rest == seq![(x as nat % 256) as u8] + le_bytes(x as nat / 256, (8 - i - 1) as nat));
        out.push((x % 256) as u8);
        x = x / 256;
        i = i + 1;
        assert(out@ + le_bytes(x as nat, (8 - i) as nat) =~= start + enc_len(n as nat));
    }
    assert(out@ + le_bytes(x as nat, 0) =~= out@);
}

/// Reads the length encoded at `pos`.
fn read_len(b: &Vec<u8>, pos: usize) -> (r: Option<(u64, usize)>)
    ensures
        match dec_len(b@, pos as int) {
            Some((n, p)) => r matches Some((m, q)) && m as nat == n && q as int == p,
            None => r is None,
        },
{
    let blen = b.len();
    if pos > blen || blen - pos < 8 {
        return None;
    }
    let ghost s = b@.subrange(pos as int, pos + 8);
    let mut v: u64 = 0;
    let mut i: usize = 8;
    assert(pow256(0) == 1);
    assert(s.subrange(8, 8) =~= Seq::<u8>::empty());
    while i > 0
        invariant
            i <= 8,
            pos + 8 <= b@.len(),
            blen == b@.len(),
            s == b@.subrange(pos as int, pos + 8),
            v as nat == le_value(s.subrange(i as int, 8)),
            (v as int) < pow256((8 - i) as nat),
        decreases i,
    {
        i = i - 1;
        let byte = b[pos + i];
        let ghost t = s.subrange(i as int, 8);
        assert(t.subrange(1, t.len() as int) =~= s.subrange(i + 1, 8));
        assert(t[0] == byte);
        let ghost p = pow256((8 - i - 1) as nat);
        assert(pow256((8 - i) as nat) == 256 * p);
        assert(p <= pow256(7)) by {
            lemma_pow256_increases((8 - i - 1) as nat, 7);
        }
        assert(pow256(7) == 0x1_0000_0000_0000_00) by {
            reveal_with_fuel(pow256, 8);
        }
        assert((v as int) * 256 + (byte as int) < 256 * p) by (nonlinear_arith)
            requires
                (v as int) < p,
                (byte as int) < 256,
        ;
        v = v * 256 + byte as u64;
    }
    assert(s.subrange(0, 8) =~= s);
    Some((v, pos + 8))
}

/// Values with a binary encoding that decodes back to the same value.
pub trait Codec: DeepView + Sized {
    /// The encoding of a value.
    spec fn enc(v: Self::V) -> Seq<u8>;

    /// The value encoded at `pos` of `b`, and where its encoding ends.
    spec fn dec(b: Seq<u8>, pos: int) -> Option<(Self::V, int)>;

    /// The value is small enough to have been held in memory.
    spec fn fits(v: Self::V) -> bool;

    /// Decoding reads back what encoding wrote, whatever follows it.
    proof fn lemma_round_trip(v: Self::V, b: Seq<u8>, pos: int)
        requires
            Self::fits(v),
            holds_at(b, pos, Self::enc(v)),
        ensures
            Self::dec(b, pos) == Some((v, pos + Self::enc(v).len())),
    ;

    /// Appends the encoding of the value.
    fn write(&self, out: &mut Vec<u8>)
        ensures
            final(out)@ == old(out)@ + Self::enc(self.deep_view()),
            Self::fits(self.deep_view()),
    ;

    /// Decodes a value at `pos`.
    fn read(b: &Vec<u8>, pos: usize) -> (r: Option<(Self, usize)>)
        ensures
            match Self::dec(b@, pos as int) {
                Some((v, p)) => r matches Some((x, q)) && x.deep_view() == v && q as int == p,
                None => r is None,
            },
            r matches Some((x, q)) ==> pos <= q <= b@.len(),
    ;
}

/// Relies on `String::from_utf8`: it accepts exactly the byte sequences that
/// are valid UTF-8, and the string it returns holds those bytes.
#[verifier::external_body]
fn utf8_string(bytes: Vec<u8>) -> (r: Option<String>)
    ensures
        match r {
            Some(s) => valid_utf8(bytes@) && encode_utf8(s@) == bytes@,
            None => !valid_utf8(bytes@),
        },
{
    String::from_utf8(bytes).ok()
}

impl Codec for String {
    open spec fn enc(v: Seq<char>) -> Seq<u8> {
        enc_len(encode_utf8(v).len()) + encode_utf8(v)
    }

    open spec fn dec(b: Seq<u8>, pos: int) -> Option<(Seq<char>, int)> {
        match dec_len(b, pos) {
            Some((n, p)) => if p + n <= b.len() && valid_utf8(b.subrange(p, p + n)) {
                Some((decode_utf8(b.subrange(p, p + n)), p + n))
            } else {
                None
            },
            None => None,
        }
    }

    open spec fn fits(v: Seq<char>) -> bool {
        encode_utf8(v).len() <= usize::MAX
    }

    proof fn lemma_round_trip(v: Seq<char>, b: Seq<u8>, pos: int) {
        let u = encode_utf8(v);
        lemma_holds_split(b, pos, enc_len(u.len()), u);
        lemma_len_round_trip(u.len(), b, pos);
        encode_utf8_valid_utf8(v);
        encode_utf8_decode_utf8(v);
    }

    fn write(&self, out: &mut Vec<u8>) {
        let bytes = self.as_str().as_bytes();
        let ghost start = out@;
        write_len(bytes.len(), out);
        let ghost mid = out@;
        let mut i: usize = 0;
        while i < bytes.len()
            invariant
                i <= bytes@.len(),
                bytes@ == encode_utf8(self@),
                out@ == mid + bytes@.subrange(0, i as int),
            decreases bytes@.len() - i,
        {
            out.push(bytes[i]);
            i = i + 1;
            assert(out@ =~= mid + bytes@.subrange(0, i as int));
        }
        assert(bytes@.subrange(0, i as int) =~= bytes@);
        assert(out@ =~= start + Self::enc(self.deep_view()));
    }

    fn read(b: &Vec<u8>, pos: usize) -> (r: Option<(String, usize)>) {
        match read_len(b, pos) {
            Some((n, p)) => {
                if n > (b.len() - p) as u64 {
                    return None;
                }
                let end = p + n as usize;
                let mut bytes: Vec<u8> = Vec::new();
                let mut i = p;
                while i < end
                    invariant
                        p <= i <= end <= b@.len(),
                        bytes@ == b@.subrange(p as int, i as int),
                    decreases end - i,
                {
                    bytes.push(b[i]);
                    i = i + 1;
                    assert(bytes@ =~= b@.subrange(p as int, i as int));
                }
                match utf8_string(bytes) {
                    Some(s) => {
                        proof {
                            encode_utf8_decode_utf8(s@);
                        }
                        Some((s, end))
                    },
                    None => None,
                }
            },
            None => None,
        }
    }
}


/// The encodings of the items of `v`, one after another.
pub open spec fn enc_items<T: Codec>(v: Seq<T::V>) -> Seq<u8>
    decreases v.len(),
{
    if v.len() == 0 {
        Seq::empty()
    } else {
        T::enc(v[0]) + enc_items::<T>(v.subrange(1, v.len() as int))
    }
}

/// The `n` items encoded one after another from `pos`, and where they end.
pub open spec fn dec_items<T: Codec>(b: Seq<u8>, pos: int, n: nat) -> Option<(Seq<T::V>, int)>
    decreases n,
{
    if n == 0 {
        Some((Seq::empty(), pos))
    } else {
        match T::dec(b, pos) {
            Some((x, p)) => match dec_items::<T>(b, p, (n - 1) as nat) {
                Some((xs, q)) => Some((seq![x] + xs, q)),
                None => None,
            },
            None => None,
        }
    }
}

/// `xs` put in front of what `o` decoded.
pub open spec fn prepend<A>(xs: Seq<A>, o: Option<(Seq<A>, int)>) -> Option<(Seq<A>, int)> {
    match o {
        Some((ys, q)) => Some((xs + ys, q)),
        None => None,
    }
}

proof fn lemma_enc_items_push<T: Codec>(v: Seq<T::V>, x: T::V)
    ensures
        enc_items::<T>(v.push(x)) == enc_items::<T>(v) + T::enc(x),
    decreases v.len(),
{
    if v.len() == 0 {
        assert(v.push(x).subrange(1, 1) =~= Seq::<T::V>::empty());
        assert(v.push(x)[0] == x);
        assert(enc_items::<T>(Seq::<T::V>::empty()) == Seq::<u8>::empty());
        assert(v =~= Seq::<T::V>::empty());
        assert(enc_items::<T>(v.push(x)) =~= T::enc(x));
    } else {
        let rest = v.subrange(1, v.len() as int);
        lemma_enc_items_push::<T>(rest, x);
        assert(v.push(x).subrange(1, v.len() as int + 1) =~= rest.push(x));
        assert(enc_items::<T>(v.push(x)) =~= enc_items::<T>(v) + T::enc(x));
    }
}

proof fn lemma_items_round_trip<T: Codec>(v: Seq<T::V>, b: Seq<u8>, pos: int)
    requires
        forall|i: int| 0 <= i < v.len() ==> T::fits(#[trigger] v[i]),
        holds_at(b, pos, enc_items::<T>(v)),
    ensures
        dec_items::<T>(b, pos, v.len()) == Some((v, pos + enc_items::<T>(v).len())),
    decreases v.len(),
{
    if v.len() > 0 {
        let rest = v.subrange(1, v.len() as int);
        lemma_holds_split(b, pos, T::enc(v[0]), enc_items::<T>(rest));
        T::lemma_round_trip(v[0], b, pos);
        assert forall|i: int| 0 <= i < rest.len() implies T::fits(#[trigger] rest[i]) by {
            assert(rest[i] == v[i + 1]);
        }
        lemma_items_round_trip::<T>(rest, b, pos + T::enc(v[0]).len());
        assert(seq![v[0]] + rest =~= v);
    }
}

impl<T: Codec> Codec for Vec<T> {
    open spec fn enc(v: Seq<T::V>) -> Seq<u8> {
        enc_len(v.len()) + enc_items::<T>(v)
    }

    open spec fn dec(b: Seq<u8>, pos: int) -> Option<(Seq<T::V>, int)> {
        match dec_len(b, pos) {
            Some((n, p)) => dec_items::<T>(b, p, n),
            None => None,
        }
    }

    open spec fn fits(v: Seq<T::V>) -> bool {
        v.len() <= usize::MAX && forall|i: int| 0 <= i < v.len() ==> T::fits(#[trigger] v[i])
    }

    proof fn lemma_round_trip(v: Seq<T::V>, b: Seq<u8>, pos: int) {
        lemma_holds_split(b, pos, enc_len(v.len()), enc_items::<T>(v));
        lemma_len_round_trip(v.len(), b, pos);
        lemma_items_round_trip::<T>(v, b, pos + 8);
    }

    fn write(&self, out: &mut Vec<u8>) {
        let ghost start = out@;
        let ghost dv = self.deep_view();
        write_len(self.len(), out);
        let ghost mid = out@;
        let mut i: usize = 0;
        assert(dv.take(0) =~= Seq::<T::V>::empty());
        while i < self.len()
            invariant
                i <= self@.len(),
                dv == self.deep_view(),
                out@ == mid + enc_items::<T>(dv.take(i as int)),
                forall|j: int| 0 <= j < i ==> T::fits(#[trigger] dv[j]),
            decreases self@.len() - i,
        {
            self[i].write(out);
            proof {
                lemma_enc_items_push::<T>(dv.take(i as int), dv[i as int]);
                assert(dv.take(i + 1) =~= dv.take(i as int).push(dv[i as int]));
            }
            i = i + 1;
        }
        assert(dv.take(i as int) =~= dv);
    }

    fn read(b: &Vec<u8>, pos: usize) -> (r: Option<(Vec<T>, usize)>) {
        match read_len(b, pos) {
            Some((n, p0)) => {
                let mut items: Vec<T> = Vec::new();
                let mut p = p0;
                let mut i: u64 = 0;
                assert(items.deep_view() =~= Seq::<T::V>::empty());
                assert(dec_items::<T>(b@, p0 as int, n as nat) =~~= prepend(items.deep_view(), dec_items::<T>(b@, p as int, (n - i) as nat)));
                while i < n
                    invariant
                        i <= n,
                        pos <= p0 <= p <= b@.len(),
                        dec_len(b@, pos as int) == Some((n as nat, p0 as int)),
                        dec_items::<T>(b@, p0 as int, n as nat) == prepend(items.deep_view(), dec_items::<T>(b@, p as int, (n - i) as nat)),
                    decreases n - i,
                {
                    match T::read(b, p) {
                        Some((x, q)) => {
                            let ghost before = items.deep_view();
                            items.push(x);
                            assert(items.deep_view() =~= before + seq![x.deep_view()]);
                            assert(before + (seq![x.deep_view()] + Seq::<T::V>::empty()) =~= items.deep_view() + Seq::<T::V>::empty());
                            proof {
                                let d = dec_items::<T>(b@, q as int, (n - i - 1) as nat);
                                match d {
                                    Some((ys, e)) => {
                                        assert(before + (seq![x.deep_view()] + ys) =~= items.deep_view() + ys);
                                    },
                                    None => {},
                                }
                            }
                            p = q;
                        },
                        None => {
                            assert(dec_items::<T>(b@, p as int, (n - i) as nat) is None);
                            return None;
                        },
                    }
                    i = i + 1;
                }
                assert(items.deep_view() + Seq::<T::V>::empty() =~= items.deep_view());
                Some((items, p))
            },
            None => None,
        }
    }
}

impl<T: Codec> Codec for Option<T> {
    open spec fn enc(v: Option<T::V>) -> Seq<u8> {
        match v {
            None => seq![0u8],
            Some(x) => seq![1u8] + T::enc(x),
        }
    }

    open spec fn dec(b: Seq<u8>, pos: int) -> Option<(Option<T::V>, int)> {
        if 0 <= pos < b.len() {
            if b[pos] == 0 {
                Some((None, pos + 1))
            } else if b[pos] == 1 {
                match T::dec(b, pos + 1) {
                    Some((x, p)) => Some((Some(x), p)),
                    None => None,
                }
            } else {
                None
            }
        } else {
            None
        }
    }

    open spec fn fits(v: Option<T::V>) -> bool {
        match v {
            None => true,
            Some(x) => T::fits(x),
        }
    }

    proof fn lemma_round_trip(v: Option<T::V>, b: Seq<u8>, pos: int) {
        match v {
            None => {
                assert(b.subrange(pos, pos + 1)[0] == b[pos]);
            },
            Some(x) => {
                lemma_holds_split(b, pos, seq![1u8], T::enc(x));
                assert(b.subrange(pos, pos + 1)[0] == b[pos]);
                T::lemma_round_trip(x, b, pos + 1);
            },
        }
    }

    fn write(&self, out: &mut Vec<u8>) {
        match self {
            None => {
                out.push(0u8);
            },
            Some(x) => {
                out.push(1u8);
                let ghost mid = out@;
                x.write(out);
                assert(out@ =~= old(out)@ + Self::enc(self.deep_view()));
            },
        }
    }

    fn read(b: &Vec<u8>, pos: usize) -> (r: Option<(Option<T>, usize)>) {
        if pos >= b.len() {
            return None;
        }
        let tag = b[pos];
        if tag == 0 {
            Some((None, pos + 1))
        } else if tag == 1 {
            match T::read(b, pos + 1) {
                Some((x, p)) => Some((Some(x), p)),
                None => None,
            }
        } else {
            None
        }
    }
}

impl<A: Codec, B: Codec> Codec for (A, B) {
    open spec fn enc(v: (A::V, B::V)) -> Seq<u8> {
        A::enc(v.0) + B::enc(v.1)
    }

    open spec fn dec(b: Seq<u8>, pos: int) -> Option<((A::V, B::V), int)> {
        match A::dec(b, pos) {
            Some((x, p)) => match B::dec(b, p) {
                Some((y, q)) => Some(((x, y), q)),
                None => None,
            },
            None => None,
        }
    }

    open spec fn fits(v: (A::V, B::V)) -> bool {
        A::fits(v.0) && B::fits(v.1)
    }

    proof fn lemma_round_trip(v: (A::V, B::V), b: Seq<u8>, pos: int) {
        lemma_holds_split(b, pos, A::enc(v.0), B::enc(v.1));
        A::lemma_round_trip(v.0, b, pos);
        B::lemma_round_trip(v.1, b, pos + A::enc(v.0).len());
    }

    fn write(&self, out: &mut Vec<u8>) {
        self.0.write(out);
        self.1.write(out);
        assert(out@ =~= old(out)@ + Self::enc(self.deep_view()));
    }

    fn read(b: &Vec<u8>, pos: usize) -> (r: Option<((A, B), usize)>) {
        match A::read(b, pos) {
            Some((x, p)) => match B::read(b, p) {
                Some((y, q)) => Some(((x, y), q)),
                None => None,
            },
            None => None,
        }
    }
}

impl<A: Codec, B: Codec, C: Codec> Codec for (A, B, C) {
    open spec fn enc(v: (A::V, B::V, C::V)) -> Seq<u8> {
        A::enc(v.0) + (B::enc(v.1) + C::enc(v.2))
    }

    open spec fn dec(b: Seq<u8>, pos: int) -> Option<((A::V, B::V, C::V), int)> {
        match A::dec(b, pos) {
            Some((x, p)) => match B::dec(b, p) {
                Some((y, q)) => match C::dec(b, q) {
                    Some((z, e)) => Some(((x, y, z), e)),
                    None => None,
                },
                None => None,
            },
            None => None,
        }
    }

    open spec fn fits(v: (A::V, B::V, C::V)) -> bool {
        A::fits(v.0) && B::fits(v.1) && C::fits(v.2)
    }

    proof fn lemma_round_trip(v: (A::V, B::V, C::V), b: Seq<u8>, pos: int) {
        lemma_holds_split(b, pos, A::enc(v.0), B::enc(v.1) + C::enc(v.2));
        A::lemma_round_trip(v.0, b, pos);
        let p = pos + A::enc(v.0).len();
        lemma_holds_split(b, p, B::enc(v.1), C::enc(v.2));
        B::lemma_round_trip(v.1, b, p);
        C::lemma_round_trip(v.2, b, p + B::enc(v.1).len());
    }

    fn write(&self, out: &mut Vec<u8>) {
        self.0.write(out);
        self.1.write(out);
        self.2.write(out);
        assert(out@ =~= old(out)@ + Self::enc(self.deep_view()));
    }

    fn read(b: &Vec<u8>, pos: usize) -> (r: Option<((A, B, C), usize)>) {
        match A::read(b, pos) {
            Some((x, p)) => match B::read(b, p) {
                Some((y, q)) => match C::read(b, q) {
                    Some((z, e)) => Some(((x, y, z), e)),
                    None => None,
                },
                None => None,
            },
            None => None,
        }
    }
}

impl Codec for u32 {
    open spec fn enc(v: u32) -> Seq<u8> {
        enc_len(v as nat)
    }

    open spec fn dec(b: Seq<u8>, pos: int) -> Option<(u32, int)> {
        match dec_len(b, pos) {
            Some((n, p)) => if n <= u32::MAX {
                Some((n as u32, p))
            } else {
                None
            },
            None => None,
        }
    }

    open spec fn fits(v: u32) -> bool {
        true
    }

    proof fn lemma_round_trip(v: u32, b: Seq<u8>, pos: int) {
        lemma_len_round_trip(v as nat, b, pos);
    }

    fn write(&self, out: &mut Vec<u8>) {
        write_len(*self as usize, out);
    }

    fn read(b: &Vec<u8>, pos: usize) -> (r: Option<(u32, usize)>) {
        match read_len(b, pos) {
            Some((n, p)) => if n <= u32::MAX as u64 {
                Some((n as u32, p))
            } else {
                None
            },
            None => None,
        }
    }
}

impl DeepView for PartOfSpeech {
    type V = PartOfSpeech;

    open spec fn deep_view(&self) -> PartOfSpeech {
        *self
    }
}

/// The byte that stands for a category.
pub open spec fn pos_byte(p: PartOfSpeech) -> u8 {
    match p {
        PartOfSpeech::n => 0,
        PartOfSpeech::v => 1,
        PartOfSpeech::a => 2,
        PartOfSpeech::r => 3,
        PartOfSpeech::s => 4,
    }
}

/// The category that a byte stands for.
pub open spec fn pos_of_byte(x: u8) -> Option<PartOfSpeech> {
    if x == 0 {
        Some(PartOfSpeech::n)
    } else if x == 1 {
        Some(PartOfSpeech::v)
    } else if x == 2 {
        Some(PartOfSpeech::a)
    } else if x == 3 {
        Some(PartOfSpeech::r)
    } else if x == 4 {
        Some(PartOfSpeech::s)
    } else {
        None
    }
}

impl Codec for PartOfSpeech {
    open spec fn enc(c: PartOfSpeech) -> Seq<u8> {
        seq![pos_byte(c)]
    }

    open spec fn dec(b: Seq<u8>, pos: int) -> Option<(PartOfSpeech, int)> {
        if 0 <= pos < b.len() {
            match pos_of_byte(b[pos]) {
                Some(p) => Some((p, pos + 1)),
                None => None,
            }
        } else {
            None
        }
    }

    open spec fn fits(c: PartOfSpeech) -> bool {
        true
    }

    proof fn lemma_round_trip(c: PartOfSpeech, b: Seq<u8>, pos: int) {
        assert(b.subrange(pos, pos + 1)[0] == b[pos]);
    }

    fn write(&self, out: &mut Vec<u8>) {
        let x: u8 = match *self {
            PartOfSpeech::n => 0,
            PartOfSpeech::v => 1,
            PartOfSpeech::a => 2,
            PartOfSpeech::r => 3,
            PartOfSpeech::s => 4,
        };
        out.push(x);
    }

    fn read(b: &Vec<u8>, pos: usize) -> (r: Option<(PartOfSpeech, usize)>) {
        if pos >= b.len() {
            return None;
        }
        let p = match b[pos] {
            0 => PartOfSpeech::n,
            1 => PartOfSpeech::v,
            2 => PartOfSpeech::a,
            3 => PartOfSpeech::r,
            4 => PartOfSpeech::s,
            _ => {
                return None;
            },
        };
        Some((p, pos + 1))
    }
}

} // verus!
