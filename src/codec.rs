//! A byte encoding of analysis records, and a parser that reads back exactly
//! what the encoder wrote.
use crate::types::{
    ClarityName, ContractAnalysis, FunctionEntry, FunctionType, MapEntry, QualifiedContractIdentifier,
    TraitDefinition, TraitIdentifier, TypeSignature,
};
use crate::types::bytes_equal;
use vstd::prelude::*;

verus! {

/// The bytes `e` stand in `b` from position `pos` on.
pub open spec fn encodes_at(b: Seq<u8>, pos: int, e: Seq<u8>) -> bool {
    0 <= pos && pos + e.len() <= b.len() && b.subrange(pos, pos + e.len()) == e
}

proof fn lemma_encodes_at_split(b: Seq<u8>, pos: int, e1: Seq<u8>, e2: Seq<u8>)
    requires
        encodes_at(b, pos, e1 + e2),
    ensures
        encodes_at(b, pos, e1),
        encodes_at(b, pos + e1.len(), e2),
{
    let e = e1 + e2;
    assert(b.subrange(pos, pos + e.len()) == e);
    assert(b.subrange(pos, pos + e1.len()) =~= e.subrange(0, e1.len() as int));
    assert(e.subrange(0, e1.len() as int) =~= e1);
    assert(b.subrange(pos + e1.len(), pos + e1.len() + e2.len()) =~= e.subrange(
        e1.len() as int,
        e.len() as int,
    ));
    assert(e.subrange(e1.len() as int, e.len() as int) =~= e2);
}

/// Eight bytes, least significant first.
pub open spec fn enc_u64(n: u64) -> Seq<u8> {
    seq![
        (n & 0xff) as u8,
        ((n >> 8u64) & 0xff) as u8,
        ((n >> 16u64) & 0xff) as u8,
        ((n >> 24u64) & 0xff) as u8,
        ((n >> 32u64) & 0xff) as u8,
        ((n >> 40u64) & 0xff) as u8,
        ((n >> 48u64) & 0xff) as u8,
        ((n >> 56u64) & 0xff) as u8,
    ]
}

proof fn lemma_u64_bytes(n: u64)
    ensures
        (((n & 0xff) as u8) as u64) | ((((n >> 8u64) & 0xff) as u8) as u64) << 8u64 | ((((n
            >> 16u64) & 0xff) as u8) as u64) << 16u64 | ((((n >> 24u64) & 0xff) as u8) as u64)
            << 24u64 | ((((n >> 32u64) & 0xff) as u8) as u64) << 32u64 | ((((n >> 40u64) & 0xff)
            as u8) as u64) << 40u64 | ((((n >> 48u64) & 0xff) as u8) as u64) << 48u64 | ((((n
            >> 56u64) & 0xff) as u8) as u64) << 56u64 == n,
{
    assert((((n & 0xff) as u8) as u64) | ((((n >> 8u64) & 0xff) as u8) as u64) << 8u64 | ((((n
        >> 16u64) & 0xff) as u8) as u64) << 16u64 | ((((n >> 24u64) & 0xff) as u8) as u64)
        << 24u64 | ((((n >> 32u64) & 0xff) as u8) as u64) << 32u64 | ((((n >> 40u64) & 0xff)
        as u8) as u64) << 40u64 | ((((n >> 48u64) & 0xff) as u8) as u64) << 48u64 | ((((n
        >> 56u64) & 0xff) as u8) as u64) << 56u64 == n) by (bit_vector);
}

/// Appends the eight bytes of `n`.
pub fn encode_u64(n: u64, out: &mut Vec<u8>)
    ensures
        final(out)@ == old(out)@ + enc_u64(n),
{
    out.push((n & 0xff) as u8);
    out.push(((n >> 8u64) & 0xff) as u8);
    out.push(((n >> 16u64) & 0xff) as u8);
    out.push(((n >> 24u64) & 0xff) as u8);
    out.push(((n >> 32u64) & 0xff) as u8);
    out.push(((n >> 40u64) & 0xff) as u8);
    out.push(((n >> 48u64) & 0xff) as u8);
    out.push(((n >> 56u64) & 0xff) as u8);
    assert(final(out)@ =~= old(out)@ + enc_u64(n));
}

/// Reads eight bytes at `pos` as an integer, least significant first.
pub fn parse_u64(buf: &Vec<u8>, pos: usize) -> (r: Option<(u64, usize)>)
    ensures
        forall|n: u64| #[trigger]
            encodes_at(buf@, pos as int, enc_u64(n)) ==> r == Some((n, (pos + 8) as usize)),
        r matches Some((_, p)) ==> p == pos + 8,
        r is None <==> pos + 8 > buf@.len(),
{
    if pos > buf.len() || buf.len() - pos < 8 {
        return None;
    }
    let n: u64 = (buf[pos] as u64) | (buf[pos + 1] as u64) << 8u64 | (buf[pos + 2] as u64)
        << 16u64 | (buf[pos + 3] as u64) << 24u64 | (buf[pos + 4] as u64) << 32u64 | (buf[pos
        + 5] as u64) << 40u64 | (buf[pos + 6] as u64) << 48u64 | (buf[pos + 7] as u64) << 56u64;
    assert forall|m: u64| #[trigger] encodes_at(buf@, pos as int, enc_u64(m)) implies n == m by {
        let e = enc_u64(m);
        assert(buf@.subrange(pos as int, pos + 8) == e);
        assert forall|k: int| 0 <= k < 8 implies buf@[pos + k] == e[k] by {
            assert(buf@.subrange(pos as int, pos + 8)[k] == buf@[pos + k]);
        }
        lemma_u64_bytes(m);
    }
    Some((n, pos + 8))
}

/// A byte sequence prefixed by its length.
pub open spec fn enc_bytes(b: Seq<u8>) -> Seq<u8> {
    enc_u64(b.len() as u64) + b
}

/// A value that can be written as bytes and read back.
pub trait Codec: Sized {
    /// What a value means; the encoding depends on it alone.
    type M;

    spec fn model(&self) -> Self::M;

    spec fn enc(m: Self::M) -> Seq<u8>;

    /// Appends the encoding of this value.
    fn encode(&self, out: &mut Vec<u8>)
        ensures
            final(out)@ == old(out)@ + Self::enc(self.model()),
    ;

    /// Reads a value at `pos`; wherever an encoding stands there, it gives
    /// back the value encoded and the position right after it.
    fn parse(buf: &Vec<u8>, pos: usize) -> (r: Option<(Self, usize)>)
        ensures
            forall|m: Self::M| #[trigger]
                encodes_at(buf@, pos as int, Self::enc(m)) ==> (r matches Some((v, p)) && v.model()
                    == m && p == pos + Self::enc(m).len()),
    ;

    proof fn lemma_enc_nonempty(m: Self::M)
        ensures
            Self::enc(m).len() >= 1,
    ;

    /// No encoding is a proper prefix of another, and no two values share
    /// one.
    proof fn lemma_enc_injective(m1: Self::M, m2: Self::M, r1: Seq<u8>, r2: Seq<u8>)
        requires
            Self::enc(m1) + r1 == Self::enc(m2) + r2,
            (Self::enc(m1) + r1).len() <= u64::MAX,
        ensures
            m1 == m2,
            r1 == r2,
    ;
}

proof fn lemma_split_equal(x1: Seq<u8>, y1: Seq<u8>, x2: Seq<u8>, y2: Seq<u8>)
    requires
        x1 + y1 == x2 + y2,
        x1.len() == x2.len(),
    ensures
        x1 == x2,
        y1 == y2,
{
    assert(x1 =~= (x1 + y1).subrange(0, x1.len() as int));
    assert(x2 =~= (x2 + y2).subrange(0, x2.len() as int));
    assert(y1 =~= (x1 + y1).subrange(x1.len() as int, (x1 + y1).len() as int));
    assert(y2 =~= (x2 + y2).subrange(x2.len() as int, (x2 + y2).len() as int));
}

proof fn lemma_u64_injective(a: u64, b: u64)
    requires
        enc_u64(a) == enc_u64(b),
    ensures
        a == b,
{
    lemma_u64_bytes(a);
    lemma_u64_bytes(b);
    assert(enc_u64(a)[0] == enc_u64(b)[0]);
    assert(enc_u64(a)[1] == enc_u64(b)[1]);
    assert(enc_u64(a)[2] == enc_u64(b)[2]);
    assert(enc_u64(a)[3] == enc_u64(b)[3]);
    assert(enc_u64(a)[4] == enc_u64(b)[4]);
    assert(enc_u64(a)[5] == enc_u64(b)[5]);
    assert(enc_u64(a)[6] == enc_u64(b)[6]);
    assert(enc_u64(a)[7] == enc_u64(b)[7]);
}

impl Codec for ClarityName {
    type M = Seq<u8>;

    open spec fn model(&self) -> Seq<u8> {
        self@
    }

    open spec fn enc(m: Seq<u8>) -> Seq<u8> {
        enc_bytes(m)
    }

    fn encode(&self, out: &mut Vec<u8>) {
        encode_u64(self.bytes.len() as u64, out);
        let mut i: usize = 0;
        let ghost start = out@;
        while i < self.bytes.len()
            invariant
                i <= self.bytes.len(),
                out@ == start + self.bytes@.take(i as int),
            decreases self.bytes.len() - i,
        {
            out.push(self.bytes[i]);
            i = i + 1;
            assert(out@ =~= start + self.bytes@.take(i as int));
        }
        assert(self.bytes@.take(i as int) =~= self.bytes@);
        assert(out@ =~= old(out)@ + Self::enc(self.model()));
    }

    fn parse(buf: &Vec<u8>, pos: usize) -> (r: Option<(Self, usize)>) {
        proof {
            assert forall|m: Seq<u8>| #[trigger]
                encodes_at(buf@, pos as int, Self::enc(m)) implies encodes_at(
                buf@,
                pos as int,
                enc_u64(m.len() as u64),
            ) && encodes_at(buf@, pos + 8, m) by {
                lemma_encodes_at_split(buf@, pos as int, enc_u64(m.len() as u64), m);
            }
        }
        let (n, p) = match parse_u64(buf, pos) {
            Some(x) => x,
            None => return None,
        };
        if p > buf.len() || ((buf.len() - p) as u64) < n {
            return None;
        }
        let end: usize = p + n as usize;
        let mut bytes: Vec<u8> = Vec::new();
        let mut i: usize = p;
        while i < end
            invariant
                p <= i <= end <= buf.len(),
                bytes@ == buf@.subrange(p as int, i as int),
            decreases end - i,
        {
            bytes.push(buf[i]);
            i = i + 1;
            assert(bytes@ =~= buf@.subrange(p as int, i as int));
        }
        Some((ClarityName { bytes }, end))
    }

    proof fn lemma_enc_nonempty(m: Seq<u8>) {
    }

    proof fn lemma_enc_injective(m1: Seq<u8>, m2: Seq<u8>, r1: Seq<u8>, r2: Seq<u8>) {
        let a1 = enc_u64(m1.len() as u64);
        let a2 = enc_u64(m2.len() as u64);
        assert(a1 + (m1 + r1) =~= Self::enc(m1) + r1);
        assert(a2 + (m2 + r2) =~= Self::enc(m2) + r2);
        lemma_split_equal(a1, m1 + r1, a2, m2 + r2);
        lemma_u64_injective(m1.len() as u64, m2.len() as u64);
        lemma_split_equal(m1, r1, m2, r2);
    }
}

pub open spec fn type_tag(t: TypeSignature) -> u8 {
    match t {
        TypeSignature::NoType => 0,
        TypeSignature::IntType => 1,
        TypeSignature::UIntType => 2,
        TypeSignature::BoolType => 3,
        TypeSignature::PrincipalType => 4,
        TypeSignature::BufferType(_) => 5,
        TypeSignature::StringAsciiType(_) => 6,
        TypeSignature::StringUtf8Type(_) => 7,
    }
}

pub open spec fn type_param(t: TypeSignature) -> u64 {
    match t {
        TypeSignature::BufferType(n) => n as u64,
        TypeSignature::StringAsciiType(n) => n as u64,
        TypeSignature::StringUtf8Type(n) => n as u64,
        _ => 0,
    }
}

fn type_from_parts(tag: u8, param: u64) -> (r: Option<TypeSignature>)
    ensures
        forall|t: TypeSignature|
            tag == type_tag(t) && param == type_param(t) ==> r == Some(t),
{
    if tag == 0 {
        Some(TypeSignature::NoType)
    } else if tag == 1 {
        Some(TypeSignature::IntType)
    } else if tag == 2 {
        Some(TypeSignature::UIntType)
    } else if tag == 3 {
        Some(TypeSignature::BoolType)
    } else if tag == 4 {
        Some(TypeSignature::PrincipalType)
    } else if param > 0xffff_ffffu64 {
        None
    } else if tag == 5 {
        Some(TypeSignature::BufferType(param as u32))
    } else if tag == 6 {
        Some(TypeSignature::StringAsciiType(param as u32))
    } else if tag == 7 {
        Some(TypeSignature::StringUtf8Type(param as u32))
    } else {
        None
    }
}

impl Codec for TypeSignature {
    type M = TypeSignature;

    open spec fn model(&self) -> TypeSignature {
        *self
    }

    open spec fn enc(m: TypeSignature) -> Seq<u8> {
        seq![type_tag(m)] + enc_u64(type_param(m))
    }

    fn encode(&self, out: &mut Vec<u8>) {
        let (tag, param): (u8, u64) = match *self {
            TypeSignature::NoType => (0, 0),
            TypeSignature::IntType => (1, 0),
            TypeSignature::UIntType => (2, 0),
            TypeSignature::BoolType => (3, 0),
            TypeSignature::PrincipalType => (4, 0),
            TypeSignature::BufferType(n) => (5, n as u64),
            TypeSignature::StringAsciiType(n) => (6, n as u64),
            TypeSignature::StringUtf8Type(n) => (7, n as u64),
        };
        out.push(tag);
        encode_u64(param, out);
        assert(out@ =~= old(out)@ + Self::enc(self.model()));
    }

    fn parse(buf: &Vec<u8>, pos: usize) -> (r: Option<(Self, usize)>) {
        if pos >= buf.len() {
            return None;
        }
        let tag = buf[pos];
        proof {
            assert forall|m: TypeSignature| #[trigger]
                encodes_at(buf@, pos as int, Self::enc(m)) implies tag == type_tag(m)
                && encodes_at(buf@, pos + 1, enc_u64(type_param(m))) by {
                lemma_encodes_at_split(buf@, pos as int, seq![type_tag(m)], enc_u64(type_param(m)));
                assert(buf@.subrange(pos as int, pos + 1)[0] == buf@[pos as int]);
            }
        }
        let (param, p) = match parse_u64(buf, pos + 1) {
            Some(x) => x,
            None => return None,
        };
        match type_from_parts(tag, param) {
            Some(t) => Some((t, p)),
            None => None,
        }
    }

    proof fn lemma_enc_nonempty(m: TypeSignature) {
    }

    proof fn lemma_enc_injective(m1: TypeSignature, m2: TypeSignature, r1: Seq<u8>, r2: Seq<u8>) {
        let a1 = seq![type_tag(m1)] + enc_u64(type_param(m1));
        let a2 = seq![type_tag(m2)] + enc_u64(type_param(m2));
        lemma_split_equal(a1, r1, a2, r2);
        assert(a1[0] == a2[0]);
        assert(enc_u64(type_param(m1)) =~= a1.subrange(1, 9));
        assert(enc_u64(type_param(m2)) =~= a2.subrange(1, 9));
        lemma_u64_injective(type_param(m1), type_param(m2));
    }
}

/// The encodings of the items, one after another.
pub open spec fn enc_items<T: Codec>(s: Seq<T::M>) -> Seq<u8>
    decreases s.len(),
{
    if s.len() == 0 {
        Seq::empty()
    } else {
        enc_items::<T>(s.drop_last()) + T::enc(s.last())
    }
}

proof fn lemma_enc_items_concat<T: Codec>(a: Seq<T::M>, b: Seq<T::M>)
    ensures
        enc_items::<T>(a + b) == enc_items::<T>(a) + enc_items::<T>(b),
    decreases b.len(),
{
    if b.len() == 0 {
        assert(a + b =~= a);
        assert(enc_items::<T>(a) + enc_items::<T>(b) =~= enc_items::<T>(a));
    } else {
        lemma_enc_items_concat::<T>(a, b.drop_last());
        assert((a + b).drop_last() =~= a + b.drop_last());
        assert((a + b).last() == b.last());
        assert(enc_items::<T>(a + b) =~= enc_items::<T>(a) + enc_items::<T>(b));
    }
}

proof fn lemma_enc_items_len<T: Codec>(s: Seq<T::M>)
    ensures
        enc_items::<T>(s).len() >= s.len(),
    decreases s.len(),
{
    if s.len() > 0 {
        lemma_enc_items_len::<T>(s.drop_last());
        T::lemma_enc_nonempty(s.last());
    }
}

proof fn lemma_enc_items_front<T: Codec>(s: Seq<T::M>, i: int)
    requires
        0 <= i < s.len(),
    ensures
        enc_items::<T>(s.skip(i)) == T::enc(s[i]) + enc_items::<T>(s.skip(i + 1)),
{
    let one = seq![s[i]];
    assert(s.skip(i) =~= one + s.skip(i + 1));
    lemma_enc_items_concat::<T>(one, s.skip(i + 1));
    assert(one.drop_last() =~= Seq::<T::M>::empty());
    assert(enc_items::<T>(Seq::<T::M>::empty()) =~= Seq::<u8>::empty());
    assert(one.last() == s[i]);
    assert(enc_items::<T>(one) =~= T::enc(s[i]));
}

impl<T: Codec> Codec for Vec<T> {
    type M = Seq<T::M>;

    open spec fn model(&self) -> Seq<T::M> {
        self@.map_values(|x: T| x.model())
    }

    open spec fn enc(m: Seq<T::M>) -> Seq<u8> {
        enc_u64(m.len() as u64) + enc_items::<T>(m)
    }

    fn encode(&self, out: &mut Vec<u8>) {
        encode_u64(self.len() as u64, out);
        let ghost start = out@;
        let mut i: usize = 0;
        while i < self.len()
            invariant
                i <= self.len(),
                out@ == start + enc_items::<T>(self.model().take(i as int)),
            decreases self.len() - i,
        {
            self[i].encode(out);
            proof {
                let s = self.model();
                assert(s.take(i + 1).drop_last() =~= s.take(i as int));
                assert(s.take(i + 1).last() == self@[i as int].model());
            }
            i = i + 1;
            assert(out@ =~= start + enc_items::<T>(self.model().take(i as int)));
        }
        assert(self.model().take(i as int) =~= self.model());
        assert(out@ =~= old(out)@ + Self::enc(self.model()));
    }

    fn parse(buf: &Vec<u8>, pos: usize) -> (r: Option<(Self, usize)>) {
        let blen = buf.len();
        proof {
            assert forall|m: Seq<T::M>| #[trigger]
                encodes_at(buf@, pos as int, Self::enc(m)) implies encodes_at(
                buf@,
                pos as int,
                enc_u64(m.len() as u64),
            ) && encodes_at(buf@, pos + 8, enc_items::<T>(m.skip(0))) && m.len() <= usize::MAX by {
                lemma_enc_items_len::<T>(m);
                assert(m.len() <= blen);
                lemma_encodes_at_split(buf@, pos as int, enc_u64(m.len() as u64), enc_items::<T>(m));
                assert(m.skip(0) =~= m);
            }
        }
        let (n, p0) = match parse_u64(buf, pos) {
            Some(x) => x,
            None => return None,
        };
        let mut items: Vec<T> = Vec::new();
        let mut p: usize = p0;
        let mut i: u64 = 0;
        proof {
            assert forall|m: Seq<T::M>| #[trigger]
                encodes_at(buf@, pos as int, Self::enc(m)) implies m.len() == n && items.model()
                    == m.take(0) && encodes_at(buf@, p as int, enc_items::<T>(m.skip(0)))
                    && p + enc_items::<T>(m.skip(0)).len() == pos + Self::enc(m).len() by {
                assert(encodes_at(buf@, pos as int, enc_u64(m.len() as u64)));
                assert(n == m.len() as u64);
                assert(items.model() =~= m.take(0));
                assert(m.skip(0) =~= m);
            }
        }
        while i < n
            invariant
                i <= n,
                forall|m: Seq<T::M>| #[trigger]
                    encodes_at(buf@, pos as int, Self::enc(m)) ==> m.len() == n && items.model()
                        == m.take(i as int) && encodes_at(buf@, p as int, enc_items::<T>(m.skip(i as int)))
                        && p + enc_items::<T>(m.skip(i as int)).len() == pos + Self::enc(m).len(),
            decreases n - i,
        {
            let ghost old_items = items;
            let ghost old_p = p;
            let ghost old_i = i;
            proof {
                assert forall|m: Seq<T::M>| #[trigger]
                    encodes_at(buf@, pos as int, Self::enc(m)) implies encodes_at(
                    buf@,
                    p as int,
                    T::enc(m[i as int]),
                ) && encodes_at(buf@, p + T::enc(m[i as int]).len(), enc_items::<T>(m.skip(i + 1))) by {
                    lemma_enc_items_front::<T>(m, i as int);
                    lemma_encodes_at_split(buf@, p as int, T::enc(m[i as int]), enc_items::<T>(m.skip(i + 1)));
                }
            }
            let (x, p2) = match T::parse(buf, p) {
                Some(v) => v,
                None => return None,
            };
            items.push(x);
            p = p2;
            i = i + 1;
            proof {
                assert forall|m: Seq<T::M>| #[trigger]
                    encodes_at(buf@, pos as int, Self::enc(m)) implies m.len() == n && items.model()
                        == m.take(i as int) && encodes_at(buf@, p as int, enc_items::<T>(m.skip(i as int)))
                        && p + enc_items::<T>(m.skip(i as int)).len() == pos + Self::enc(m).len() by {
                    lemma_enc_items_front::<T>(m, old_i as int);
                    assert(encodes_at(buf@, old_p as int, T::enc(m[old_i as int])));
                    assert(items.model() =~= old_items.model().push(m[old_i as int]));
                    assert(m.take(i as int) =~= m.take(old_i as int).push(m[old_i as int]));
                }
            }
        }
        proof {
            assert forall|m: Seq<T::M>| #[trigger]
                encodes_at(buf@, pos as int, Self::enc(m)) implies items.model() == m && p == pos
                + Self::enc(m).len() by {
                assert(m.take(i as int) =~= m);
                assert(m.skip(i as int) =~= Seq::<T::M>::empty());
            }
        }
        Some((items, p))
    }

    proof fn lemma_enc_nonempty(m: Seq<T::M>) {
    }

    proof fn lemma_enc_injective(m1: Seq<T::M>, m2: Seq<T::M>, r1: Seq<u8>, r2: Seq<u8>) {
        let a1 = enc_u64(m1.len() as u64);
        let a2 = enc_u64(m2.len() as u64);
        assert(a1 + (enc_items::<T>(m1) + r1) =~= Self::enc(m1) + r1);
        assert(a2 + (enc_items::<T>(m2) + r2) =~= Self::enc(m2) + r2);
        lemma_split_equal(a1, enc_items::<T>(m1) + r1, a2, enc_items::<T>(m2) + r2);
        lemma_u64_injective(m1.len() as u64, m2.len() as u64);
        lemma_enc_items_len::<T>(m1);
        lemma_enc_items_len::<T>(m2);
        lemma_enc_items_injective::<T>(m1, m2, r1, r2);
    }
}

proof fn lemma_enc_items_injective<T: Codec>(s1: Seq<T::M>, s2: Seq<T::M>, r1: Seq<u8>, r2: Seq<u8>)
    requires
        s1.len() == s2.len(),
        enc_items::<T>(s1) + r1 == enc_items::<T>(s2) + r2,
        (enc_items::<T>(s1) + r1).len() <= u64::MAX,
    ensures
        s1 == s2,
        r1 == r2,
    decreases s1.len(),
{
    if s1.len() == 0 {
        assert(s1 =~= s2);
        assert(enc_items::<T>(s1) =~= Seq::<u8>::empty());
        assert(enc_items::<T>(s2) =~= Seq::<u8>::empty());
        assert(r1 =~= enc_items::<T>(s1) + r1);
        assert(r2 =~= enc_items::<T>(s2) + r2);
    } else {
        let t1 = s1.skip(1);
        let t2 = s2.skip(1);
        lemma_enc_items_front::<T>(s1, 0);
        lemma_enc_items_front::<T>(s2, 0);
        assert(s1.skip(0) =~= s1);
        assert(s2.skip(0) =~= s2);
        assert(enc_items::<T>(s1) + r1 =~= T::enc(s1[0]) + (enc_items::<T>(t1) + r1));
        assert(enc_items::<T>(s2) + r2 =~= T::enc(s2[0]) + (enc_items::<T>(t2) + r2));
        T::lemma_enc_injective(s1[0], s2[0], enc_items::<T>(t1) + r1, enc_items::<T>(t2) + r2);
        lemma_enc_items_injective::<T>(t1, t2, r1, r2);
        assert(s1 =~= seq![s1[0]] + t1);
        assert(s2 =~= seq![s2[0]] + t2);
    }
}

impl<A: Codec, B: Codec> Codec for (A, B) {
    type M = (A::M, B::M);

    open spec fn model(&self) -> (A::M, B::M) {
        (self.0.model(), self.1.model())
    }

    open spec fn enc(m: (A::M, B::M)) -> Seq<u8> {
        A::enc(m.0) + B::enc(m.1)
    }

    fn encode(&self, out: &mut Vec<u8>) {
        self.0.encode(out);
        self.1.encode(out);
        assert(out@ =~= old(out)@ + Self::enc(self.model()));
    }

    fn parse(buf: &Vec<u8>, pos: usize) -> (r: Option<(Self, usize)>) {
        proof {
            assert forall|m: (A::M, B::M)| #[trigger]
                encodes_at(buf@, pos as int, Self::enc(m)) implies encodes_at(
                buf@,
                pos as int,
                A::enc(m.0),
            ) && encodes_at(buf@, pos + A::enc(m.0).len(), B::enc(m.1)) by {
                lemma_encodes_at_split(buf@, pos as int, A::enc(m.0), B::enc(m.1));
            }
        }
        let (a, p1) = match A::parse(buf, pos) {
            Some(x) => x,
            None => return None,
        };
        let (b, p2) = match B::parse(buf, p1) {
            Some(x) => x,
            None => return None,
        };
        Some(((a, b), p2))
    }

    proof fn lemma_enc_nonempty(m: (A::M, B::M)) {
        A::lemma_enc_nonempty(m.0);
    }

    proof fn lemma_enc_injective(m1: (A::M, B::M), m2: (A::M, B::M), r1: Seq<u8>, r2: Seq<u8>) {
        assert(Self::enc(m1) + r1 =~= A::enc(m1.0) + (B::enc(m1.1) + r1));
        assert(Self::enc(m2) + r2 =~= A::enc(m2.0) + (B::enc(m2.1) + r2));
        A::lemma_enc_injective(m1.0, m2.0, B::enc(m1.1) + r1, B::enc(m2.1) + r2);
        B::lemma_enc_injective(m1.1, m2.1, r1, r2);
    }
}

impl Codec for FunctionType {
    type M = <(Vec<TypeSignature>, TypeSignature) as Codec>::M;

    open spec fn model(&self) -> <(Vec<TypeSignature>, TypeSignature) as Codec>::M {
        (self.args.model(), self.return_type.model())
    }

    open spec fn enc(m: <(Vec<TypeSignature>, TypeSignature) as Codec>::M) -> Seq<u8> {
        <(Vec<TypeSignature>, TypeSignature) as Codec>::enc(m)
    }

    fn encode(&self, out: &mut Vec<u8>) {
        self.args.encode(out);
        self.return_type.encode(out);
        assert(out@ =~= old(out)@ + Self::enc(self.model()));
    }

    fn parse(buf: &Vec<u8>, pos: usize) -> (r: Option<(Self, usize)>) {
        match <(Vec<TypeSignature>, TypeSignature) as Codec>::parse(buf, pos) {
            Some(((args, return_type), p)) => Some((FunctionType { args, return_type }, p)),
            None => None,
        }
    }

    proof fn lemma_enc_nonempty(m: <(Vec<TypeSignature>, TypeSignature) as Codec>::M) {
        <(Vec<TypeSignature>, TypeSignature) as Codec>::lemma_enc_nonempty(m);
    }

    proof fn lemma_enc_injective(m1: <(Vec<TypeSignature>, TypeSignature) as Codec>::M, m2: <(Vec<TypeSignature>, TypeSignature) as Codec>::M, r1: Seq<u8>, r2: Seq<u8>) {
        <(Vec<TypeSignature>, TypeSignature) as Codec>::lemma_enc_injective(m1, m2, r1, r2);
    }
}

impl Codec for FunctionEntry {
    type M = <(ClarityName, FunctionType) as Codec>::M;

    open spec fn model(&self) -> <(ClarityName, FunctionType) as Codec>::M {
        (self.name.model(), self.function_type.model())
    }

    open spec fn enc(m: <(ClarityName, FunctionType) as Codec>::M) -> Seq<u8> {
        <(ClarityName, FunctionType) as Codec>::enc(m)
    }

    fn encode(&self, out: &mut Vec<u8>) {
        self.name.encode(out);
        self.function_type.encode(out);
        assert(out@ =~= old(out)@ + Self::enc(self.model()));
    }

    fn parse(buf: &Vec<u8>, pos: usize) -> (r: Option<(Self, usize)>) {
        match <(ClarityName, FunctionType) as Codec>::parse(buf, pos) {
            Some(((name, function_type), p)) => Some((FunctionEntry { name, function_type }, p)),
            None => None,
        }
    }

    proof fn lemma_enc_nonempty(m: <(ClarityName, FunctionType) as Codec>::M) {
        <(ClarityName, FunctionType) as Codec>::lemma_enc_nonempty(m);
    }

    proof fn lemma_enc_injective(m1: <(ClarityName, FunctionType) as Codec>::M, m2: <(ClarityName, FunctionType) as Codec>::M, r1: Seq<u8>, r2: Seq<u8>) {
        <(ClarityName, FunctionType) as Codec>::lemma_enc_injective(m1, m2, r1, r2);
    }
}

impl Codec for TraitDefinition {
    type M = <(ClarityName, Vec<FunctionEntry>) as Codec>::M;

    open spec fn model(&self) -> <(ClarityName, Vec<FunctionEntry>) as Codec>::M {
        (self.name.model(), self.functions.model())
    }

    open spec fn enc(m: <(ClarityName, Vec<FunctionEntry>) as Codec>::M) -> Seq<u8> {
        <(ClarityName, Vec<FunctionEntry>) as Codec>::enc(m)
    }

    fn encode(&self, out: &mut Vec<u8>) {
        self.name.encode(out);
        self.functions.encode(out);
        assert(out@ =~= old(out)@ + Self::enc(self.model()));
    }

    fn parse(buf: &Vec<u8>, pos: usize) -> (r: Option<(Self, usize)>) {
        match <(ClarityName, Vec<FunctionEntry>) as Codec>::parse(buf, pos) {
            Some(((name, functions), p)) => Some((TraitDefinition { name, functions }, p)),
            None => None,
        }
    }

    proof fn lemma_enc_nonempty(m: <(ClarityName, Vec<FunctionEntry>) as Codec>::M) {
        <(ClarityName, Vec<FunctionEntry>) as Codec>::lemma_enc_nonempty(m);
    }

    proof fn lemma_enc_injective(m1: <(ClarityName, Vec<FunctionEntry>) as Codec>::M, m2: <(ClarityName, Vec<FunctionEntry>) as Codec>::M, r1: Seq<u8>, r2: Seq<u8>) {
        <(ClarityName, Vec<FunctionEntry>) as Codec>::lemma_enc_injective(m1, m2, r1, r2);
    }
}

impl Codec for QualifiedContractIdentifier {
    type M = <(ClarityName, ClarityName) as Codec>::M;

    open spec fn model(&self) -> <(ClarityName, ClarityName) as Codec>::M {
        (self.issuer.model(), self.name.model())
    }

    open spec fn enc(m: <(ClarityName, ClarityName) as Codec>::M) -> Seq<u8> {
        <(ClarityName, ClarityName) as Codec>::enc(m)
    }

    fn encode(&self, out: &mut Vec<u8>) {
        self.issuer.encode(out);
        self.name.encode(out);
        assert(out@ =~= old(out)@ + Self::enc(self.model()));
    }

    fn parse(buf: &Vec<u8>, pos: usize) -> (r: Option<(Self, usize)>) {
        match <(ClarityName, ClarityName) as Codec>::parse(buf, pos) {
            Some(((issuer, name), p)) => Some((QualifiedContractIdentifier { issuer, name }, p)),
            None => None,
        }
    }

    proof fn lemma_enc_nonempty(m: <(ClarityName, ClarityName) as Codec>::M) {
        <(ClarityName, ClarityName) as Codec>::lemma_enc_nonempty(m);
    }

    proof fn lemma_enc_injective(m1: <(ClarityName, ClarityName) as Codec>::M, m2: <(ClarityName, ClarityName) as Codec>::M, r1: Seq<u8>, r2: Seq<u8>) {
        <(ClarityName, ClarityName) as Codec>::lemma_enc_injective(m1, m2, r1, r2);
    }
}

impl Codec for TraitIdentifier {
    type M = <(QualifiedContractIdentifier, ClarityName) as Codec>::M;

    open spec fn model(&self) -> <(QualifiedContractIdentifier, ClarityName) as Codec>::M {
        (self.contract.model(), self.name.model())
    }

    open spec fn enc(m: <(QualifiedContractIdentifier, ClarityName) as Codec>::M) -> Seq<u8> {
        <(QualifiedContractIdentifier, ClarityName) as Codec>::enc(m)
    }

    fn encode(&self, out: &mut Vec<u8>) {
        self.contract.encode(out);
        self.name.encode(out);
        assert(out@ =~= old(out)@ + Self::enc(self.model()));
    }

    fn parse(buf: &Vec<u8>, pos: usize) -> (r: Option<(Self, usize)>) {
        match <(QualifiedContractIdentifier, ClarityName) as Codec>::parse(buf, pos) {
            Some(((contract, name), p)) => Some((TraitIdentifier { contract, name }, p)),
            None => None,
        }
    }

    proof fn lemma_enc_nonempty(m: <(QualifiedContractIdentifier, ClarityName) as Codec>::M) {
        <(QualifiedContractIdentifier, ClarityName) as Codec>::lemma_enc_nonempty(m);
    }

    proof fn lemma_enc_injective(m1: <(QualifiedContractIdentifier, ClarityName) as Codec>::M, m2: <(QualifiedContractIdentifier, ClarityName) as Codec>::M, r1: Seq<u8>, r2: Seq<u8>) {
        <(QualifiedContractIdentifier, ClarityName) as Codec>::lemma_enc_injective(m1, m2, r1, r2);
    }
}

impl Codec for MapEntry {
    type M = <(ClarityName, (TypeSignature, TypeSignature)) as Codec>::M;

    open spec fn model(&self) -> <(ClarityName, (TypeSignature, TypeSignature)) as Codec>::M {
        (self.name.model(), (self.key_type.model(), self.value_type.model()))
    }

    open spec fn enc(m: <(ClarityName, (TypeSignature, TypeSignature)) as Codec>::M) -> Seq<u8> {
        <(ClarityName, (TypeSignature, TypeSignature)) as Codec>::enc(m)
    }

    fn encode(&self, out: &mut Vec<u8>) {
        self.name.encode(out);
        self.key_type.encode(out);
        self.value_type.encode(out);
        assert(out@ =~= old(out)@ + Self::enc(self.model()));
    }

    fn parse(buf: &Vec<u8>, pos: usize) -> (r: Option<(Self, usize)>) {
        match <(ClarityName, (TypeSignature, TypeSignature)) as Codec>::parse(buf, pos) {
            Some(((name, (key_type, value_type)), p)) => Some((MapEntry { name, key_type, value_type }, p)),
            None => None,
        }
    }

    proof fn lemma_enc_nonempty(m: <(ClarityName, (TypeSignature, TypeSignature)) as Codec>::M) {
        <(ClarityName, (TypeSignature, TypeSignature)) as Codec>::lemma_enc_nonempty(m);
    }

    proof fn lemma_enc_injective(m1: <(ClarityName, (TypeSignature, TypeSignature)) as Codec>::M, m2: <(ClarityName, (TypeSignature, TypeSignature)) as Codec>::M, r1: Seq<u8>, r2: Seq<u8>) {
        <(ClarityName, (TypeSignature, TypeSignature)) as Codec>::lemma_enc_injective(m1, m2, r1, r2);
    }
}

impl Codec for ContractAnalysis {
    type M = <(Vec<FunctionEntry>, (Vec<FunctionEntry>, (Vec<TraitDefinition>, (Vec<TraitIdentifier>, Vec<MapEntry>)))) as Codec>::M;

    open spec fn model(&self) -> <(Vec<FunctionEntry>, (Vec<FunctionEntry>, (Vec<TraitDefinition>, (Vec<TraitIdentifier>, Vec<MapEntry>)))) as Codec>::M {
        (self.public_function_types.model(), (self.read_only_function_types.model(), (self.defined_traits.model(), (self.implemented_traits.model(), self.map_types.model()))))
    }

    open spec fn enc(m: <(Vec<FunctionEntry>, (Vec<FunctionEntry>, (Vec<TraitDefinition>, (Vec<TraitIdentifier>, Vec<MapEntry>)))) as Codec>::M) -> Seq<u8> {
        <(Vec<FunctionEntry>, (Vec<FunctionEntry>, (Vec<TraitDefinition>, (Vec<TraitIdentifier>, Vec<MapEntry>)))) as Codec>::enc(m)
    }

    fn encode(&self, out: &mut Vec<u8>) {
        self.public_function_types.encode(out);
        self.read_only_function_types.encode(out);
        self.defined_traits.encode(out);
        self.implemented_traits.encode(out);
        self.map_types.encode(out);
        assert(out@ =~= old(out)@ + Self::enc(self.model()));
    }

    fn parse(buf: &Vec<u8>, pos: usize) -> (r: Option<(Self, usize)>) {
        match <(Vec<FunctionEntry>, (Vec<FunctionEntry>, (Vec<TraitDefinition>, (Vec<TraitIdentifier>, Vec<MapEntry>)))) as Codec>::parse(buf, pos) {
            Some(((public_function_types, (read_only_function_types, (defined_traits, (implemented_traits, map_types)))), p)) => Some((ContractAnalysis { public_function_types, read_only_function_types, defined_traits, implemented_traits, map_types }, p)),
            None => None,
        }
    }

    proof fn lemma_enc_nonempty(m: <(Vec<FunctionEntry>, (Vec<FunctionEntry>, (Vec<TraitDefinition>, (Vec<TraitIdentifier>, Vec<MapEntry>)))) as Codec>::M) {
        <(Vec<FunctionEntry>, (Vec<FunctionEntry>, (Vec<TraitDefinition>, (Vec<TraitIdentifier>, Vec<MapEntry>)))) as Codec>::lemma_enc_nonempty(m);
    }

    proof fn lemma_enc_injective(m1: <(Vec<FunctionEntry>, (Vec<FunctionEntry>, (Vec<TraitDefinition>, (Vec<TraitIdentifier>, Vec<MapEntry>)))) as Codec>::M, m2: <(Vec<FunctionEntry>, (Vec<FunctionEntry>, (Vec<TraitDefinition>, (Vec<TraitIdentifier>, Vec<MapEntry>)))) as Codec>::M, r1: Seq<u8>, r2: Seq<u8>) {
        <(Vec<FunctionEntry>, (Vec<FunctionEntry>, (Vec<TraitDefinition>, (Vec<TraitIdentifier>, Vec<MapEntry>)))) as Codec>::lemma_enc_injective(m1, m2, r1, r2);
    }
}

impl ContractAnalysis {
    /// The bytes under which the analysis is stored.
    pub fn serialize(&self) -> (r: Vec<u8>)
        ensures
            r@ == Self::enc(self.model()),
            r@ == analysis_bytes(self.model()),
    {
        let mut out: Vec<u8> = Vec::new();
        self.encode(&mut out);
        assert(out@ =~= Self::enc(self.model()));
        reveal(analysis_bytes);
        out
    }

    /// Reads an analysis back from bytes: exactly the encodings of analyses
    /// are accepted, and each gives back the analysis it encodes.
    pub fn deserialize(bytes: &Vec<u8>) -> (r: Option<ContractAnalysis>)
        ensures
            r is Some == decode_analysis(bytes@) is Some,
            r matches Some(a) ==> decode_analysis(bytes@) == Some(a.model()),
    {
        let ghost target = decode_analysis(bytes@);
        proof {
            if target is Some {
                let m = target->0;
                assert(analysis_bytes(m) == bytes@);
                reveal(analysis_bytes);
                assert(bytes@.subrange(0, bytes@.len() as int) =~= bytes@);
                assert(encodes_at(bytes@, 0, Self::enc(m)));
            }
        }
        let (a, p) = match Self::parse(bytes, 0) {
            Some(x) => x,
            None => return None,
        };
        if p != bytes.len() {
            return None;
        }
        let again = a.serialize();
        if bytes_equal(&again, bytes) {
            proof {
                lemma_round_trip(a.model());
            }
            Some(a)
        } else {
            proof {
                if target is Some {
                    reveal(analysis_bytes);
                    assert(a.model() == target->0);
                }
            }
            None
        }
    }
}

/// What an analysis record means: its five parts, each a sequence.
pub type AnalysisModel = <ContractAnalysis as Codec>::M;

/// The bytes that encode an analysis.
#[verifier::opaque]
pub open spec fn analysis_bytes(m: AnalysisModel) -> Seq<u8> {
    ContractAnalysis::enc(m)
}

/// The analysis that `bytes` encode, if they encode one.
pub open spec fn decode_analysis(bytes: Seq<u8>) -> Option<AnalysisModel> {
    if exists|m: AnalysisModel| analysis_bytes(m) == bytes {
        Some(choose|m: AnalysisModel| analysis_bytes(m) == bytes)
    } else {
        None
    }
}

proof fn lemma_append_empty(x: Seq<u8>)
    ensures
        x + Seq::<u8>::empty() == x,
{
    assert(x + Seq::<u8>::empty() =~= x);
}

proof fn lemma_analysis_bytes_injective(c: AnalysisModel, m: AnalysisModel)
    requires
        analysis_bytes(c) == analysis_bytes(m),
        analysis_bytes(m).len() <= usize::MAX,
    ensures
        c == m,
{
    reveal(analysis_bytes);
    lemma_append_empty(ContractAnalysis::enc(c));
    lemma_append_empty(ContractAnalysis::enc(m));
    ContractAnalysis::lemma_enc_injective(c, m, Seq::empty(), Seq::empty());
}

/// Reading back what was written gives the analysis that was written:
/// for any analysis whose encoding fits in memory, decoding its encoding
/// yields it again, with all of its parts.
pub proof fn lemma_round_trip(m: AnalysisModel)
    requires
        analysis_bytes(m).len() <= usize::MAX,
    ensures
        decode_analysis(analysis_bytes(m)) == Some(m),
{
    let b = analysis_bytes(m);
    assert(exists|c: AnalysisModel| analysis_bytes(c) == b);
    let c = choose|c: AnalysisModel| analysis_bytes(c) == b;
    lemma_analysis_bytes_injective(c, m);
}

} // verus!
