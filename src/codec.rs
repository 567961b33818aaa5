use vstd::prelude::*;
use crate::error::Error;
use crate::size::Size;
use crate::stream::{Reader, Writer};
use crate::varint::{Varint, varint_bytes, parse_varint, write_varint, read_varint, lemma_varint_round_trip, lemma_varint_truncated};

verus! {

/// What a decode owes, given what the format says of the bytes before it:
/// on `Ok((m, n))` the value `m` with `n` bytes consumed, else that error.
pub open spec fn decoded<M>(
    parsed: Result<(M, nat), Error>,
    before: Seq<u8>,
    after: Seq<u8>,
    r: Result<M, Error>,
) -> bool {
    match parsed {
        Ok((m, n)) => r == Ok::<M, Error>(m) && after == before.skip(n as int),
        Err(e) => r == Err::<M, Error>(e),
    }
}

/// The outcome of an in-place decode, seen as the value it left behind.
pub open spec fn with_model<M>(r: Result<(), Error>, m: M) -> Result<M, Error> {
    match r {
        Ok(_) => Ok(m),
        Err(e) => Err(e),
    }
}

/// What an encode owes: success exactly when the sink has room for the
/// encoding, and then the encoding appended.
pub open spec fn encoded(before: &Reader, after: &Reader, bytes: Seq<u8>, r: Result<(), Error>) -> bool {
    &&& r is Ok <==> before.written().len() + bytes.len() <= before.limit()
    &&& r is Ok ==> after.written() == before.written() + bytes
}

/// A type that can emit itself into a `Reader`.
pub trait Readable: Sized {
    /// The mathematical value that the encoding carries.
    type Model;

    spec fn model(&self) -> Self::Model;

    /// Which models can be encoded: a collection's count must fit in 32 bits.
    spec fn valid(m: Self::Model) -> bool;

    /// The bytes that a value with model `m` encodes to.
    spec fn encode(m: Self::Model) -> Seq<u8>;

    spec fn spec_size() -> Size;

    fn size() -> (s: Size)
        ensures
            s == Self::spec_size(),
    ;

    /// A type that claims a fixed size encodes every value to that many bytes.
    proof fn lemma_size(m: Self::Model)
        ensures
            Self::spec_size() is Fixed ==> Self::encode(m).len() == Self::spec_size()->Fixed_0,
    ;

    /// Appends the encoding of `self`. A value that cannot be encoded fails.
    fn accept(&self, visitor: &mut Reader) -> (r: Result<(), Error>)
        ensures
            final(visitor).limit() == old(visitor).limit(),
            Self::valid(self.model()) ==> encoded(
                old(visitor),
                final(visitor),
                Self::encode(self.model()),
                r,
            ),
            !Self::valid(self.model()) ==> r is Err,
    ;
}

/// A type that can overwrite itself in place from a `Writer`.
pub trait Writable: Readable {
    /// The value at the front of `s`, with the number of bytes it takes.
    spec fn parse(s: Seq<u8>) -> Result<(Self::Model, nat), Error>;

    proof fn lemma_parse(s: Seq<u8>)
        ensures
            Self::parse(s) is Ok ==> Self::parse(s)->Ok_0.1 <= s.len() && Self::valid(
                Self::parse(s)->Ok_0.0,
            ),
    ;

    /// Decoding the encoding of a model, followed by anything, gives it back.
    proof fn lemma_round_trip(m: Self::Model, rest: Seq<u8>)
        requires
            Self::valid(m),
        ensures
            Self::parse(Self::encode(m) + rest) == Ok::<(Self::Model, nat), Error>(
                (m, Self::encode(m).len()),
            ),
    ;

    /// Every proper prefix of an encoding decodes as truncated.
    proof fn lemma_truncated(m: Self::Model, k: nat)
        requires
            Self::valid(m),
            k < Self::encode(m).len(),
        ensures
            Self::parse(Self::encode(m).take(k as int)) == Err::<(Self::Model, nat), Error>(
                Error::Truncated,
            ),
    ;

    /// Replaces the whole content of `self` by the value at the front of the
    /// source, whatever it held before. After an error the content of `self`
    /// is left unspecified and is to be discarded.
    fn accept(&mut self, visitor: &mut Writer) -> (r: Result<(), Error>)
        ensures
            decoded(
                Self::parse(old(visitor).remaining()),
                old(visitor).remaining(),
                final(visitor).remaining(),
                with_model(r, final(self).model()),
            ),
    ;
}

/// A type that can build a fresh value from a `Writer`.
pub trait Load: Writable {
    fn load(from: &mut Writer) -> (r: Result<Self, Error>)
        ensures
            decoded(
                Self::parse(old(from).remaining()),
                old(from).remaining(),
                final(from).remaining(),
                match r {
                    Ok(v) => Ok(v.model()),
                    Err(e) => Err(e),
                },
            ),
    ;
}

impl Readable for Varint {
    type Model = u32;

    open spec fn model(&self) -> u32 {
        self.0
    }

    open spec fn valid(m: u32) -> bool {
        true
    }

    open spec fn encode(m: u32) -> Seq<u8> {
        varint_bytes(m as nat)
    }

    open spec fn spec_size() -> Size {
        Size::Variable
    }

    fn size() -> (s: Size) {
        Size::variable()
    }

    proof fn lemma_size(m: u32) {
    }

    fn accept(&self, visitor: &mut Reader) -> (r: Result<(), Error>) {
        write_varint(visitor, self.0)
    }
}

impl Writable for Varint {
    open spec fn parse(s: Seq<u8>) -> Result<(u32, nat), Error> {
        parse_varint(s)
    }

    proof fn lemma_parse(s: Seq<u8>) {
        crate::varint::lemma_parse_varint_len(s);
    }

    proof fn lemma_round_trip(m: u32, rest: Seq<u8>) {
        lemma_varint_round_trip(m, rest);
    }

    proof fn lemma_truncated(m: u32, k: nat) {
        lemma_varint_truncated(m, k);
    }

    fn accept(&mut self, visitor: &mut Writer) -> (r: Result<(), Error>) {
        let v = read_varint(visitor)?;
        self.0 = v;
        Ok(())
    }
}

impl Load for Varint {
    fn load(from: &mut Writer) -> (r: Result<Varint, Error>) {
        let v = read_varint(from)?;
        Ok(Varint(v))
    }
}

impl Readable for u8 {
    type Model = u8;

    open spec fn model(&self) -> u8 {
        *self
    }

    open spec fn valid(m: u8) -> bool {
        true
    }

    open spec fn encode(m: u8) -> Seq<u8> {
        seq![m]
    }

    open spec fn spec_size() -> Size {
        Size::Fixed(1)
    }

    fn size() -> (s: Size) {
        Size::fixed(1)
    }

    proof fn lemma_size(m: u8) {
    }

    fn accept(&self, visitor: &mut Reader) -> (r: Result<(), Error>) {
        let r = visitor.write_byte(*self);
        assert(old(visitor).written().push(*self) =~= old(visitor).written() + seq![*self]);
        r
    }
}

impl Writable for u8 {
    open spec fn parse(s: Seq<u8>) -> Result<(u8, nat), Error> {
        if s.len() == 0 {
            Err(Error::Truncated)
        } else {
            Ok((s[0], 1))
        }
    }

    proof fn lemma_parse(s: Seq<u8>) {
    }

    proof fn lemma_round_trip(m: u8, rest: Seq<u8>) {
        assert((seq![m] + rest)[0] == m);
    }

    proof fn lemma_truncated(m: u8, k: nat) {
        assert(seq![m].take(k as int).len() == 0);
    }

    fn accept(&mut self, visitor: &mut Writer) -> (r: Result<(), Error>) {
        let b = visitor.read_byte()?;
        *self = b;
        Ok(())
    }
}

impl Load for u8 {
    fn load(from: &mut Writer) -> (r: Result<u8, Error>) {
        from.read_byte()
    }
}

/// A pair encodes as its first part followed by its second.
impl<A: Readable, B: Readable> Readable for (A, B) {
    type Model = (A::Model, B::Model);

    open spec fn model(&self) -> (A::Model, B::Model) {
        (self.0.model(), self.1.model())
    }

    open spec fn valid(m: (A::Model, B::Model)) -> bool {
        A::valid(m.0) && B::valid(m.1)
    }

    open spec fn encode(m: (A::Model, B::Model)) -> Seq<u8> {
        A::encode(m.0) + B::encode(m.1)
    }

    /// Fixed when both parts are, unless the sum does not fit in `usize`.
    open spec fn spec_size() -> Size {
        match (A::spec_size(), B::spec_size()) {
            (Size::Fixed(x), Size::Fixed(y)) => if x + y <= usize::MAX {
                Size::Fixed((x + y) as usize)
            } else {
                Size::Variable
            },
            _ => Size::Variable,
        }
    }

    fn size() -> (s: Size) {
        let a = A::size();
        let b = B::size();
        if let (Size::Fixed(x), Size::Fixed(y)) = (a, b) {
            if x > usize::MAX - y {
                return Size::Variable;
            }
        }
        a.compose(b)
    }

    proof fn lemma_size(m: (A::Model, B::Model)) {
        A::lemma_size(m.0);
        B::lemma_size(m.1);
    }

    fn accept(&self, visitor: &mut Reader) -> (r: Result<(), Error>) {
        let ghost w0 = visitor.written();
        let ra = Readable::accept(&self.0, visitor);
        if ra.is_err() {
            return ra;
        }
        let ghost w1 = visitor.written();
        let rb = Readable::accept(&self.1, visitor);
        assert(w0 + (A::encode(self.0.model()) + B::encode(self.1.model())) =~= w0 + A::encode(
            self.0.model(),
        ) + B::encode(self.1.model()));
        rb
    }
}

impl<A: Load, B: Load> Writable for (A, B) {
    open spec fn parse(s: Seq<u8>) -> Result<((A::Model, B::Model), nat), Error> {
        match A::parse(s) {
            Err(e) => Err(e),
            Ok((a, n)) => match B::parse(s.skip(n as int)) {
                Err(e) => Err(e),
                Ok((b, n2)) => Ok(((a, b), n + n2)),
            },
        }
    }

    proof fn lemma_parse(s: Seq<u8>) {
        A::lemma_parse(s);
        if A::parse(s) is Ok {
            B::lemma_parse(s.skip(A::parse(s)->Ok_0.1 as int));
        }
    }

    proof fn lemma_round_trip(m: (A::Model, B::Model), rest: Seq<u8>) {
        let ea = A::encode(m.0);
        let eb = B::encode(m.1);
        assert(ea + eb + rest =~= ea + (eb + rest));
        A::lemma_round_trip(m.0, eb + rest);
        assert((ea + eb + rest).skip(ea.len() as int) =~= eb + rest);
        B::lemma_round_trip(m.1, rest);
    }

    proof fn lemma_truncated(m: (A::Model, B::Model), k: nat) {
        let ea = A::encode(m.0);
        let eb = B::encode(m.1);
        let s = (ea + eb).take(k as int);
        if k < ea.len() {
            assert(s =~= ea.take(k as int));
            A::lemma_truncated(m.0, k);
        } else {
            let part = eb.take(k - ea.len());
            assert(s =~= ea + part);
            A::lemma_round_trip(m.0, part);
            assert(s.skip(ea.len() as int) =~= part);
            B::lemma_truncated(m.1, (k - ea.len()) as nat);
        }
    }

    fn accept(&mut self, visitor: &mut Writer) -> (r: Result<(), Error>) {
        let ghost s = visitor.remaining();
        Writable::accept(&mut self.0, visitor)?;
        let ghost s1 = visitor.remaining();
        Writable::accept(&mut self.1, visitor)?;
        proof {
            A::lemma_parse(s);
            B::lemma_parse(s1);
            assert(s.skip(A::parse(s)->Ok_0.1 as int).skip(B::parse(s1)->Ok_0.1 as int) =~= s.skip(
                (A::parse(s)->Ok_0.1 + B::parse(s1)->Ok_0.1) as int,
            ));
        }
        Ok(())
    }
}

impl<A: Load, B: Load> Load for (A, B) {
    fn load(from: &mut Writer) -> (r: Result<(A, B), Error>) {
        let ghost s = from.remaining();
        let a = A::load(from)?;
        let ghost s1 = from.remaining();
        let b = B::load(from)?;
        proof {
            A::lemma_parse(s);
            B::lemma_parse(s1);
            assert(s.skip(A::parse(s)->Ok_0.1 as int).skip(B::parse(s1)->Ok_0.1 as int) =~= s.skip(
                (A::parse(s)->Ok_0.1 + B::parse(s1)->Ok_0.1) as int,
            ));
        }
        Ok((a, b))
    }
}

} // verus!
