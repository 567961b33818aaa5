use vstd::prelude::*;
use std::collections::VecDeque;
use crate::codec::{Load, Readable, Writable, decoded, encoded, with_model};
use crate::error::Error;
use crate::size::Size;
use crate::stream::{Reader, Writer};
use crate::varint::{varint_bytes, parse_varint, write_varint, read_varint, lemma_varint_round_trip, lemma_varint_truncated, lemma_parse_varint_len};

verus! {

/// The models of the items of `s`, in order.
pub open spec fn models<T: Readable>(s: Seq<T>) -> Seq<T::Model> {
    s.map_values(|x: T| x.model())
}

/// The items' encodings, one after the other.
pub open spec fn encode_items<T: Readable>(ms: Seq<T::Model>) -> Seq<u8>
    decreases ms.len(),
{
    if ms.len() == 0 {
        Seq::<u8>::empty()
    } else {
        encode_items::<T>(ms.drop_last()) + T::encode(ms.last())
    }
}

/// A collection's encoding: its count, then its items.
pub open spec fn encode_seq<T: Readable>(ms: Seq<T::Model>) -> Seq<u8> {
    varint_bytes(ms.len()) + encode_items::<T>(ms)
}

/// A sequence of models can be encoded when its count fits in 32 bits and
/// each item can be.
pub open spec fn valid_seq<T: Readable>(ms: Seq<T::Model>) -> bool {
    &&& ms.len() <= u32::MAX
    &&& forall|i: int| 0 <= i < ms.len() ==> #[trigger] T::valid(ms[i])
}

/// `n` items read one after the other from the front of `s`.
pub open spec fn parse_items<T: Writable>(s: Seq<u8>, n: nat) -> Result<(Seq<T::Model>, nat), Error>
    decreases n,
{
    if n == 0 {
        Ok((Seq::<T::Model>::empty(), 0))
    } else {
        match parse_items::<T>(s, (n - 1) as nat) {
            Err(e) => Err(e),
            Ok((ms, k)) => match T::parse(s.skip(k as int)) {
                Err(e) => Err(e),
                Ok((m, k2)) => Ok((ms.push(m), k + k2)),
            },
        }
    }
}

/// A count, then that many items.
pub open spec fn parse_seq<T: Writable>(s: Seq<u8>) -> Result<(Seq<T::Model>, nat), Error> {
    match parse_varint(s) {
        Err(e) => Err(e),
        Ok((n, k)) => match parse_items::<T>(s.skip(k as int), n as nat) {
            Err(e) => Err(e),
            Ok((ms, k2)) => Ok((ms, k + k2)),
        },
    }
}

pub proof fn lemma_parse_items<T: Writable>(s: Seq<u8>, n: nat)
    ensures
        parse_items::<T>(s, n) is Ok ==> {
            let (ms, k) = parse_items::<T>(s, n)->Ok_0;
            &&& k <= s.len()
            &&& ms.len() == n
            &&& forall|i: int| 0 <= i < ms.len() ==> #[trigger] T::valid(ms[i])
        },
    decreases n,
{
    if n > 0 {
        lemma_parse_items::<T>(s, (n - 1) as nat);
        if parse_items::<T>(s, (n - 1) as nat) is Ok {
            let (ms, k) = parse_items::<T>(s, (n - 1) as nat)->Ok_0;
            T::lemma_parse(s.skip(k as int));
            if T::parse(s.skip(k as int)) is Ok {
                let m = T::parse(s.skip(k as int))->Ok_0.0;
                assert forall|i: int| 0 <= i < ms.push(m).len() implies #[trigger] T::valid(
                    ms.push(m)[i],
                ) by {
                    if i < ms.len() {
                        assert(ms.push(m)[i] == ms[i]);
                    }
                }
            }
        }
    }
}

pub proof fn lemma_parse_seq<T: Writable>(s: Seq<u8>)
    ensures
        parse_seq::<T>(s) is Ok ==> parse_seq::<T>(s)->Ok_0.1 <= s.len() && valid_seq::<T>(
            parse_seq::<T>(s)->Ok_0.0,
        ),
{
    lemma_parse_varint_len(s);
    if parse_varint(s) is Ok {
        let (n, k) = parse_varint(s)->Ok_0;
        lemma_parse_items::<T>(s.skip(k as int), n as nat);
    }
}

pub proof fn lemma_items_round_trip<T: Writable>(ms: Seq<T::Model>, rest: Seq<u8>)
    requires
        forall|i: int| 0 <= i < ms.len() ==> #[trigger] T::valid(ms[i]),
    ensures
        parse_items::<T>(encode_items::<T>(ms) + rest, ms.len()) == Ok::<(Seq<T::Model>, nat), Error>(
            (ms, encode_items::<T>(ms).len()),
        ),
    decreases ms.len(),
{
    if ms.len() > 0 {
        let front = ms.drop_last();
        let x = ms.last();
        let ef = encode_items::<T>(front);
        let ex = T::encode(x);
        assert forall|i: int| 0 <= i < front.len() implies #[trigger] T::valid(front[i]) by {
            assert(front[i] == ms[i]);
        }
        lemma_items_round_trip::<T>(front, ex + rest);
        let s = encode_items::<T>(ms) + rest;
        assert(s =~= ef + (ex + rest));
        assert(s.skip(ef.len() as int) =~= ex + rest);
        T::lemma_round_trip(x, rest);
        assert(front.push(x) =~= ms);
        assert(parse_items::<T>(s, front.len()) == Ok::<(Seq<T::Model>, nat), Error>(
            (front, ef.len()),
        ));
        assert(T::parse(s.skip(ef.len() as int)) == Ok::<(T::Model, nat), Error>((x, ex.len())));
        assert(encode_items::<T>(ms).len() == ef.len() + ex.len());
        assert((ms.len() - 1) as nat == front.len());
    } else {
        assert(encode_items::<T>(ms) + rest =~= rest);
        assert(ms =~= Seq::<T::Model>::empty());
    }
}

pub proof fn lemma_items_truncated<T: Writable>(ms: Seq<T::Model>, j: nat)
    requires
        forall|i: int| 0 <= i < ms.len() ==> #[trigger] T::valid(ms[i]),
        j < encode_items::<T>(ms).len(),
    ensures
        parse_items::<T>(encode_items::<T>(ms).take(j as int), ms.len()) == Err::<
            (Seq<T::Model>, nat),
            Error,
        >(Error::Truncated),
    decreases ms.len(),
{
    let front = ms.drop_last();
    let x = ms.last();
    let ef = encode_items::<T>(front);
    let ex = T::encode(x);
    let s = encode_items::<T>(ms).take(j as int);
    assert forall|i: int| 0 <= i < front.len() implies #[trigger] T::valid(front[i]) by {
        assert(front[i] == ms[i]);
    }
    if j < ef.len() {
        lemma_items_truncated::<T>(front, j);
        assert(s =~= ef.take(j as int));
    } else {
        let tail = ex.take(j - ef.len());
        assert(s =~= ef + tail);
        lemma_items_round_trip::<T>(front, tail);
        assert(s.skip(ef.len() as int) =~= tail);
        T::lemma_truncated(x, (j - ef.len()) as nat);
    }
}

/// Decoding a sequence's encoding, followed by anything, gives it back.
pub proof fn lemma_seq_round_trip<T: Writable>(ms: Seq<T::Model>, rest: Seq<u8>)
    requires
        valid_seq::<T>(ms),
    ensures
        parse_seq::<T>(encode_seq::<T>(ms) + rest) == Ok::<(Seq<T::Model>, nat), Error>(
            (ms, encode_seq::<T>(ms).len()),
        ),
{
    let n = ms.len() as u32;
    let ev = varint_bytes(n as nat);
    let ei = encode_items::<T>(ms);
    let s = encode_seq::<T>(ms) + rest;
    assert(s =~= ev + (ei + rest));
    lemma_varint_round_trip(n, ei + rest);
    assert(s.skip(ev.len() as int) =~= ei + rest);
    lemma_items_round_trip::<T>(ms, rest);
}

/// Every proper prefix of a sequence's encoding decodes as truncated.
pub proof fn lemma_seq_truncated<T: Writable>(ms: Seq<T::Model>, k: nat)
    requires
        valid_seq::<T>(ms),
        k < encode_seq::<T>(ms).len(),
    ensures
        parse_seq::<T>(encode_seq::<T>(ms).take(k as int)) == Err::<(Seq<T::Model>, nat), Error>(
            Error::Truncated,
        ),
{
    let n = ms.len() as u32;
    let ev = varint_bytes(n as nat);
    let ei = encode_items::<T>(ms);
    let s = encode_seq::<T>(ms).take(k as int);
    if k < ev.len() {
        assert(s =~= ev.take(k as int));
        lemma_varint_truncated(n, k);
    } else {
        let part = ei.take(k - ev.len());
        assert(s =~= ev + part);
        lemma_varint_round_trip(n, part);
        assert(s.skip(ev.len() as int) =~= part);
        lemma_items_truncated::<T>(ms, (k - ev.len()) as nat);
    }
}

/// Once a read of items fails, reading more of them fails the same way.
pub proof fn lemma_parse_items_err<T: Writable>(s: Seq<u8>, m: nat, n: nat)
    requires
        m <= n,
        parse_items::<T>(s, m) is Err,
    ensures
        parse_items::<T>(s, n) == parse_items::<T>(s, m),
    decreases n,
{
    if m < n {
        lemma_parse_items_err::<T>(s, m, (n - 1) as nat);
    }
}

/// The encodings of a shorter run of items are no longer.
pub proof fn lemma_encode_items_mono<T: Readable>(ms: Seq<T::Model>, i: nat, j: nat)
    requires
        i <= j <= ms.len(),
    ensures
        encode_items::<T>(ms.take(i as int)).len() <= encode_items::<T>(ms.take(j as int)).len(),
    decreases j,
{
    if i < j {
        assert(ms.take(j as int).drop_last() =~= ms.take(j - 1));
        lemma_encode_items_mono::<T>(ms, i, (j - 1) as nat);
    }
}

/// Appends a count and then each item, in order.
fn write_items<T: Readable>(items: &VecDeque<T>, visitor: &mut Reader) -> (r: Result<(), Error>)
    ensures
        final(visitor).limit() == old(visitor).limit(),
        valid_seq::<T>(models(items@)) ==> encoded(
            old(visitor),
            final(visitor),
            encode_seq::<T>(models(items@)),
            r,
        ),
        !valid_seq::<T>(models(items@)) ==> r is Err,
{
    let ghost ms = models(items@);
    let len = items.len();
    if len > 0xffff_ffff {
        return Err(Error::Overflow);
    }
    write_varint(visitor, len as u32)?;
    let ghost start = old(visitor).written() + varint_bytes(len as nat);
    let mut i: usize = 0;
    while i < len
        invariant
            len == items@.len(),
            ms == models(items@),
            i <= len,
            len <= u32::MAX,
            forall|j: int| 0 <= j < i ==> #[trigger] T::valid(ms[j]),
            visitor.limit() == old(visitor).limit(),
            visitor.written().len() <= visitor.limit(),
            visitor.written() == start + encode_items::<T>(ms.take(i as int)),
            start == old(visitor).written() + varint_bytes(len as nat),
            valid_seq::<T>(ms) ==> start.len() + encode_items::<T>(ms).len() > visitor.limit()
                ==> old(visitor).written().len() + encode_seq::<T>(ms).len() > visitor.limit(),
        decreases len - i,
    {
        let ghost before = visitor.written();
        let item = &items[i];
        let r = Readable::accept(item, visitor);
        proof {
            assert(ms.take(i + 1).drop_last() =~= ms.take(i as int));
            assert(ms[i as int] == item.model());
            if T::valid(item.model()) && r is Err {
                lemma_encode_items_mono::<T>(ms, (i + 1) as nat, len as nat);
                assert(ms.take(len as int) =~= ms);
            }
        }
        r?;
        i = i + 1;
    }
    proof {
        assert(ms.take(len as int) =~= ms);
        assert(visitor.written() =~= old(visitor).written() + encode_seq::<T>(ms));
    }
    Ok(())
}

impl<T: Readable> Readable for VecDeque<T> {
    type Model = Seq<T::Model>;

    open spec fn model(&self) -> Seq<T::Model> {
        models(self@)
    }

    open spec fn valid(m: Seq<T::Model>) -> bool {
        valid_seq::<T>(m)
    }

    open spec fn encode(m: Seq<T::Model>) -> Seq<u8> {
        encode_seq::<T>(m)
    }

    open spec fn spec_size() -> Size {
        Size::Variable
    }

    fn size() -> (s: Size) {
        Size::variable()
    }

    proof fn lemma_size(m: Seq<T::Model>) {
    }

    fn accept(&self, visitor: &mut Reader) -> (r: Result<(), Error>) {
        write_items(self, visitor)
    }
}

/// Replaces the content of `items` by a count and that many items read
/// from the front of `visitor`.
fn read_items<T: Load>(items: &mut VecDeque<T>, visitor: &mut Writer) -> (r: Result<(), Error>)
    ensures
        decoded(
            parse_seq::<T>(old(visitor).remaining()),
            old(visitor).remaining(),
            final(visitor).remaining(),
            with_model(r, models(final(items)@)),
        ),
{
    let ghost whole = old(visitor).remaining();
    let n = read_varint(visitor)?;
    let ghost s0 = visitor.remaining();
    let ghost vk = parse_varint(whole)->Ok_0.1;
    items.clear();
    let room = visitor.remaining_len();
    items.reserve(if (n as usize) < room { n as usize } else { room });
    let ghost mut k: nat = 0;
    let mut i: u32 = 0;
    assert(models(items@) =~= Seq::<T::Model>::empty());
    assert(s0.skip(0) =~= s0);
    while i < n
        invariant
            whole == old(visitor).remaining(),
            s0 == whole.skip(vk as int),
            parse_varint(whole) == Ok::<(u32, nat), Error>((n, vk)),
            i <= n,
            parse_items::<T>(s0, i as nat) == Ok::<(Seq<T::Model>, nat), Error>((models(items@), k)),
            visitor.remaining() == s0.skip(k as int),
        decreases n - i,
    {
        let ghost rem = visitor.remaining();
        let ghost prev = items@;
        let item = match T::load(visitor) {
            Ok(item) => item,
            Err(e) => {
                proof {
                    assert(parse_items::<T>(s0, (i + 1) as nat) == Err::<(Seq<T::Model>, nat), Error>(e));
                    lemma_parse_items_err::<T>(s0, (i + 1) as nat, n as nat);
                }
                return Err(e);
            },
        };
        items.push_back(item);
        proof {
            let k2 = T::parse(rem)->Ok_0.1;
            T::lemma_parse(rem);
            lemma_parse_items::<T>(s0, i as nat);
            assert(models(items@) =~= models(prev).push(item.model()));
            assert(parse_items::<T>(s0, (i + 1) as nat) == Ok::<(Seq<T::Model>, nat), Error>(
                (models(items@), k + k2),
            ));
            assert(s0.skip(k as int).skip(k2 as int) =~= s0.skip((k + k2) as int));
            k = k + k2;
        }
        i = i + 1;
    }
    proof {
        lemma_parse_varint_len(whole);
        lemma_parse_items::<T>(s0, n as nat);
        assert(whole.skip(vk as int).skip(k as int) =~= whole.skip((vk + k) as int));
    }
    Ok(())
}


impl<T: Load> Writable for VecDeque<T> {
    open spec fn parse(s: Seq<u8>) -> Result<(Seq<T::Model>, nat), Error> {
        parse_seq::<T>(s)
    }

    proof fn lemma_parse(s: Seq<u8>) {
        lemma_parse_seq::<T>(s);
    }

    proof fn lemma_round_trip(m: Seq<T::Model>, rest: Seq<u8>) {
        lemma_seq_round_trip::<T>(m, rest);
    }

    proof fn lemma_truncated(m: Seq<T::Model>, k: nat) {
        lemma_seq_truncated::<T>(m, k);
    }

    fn accept(&mut self, visitor: &mut Writer) -> (r: Result<(), Error>) {
        read_items(self, visitor)
    }
}

impl<T: Load> Load for VecDeque<T> {
    fn load(from: &mut Writer) -> (r: Result<VecDeque<T>, Error>) {
        let mut deque = VecDeque::<T>::new();
        read_items(&mut deque, from)?;
        Ok(deque)
    }
}

/// Appends a count and then each item, in order.
pub(crate) fn write_vec_items<T: Readable>(items: &Vec<T>, visitor: &mut Reader) -> (r: Result<(), Error>)
    ensures
        final(visitor).limit() == old(visitor).limit(),
        valid_seq::<T>(models(items@)) ==> encoded(
            old(visitor),
            final(visitor),
            encode_seq::<T>(models(items@)),
            r,
        ),
        !valid_seq::<T>(models(items@)) ==> r is Err,
{
    let ghost ms = models(items@);
    let len = items.len();
    if len > 0xffff_ffff {
        return Err(Error::Overflow);
    }
    write_varint(visitor, len as u32)?;
    let ghost start = old(visitor).written() + varint_bytes(len as nat);
    let mut i: usize = 0;
    while i < len
        invariant
            len == items@.len(),
            ms == models(items@),
            i <= len,
            len <= u32::MAX,
            forall|j: int| 0 <= j < i ==> #[trigger] T::valid(ms[j]),
            visitor.limit() == old(visitor).limit(),
            visitor.written().len() <= visitor.limit(),
            visitor.written() == start + encode_items::<T>(ms.take(i as int)),
            start == old(visitor).written() + varint_bytes(len as nat),
            valid_seq::<T>(ms) ==> start.len() + encode_items::<T>(ms).len() > visitor.limit()
                ==> old(visitor).written().len() + encode_seq::<T>(ms).len() > visitor.limit(),
        decreases len - i,
    {
        let ghost before = visitor.written();
        let item = &items[i];
        let r = Readable::accept(item, visitor);
        proof {
            assert(ms.take(i + 1).drop_last() =~= ms.take(i as int));
            assert(ms[i as int] == item.model());
            if T::valid(item.model()) && r is Err {
                lemma_encode_items_mono::<T>(ms, (i + 1) as nat, len as nat);
                assert(ms.take(len as int) =~= ms);
            }
        }
        r?;
        i = i + 1;
    }
    proof {
        assert(ms.take(len as int) =~= ms);
        assert(visitor.written() =~= old(visitor).written() + encode_seq::<T>(ms));
    }
    Ok(())
}

/// Replaces the content of `items` by a count and that many items read
/// from the front of `visitor`.
fn read_vec_items<T: Load>(items: &mut Vec<T>, visitor: &mut Writer) -> (r: Result<(), Error>)
    ensures
        decoded(
            parse_seq::<T>(old(visitor).remaining()),
            old(visitor).remaining(),
            final(visitor).remaining(),
            with_model(r, models(final(items)@)),
        ),
{
    let ghost whole = old(visitor).remaining();
    let n = read_varint(visitor)?;
    let ghost s0 = visitor.remaining();
    let ghost vk = parse_varint(whole)->Ok_0.1;
    items.clear();
    let room = visitor.remaining_len();
    items.reserve(if (n as usize) < room { n as usize } else { room });
    let ghost mut k: nat = 0;
    let mut i: u32 = 0;
    assert(models(items@) =~= Seq::<T::Model>::empty());
    assert(s0.skip(0) =~= s0);
    while i < n
        invariant
            whole == old(visitor).remaining(),
            s0 == whole.skip(vk as int),
            parse_varint(whole) == Ok::<(u32, nat), Error>((n, vk)),
            i <= n,
            parse_items::<T>(s0, i as nat) == Ok::<(Seq<T::Model>, nat), Error>((models(items@), k)),
            visitor.remaining() == s0.skip(k as int),
        decreases n - i,
    {
        let ghost rem = visitor.remaining();
        let ghost prev = items@;
        let item = match T::load(visitor) {
            Ok(item) => item,
            Err(e) => {
                proof {
                    assert(parse_items::<T>(s0, (i + 1) as nat) == Err::<(Seq<T::Model>, nat), Error>(e));
                    lemma_parse_items_err::<T>(s0, (i + 1) as nat, n as nat);
                }
                return Err(e);
            },
        };
        items.push(item);
        proof {
            let k2 = T::parse(rem)->Ok_0.1;
            T::lemma_parse(rem);
            lemma_parse_items::<T>(s0, i as nat);
            assert(models(items@) =~= models(prev).push(item.model()));
            assert(parse_items::<T>(s0, (i + 1) as nat) == Ok::<(Seq<T::Model>, nat), Error>(
                (models(items@), k + k2),
            ));
            assert(s0.skip(k as int).skip(k2 as int) =~= s0.skip((k + k2) as int));
            k = k + k2;
        }
        i = i + 1;
    }
    proof {
        lemma_parse_varint_len(whole);
        lemma_parse_items::<T>(s0, n as nat);
        assert(whole.skip(vk as int).skip(k as int) =~= whole.skip((vk + k) as int));
    }
    Ok(())
}


impl<T: Readable> Readable for Vec<T> {
    type Model = Seq<T::Model>;

    open spec fn model(&self) -> Seq<T::Model> {
        models(self@)
    }

    open spec fn valid(m: Seq<T::Model>) -> bool {
        valid_seq::<T>(m)
    }

    open spec fn encode(m: Seq<T::Model>) -> Seq<u8> {
        encode_seq::<T>(m)
    }

    open spec fn spec_size() -> Size {
        Size::Variable
    }

    fn size() -> (s: Size) {
        Size::variable()
    }

    proof fn lemma_size(m: Seq<T::Model>) {
    }

    fn accept(&self, visitor: &mut Reader) -> (r: Result<(), Error>) {
        write_vec_items(self, visitor)
    }
}

impl<T: Load> Writable for Vec<T> {
    open spec fn parse(s: Seq<u8>) -> Result<(Seq<T::Model>, nat), Error> {
        parse_seq::<T>(s)
    }

    proof fn lemma_parse(s: Seq<u8>) {
        lemma_parse_seq::<T>(s);
    }

    proof fn lemma_round_trip(m: Seq<T::Model>, rest: Seq<u8>) {
        lemma_seq_round_trip::<T>(m, rest);
    }

    proof fn lemma_truncated(m: Seq<T::Model>, k: nat) {
        lemma_seq_truncated::<T>(m, k);
    }

    fn accept(&mut self, visitor: &mut Writer) -> (r: Result<(), Error>) {
        read_vec_items(self, visitor)
    }
}

impl<T: Load> Load for Vec<T> {
    fn load(from: &mut Writer) -> (r: Result<Vec<T>, Error>) {
        let mut list = Vec::<T>::new();
        read_vec_items(&mut list, from)?;
        Ok(list)
    }
}

/// A collection's encoding starts with a compact integer that decodes to
/// its number of items.
pub proof fn lemma_count_prefix<T: Readable>(ms: Seq<T::Model>)
    requires
        ms.len() <= u32::MAX,
    ensures
        parse_varint(encode_seq::<T>(ms)) == Ok::<(u32, nat), Error>(
            (ms.len() as u32, varint_bytes(ms.len()).len()),
        ),
{
    lemma_varint_round_trip(ms.len() as u32, encode_items::<T>(ms));
}

} // verus!
