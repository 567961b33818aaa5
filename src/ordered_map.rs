use vstd::prelude::*;
use crate::codec::{Load, Readable, Writable, decoded};
use crate::error::Error;
use crate::size::Size;
use crate::stream::{Reader, Writer};
use crate::varint::{parse_varint, read_varint, lemma_parse_varint_len};
use crate::varint::Varint;
use crate::sequence::{models, encode_seq, parse_seq, parse_items, valid_seq, write_vec_items, lemma_parse_items, lemma_parse_items_err, lemma_parse_seq, lemma_seq_round_trip, lemma_seq_truncated};

verus! {

/// A key that can be told equal to another.
pub trait KeyEq: Load {
    fn key_eq(&self, other: &Self) -> (r: bool)
        ensures
            r == (self.model() == other.model()),
    ;
}

/// A key that is also totally ordered.
pub trait Key: KeyEq {
    spec fn lt(a: Self::Model, b: Self::Model) -> bool;

    proof fn lemma_order(a: Self::Model, b: Self::Model, c: Self::Model)
        ensures
            !Self::lt(a, a),
            Self::lt(a, b) && Self::lt(b, c) ==> Self::lt(a, c),
            a != b ==> Self::lt(a, b) || Self::lt(b, a),
    ;

    fn key_lt(&self, other: &Self) -> (r: bool)
        ensures
            r == Self::lt(self.model(), other.model()),
    ;
}

impl Key for u8 {
    open spec fn lt(a: u8, b: u8) -> bool {
        a < b
    }

    proof fn lemma_order(a: u8, b: u8, c: u8) {
    }

    fn key_lt(&self, other: &u8) -> (r: bool) {
        *self < *other
    }

}

impl KeyEq for u8 {
    fn key_eq(&self, other: &u8) -> (r: bool) {
        *self == *other
    }
}

impl Key for Varint {
    open spec fn lt(a: u32, b: u32) -> bool {
        a < b
    }

    proof fn lemma_order(a: u32, b: u32, c: u32) {
    }

    fn key_lt(&self, other: &Varint) -> (r: bool) {
        self.0 < other.0
    }

}

impl KeyEq for Varint {
    fn key_eq(&self, other: &Varint) -> (r: bool) {
        self.0 == other.0
    }
}

/// Keys strictly ascending.
pub open spec fn sorted<K: Key, VM>(es: Seq<(K::Model, VM)>) -> bool {
    forall|i: int, j: int| 0 <= i < j < es.len() ==> K::lt(#[trigger] es[i].0, #[trigger] es[j].0)
}

/// Puts `(k, v)` in its place among entries sorted by key, replacing the
/// entry of an equal key.
pub open spec fn sorted_insert<K: Key, VM>(es: Seq<(K::Model, VM)>, k: K::Model, v: VM) -> Seq<
    (K::Model, VM),
>
    decreases es.len(),
{
    if es.len() == 0 {
        seq![(k, v)]
    } else if es[0].0 == k {
        seq![(k, v)] + es.drop_first()
    } else if K::lt(k, es[0].0) {
        seq![(k, v)] + es
    } else {
        seq![es[0]] + sorted_insert::<K, VM>(es.drop_first(), k, v)
    }
}

/// Inserts the entries one after the other into an empty map: the last of
/// equal keys wins.
pub open spec fn insert_all<K: Key, VM>(es: Seq<(K::Model, VM)>) -> Seq<(K::Model, VM)>
    decreases es.len(),
{
    if es.len() == 0 {
        Seq::empty()
    } else {
        sorted_insert::<K, VM>(insert_all::<K, VM>(es.drop_last()), es.last().0, es.last().1)
    }
}

pub proof fn lemma_sorted_insert<K: Key, VM>(es: Seq<(K::Model, VM)>, k: K::Model, v: VM)
    requires
        sorted::<K, VM>(es),
    ensures
        sorted::<K, VM>(sorted_insert::<K, VM>(es, k, v)),
        sorted_insert::<K, VM>(es, k, v).len() <= es.len() + 1,
        forall|i: int| 0 <= i < sorted_insert::<K, VM>(es, k, v).len() ==> {
            let e = #[trigger] sorted_insert::<K, VM>(es, k, v)[i];
            e == (k, v) || es.contains(e)
        },
    decreases es.len(),
{
    let r = sorted_insert::<K, VM>(es, k, v);
    if es.len() == 0 {
    } else if es[0].0 == k {
        assert forall|i: int, j: int| 0 <= i < j < r.len() implies K::lt(#[trigger] r[i].0, #[trigger] r[j].0) by {
            if i == 0 {
                assert(K::lt(es[0].0, es[j].0));
            } else {
                assert(K::lt(es[i].0, es[j].0));
            }
        }
        assert forall|i: int| 0 <= i < r.len() implies {
            let e = #[trigger] r[i];
            e == (k, v) || es.contains(e)
        } by {
            if i > 0 {
                assert(r[i] == es[i]);
            }
        }
    } else if K::lt(k, es[0].0) {
        assert forall|i: int, j: int| 0 <= i < j < r.len() implies K::lt(#[trigger] r[i].0, #[trigger] r[j].0) by {
            if i == 0 {
                if j > 1 {
                    assert(K::lt(es[0].0, es[j - 1].0));
                    K::lemma_order(k, es[0].0, es[j - 1].0);
                }
            } else {
                assert(K::lt(es[i - 1].0, es[j - 1].0));
            }
        }
        assert forall|i: int| 0 <= i < r.len() implies {
            let e = #[trigger] r[i];
            e == (k, v) || es.contains(e)
        } by {
            if i > 0 {
                assert(r[i] == es[i - 1]);
            }
        }
    } else {
        let t = es.drop_first();
        assert(sorted::<K, VM>(t)) by {
            assert forall|i: int, j: int| 0 <= i < j < t.len() implies K::lt(#[trigger] t[i].0, #[trigger] t[j].0) by {
                assert(K::lt(es[i + 1].0, es[j + 1].0));
            }
        }
        lemma_sorted_insert::<K, VM>(t, k, v);
        let rt = sorted_insert::<K, VM>(t, k, v);
        K::lemma_order(k, es[0].0, k);
        assert forall|i: int| 0 <= i < r.len() implies {
            let e = #[trigger] r[i];
            e == (k, v) || es.contains(e)
        } by {
            if i == 0 {
                assert(es.contains(es[0]));
            } else {
                assert(r[i] == rt[i - 1]);
                if rt[i - 1] != (k, v) {
                    let w = choose|w: int| 0 <= w < t.len() && t[w] == rt[i - 1];
                    assert(es[w + 1] == rt[i - 1]);
                }
            }
        }
        assert forall|i: int, j: int| 0 <= i < j < r.len() implies K::lt(#[trigger] r[i].0, #[trigger] r[j].0) by {
            if i == 0 {
                assert(r[j] == rt[j - 1]);
                if rt[j - 1] == (k, v) {
                    K::lemma_order(es[0].0, k, k);
                } else {
                    let w = choose|w: int| 0 <= w < t.len() && t[w] == rt[j - 1];
                    assert(K::lt(es[0].0, es[w + 1].0));
                }
            } else {
                assert(r[i] == rt[i - 1] && r[j] == rt[j - 1]);
            }
        }
    }
}

/// A key above every key present goes at the end.
pub proof fn lemma_sorted_insert_last<K: Key, VM>(es: Seq<(K::Model, VM)>, k: K::Model, v: VM)
    requires
        forall|i: int| 0 <= i < es.len() ==> K::lt(#[trigger] es[i].0, k),
    ensures
        sorted_insert::<K, VM>(es, k, v) == es.push((k, v)),
    decreases es.len(),
{
    if es.len() > 0 {
        K::lemma_order(es[0].0, k, k);
        K::lemma_order(k, es[0].0, k);
        let t = es.drop_first();
        assert forall|i: int| 0 <= i < t.len() implies K::lt(#[trigger] t[i].0, k) by {
            assert(t[i] == es[i + 1]);
        }
        lemma_sorted_insert_last::<K, VM>(t, k, v);
        assert(seq![es[0]] + t.push((k, v)) =~= es.push((k, v)));
    } else {
        assert(seq![(k, v)] =~= es.push((k, v)));
    }
}

/// Entries whose keys are below `k` stay in front of it.
pub proof fn lemma_sorted_insert_skip<K: Key, VM>(es: Seq<(K::Model, VM)>, i: nat, k: K::Model, v: VM)
    requires
        i <= es.len(),
        forall|j: int| 0 <= j < i ==> K::lt(#[trigger] es[j].0, k),
    ensures
        sorted_insert::<K, VM>(es, k, v) == es.take(i as int) + sorted_insert::<K, VM>(
            es.skip(i as int),
            k,
            v,
        ),
    decreases i,
{
    if i > 0 {
        K::lemma_order(es[0].0, k, k);
        K::lemma_order(k, es[0].0, k);
        let t = es.drop_first();
        assert forall|j: int| 0 <= j < i - 1 implies K::lt(#[trigger] t[j].0, k) by {
            assert(t[j] == es[j + 1]);
        }
        lemma_sorted_insert_skip::<K, VM>(t, (i - 1) as nat, k, v);
        assert(t.skip(i - 1) =~= es.skip(i as int));
        assert(seq![es[0]] + t.take(i - 1) =~= es.take(i as int));
    } else {
        assert(es.skip(0) =~= es);
    }
}

/// Inserting entries already sorted by key, one after the other, gives them back.
pub proof fn lemma_insert_all_sorted<K: Key, VM>(es: Seq<(K::Model, VM)>)
    requires
        sorted::<K, VM>(es),
    ensures
        insert_all::<K, VM>(es) == es,
    decreases es.len(),
{
    if es.len() > 0 {
        let front = es.drop_last();
        assert(sorted::<K, VM>(front)) by {
            assert forall|i: int, j: int| 0 <= i < j < front.len() implies K::lt(#[trigger] front[i].0, #[trigger] front[j].0) by {
                assert(K::lt(es[i].0, es[j].0));
            }
        }
        lemma_insert_all_sorted::<K, VM>(front);
        assert forall|i: int| 0 <= i < front.len() implies K::lt(#[trigger] front[i].0, es.last().0) by {
            assert(K::lt(es[i].0, es[es.len() - 1].0));
        }
        lemma_sorted_insert_last::<K, VM>(front, es.last().0, es.last().1);
        assert(front.push(es.last()) =~= es);
    }
}

/// Inserting entries one after the other keeps keys ascending, holds no
/// more entries than were inserted, and only entries that were.
pub proof fn lemma_insert_all<K: Key, VM>(es: Seq<(K::Model, VM)>)
    ensures
        sorted::<K, VM>(insert_all::<K, VM>(es)),
        insert_all::<K, VM>(es).len() <= es.len(),
        forall|i: int| 0 <= i < insert_all::<K, VM>(es).len() ==> es.contains(
            #[trigger] insert_all::<K, VM>(es)[i],
        ),
    decreases es.len(),
{
    if es.len() > 0 {
        let front = es.drop_last();
        let prev = insert_all::<K, VM>(front);
        lemma_insert_all::<K, VM>(front);
        lemma_sorted_insert::<K, VM>(prev, es.last().0, es.last().1);
        let r = insert_all::<K, VM>(es);
        assert forall|i: int| 0 <= i < r.len() implies es.contains(#[trigger] r[i]) by {
            if r[i] == (es.last().0, es.last().1) {
                assert(es[es.len() - 1] == r[i]);
            } else {
                let w = choose|w: int| 0 <= w < prev.len() && prev[w] == r[i];
                let u = choose|u: int| 0 <= u < front.len() && front[u] == prev[w];
                assert(es[u] == r[i]);
            }
        }
    }
}

/// Puts `(key, value)` in its place in entries kept sorted by key.
fn insert_entry<K: Key, V: Load>(entries: &mut Vec<(K, V)>, key: K, value: V)
    requires
        sorted::<K, V::Model>(models(old(entries)@)),
    ensures
        models(final(entries)@) == sorted_insert::<K, V::Model>(
            models(old(entries)@),
            key.model(),
            value.model(),
        ),
{
    let ghost es = models(entries@);
    let ghost k = key.model();
    let ghost v = value.model();
    let len = entries.len();
    let mut i: usize = 0;
    let mut go = true;
    while go && i < len
        invariant
            i <= len,
            len == entries@.len(),
            entries@ == old(entries)@,
            es == models(entries@),
            k == key.model(),
            forall|j: int| 0 <= j < i ==> K::lt(#[trigger] es[j].0, k),
            !go ==> i < len && !K::lt(es[i as int].0, k),
        decreases (len - i) as int + if go { 1int } else { 0int },
    {
        if entries[i].0.key_lt(&key) {
            i = i + 1;
        } else {
            go = false;
        }
    }
    proof {
        lemma_sorted_insert_skip::<K, V::Model>(es, i as nat, k, v);
    }
    let ghost prev = entries@;
    if i < len && entries[i].0.key_eq(&key) {
        entries.remove(i);
        entries.insert(i, (key, value));
        proof {
            let t = es.skip(i as int);
            assert(t[0].0 == k);
            assert(models(entries@) =~= es.take(i as int) + (seq![(k, v)] + t.drop_first()));
        }
    } else {
        entries.insert(i, (key, value));
        proof {
            let t = es.skip(i as int);
            if i < len {
                K::lemma_order(t[0].0, k, k);
                assert(K::lt(k, t[0].0));
            }
            assert(models(entries@) =~= es.take(i as int) + sorted_insert::<K, V::Model>(t, k, v));
        }
    }
}

/// A map whose entries are kept in ascending key order; it encodes them
/// in that order.
pub struct OrderedMap<K: Key, V: Load> {
    entries: Vec<(K, V)>,
}

impl<K: Key, V: Load> OrderedMap<K, V> {
    #[verifier::type_invariant]
    spec fn keys_ascending(self) -> bool {
        sorted::<K, V::Model>(models(self.entries@))
    }

    pub fn new() -> (m: Self)
        ensures
            m.model() == Seq::<(K::Model, V::Model)>::empty(),
    {
        let m = OrderedMap { entries: Vec::new() };
        assert(models(m.entries@) =~= Seq::<(K::Model, V::Model)>::empty());
        m
    }

    /// Sets the value of `key`, replacing any value it had.
    pub fn insert(&mut self, key: K, value: V)
        ensures
            final(self).model() == sorted_insert::<K, V::Model>(
                old(self).model(),
                key.model(),
                value.model(),
            ),
    {
        proof {
            use_type_invariant(&*self);
        }
        let mut entries: Vec<(K, V)> = Vec::new();
        std::mem::swap(&mut entries, &mut self.entries);
        proof {
            lemma_sorted_insert::<K, V::Model>(models(entries@), key.model(), value.model());
        }
        insert_entry(&mut entries, key, value);
        self.entries = entries;
    }

    pub fn len(&self) -> (n: usize)
        ensures
            n == self.model().len(),
    {
        self.entries.len()
    }

    /// The entries, in ascending key order.
    pub fn entries(&self) -> (r: &Vec<(K, V)>)
        ensures
            models(r@) == self.model(),
            sorted::<K, V::Model>(self.model()),
    {
        proof {
            use_type_invariant(self);
        }
        &self.entries
    }
}

impl<K: Key, V: Load> Readable for OrderedMap<K, V> {
    type Model = Seq<(K::Model, V::Model)>;

    closed spec fn model(&self) -> Seq<(K::Model, V::Model)> {
        models(self.entries@)
    }

    open spec fn valid(m: Seq<(K::Model, V::Model)>) -> bool {
        valid_seq::<(K, V)>(m) && sorted::<K, V::Model>(m)
    }

    open spec fn encode(m: Seq<(K::Model, V::Model)>) -> Seq<u8> {
        encode_seq::<(K, V)>(m)
    }

    open spec fn spec_size() -> Size {
        Size::Variable
    }

    fn size() -> (s: Size) {
        Size::variable()
    }

    proof fn lemma_size(m: Seq<(K::Model, V::Model)>) {
    }

    fn accept(&self, visitor: &mut Reader) -> (r: Result<(), Error>) {
        proof {
            use_type_invariant(self);
        }
        write_vec_items(&self.entries, visitor)
    }
}

/// The map that decoding a stream of entries builds.
pub open spec fn parse_ordered<K: Key, V: Load>(s: Seq<u8>) -> Result<(Seq<(K::Model, V::Model)>, nat), Error> {
    match parse_seq::<(K, V)>(s) {
        Ok((es, n)) => Ok((insert_all::<K, V::Model>(es), n)),
        Err(e) => Err(e),
    }
}

/// Replaces the entries of a map by those read from the front of `visitor`.
fn read_entries<K: Key, V: Load>(visitor: &mut Writer) -> (r: Result<Vec<(K, V)>, Error>)
    ensures
        decoded(
            parse_ordered::<K, V>(old(visitor).remaining()),
            old(visitor).remaining(),
            final(visitor).remaining(),
            match r {
                Ok(v) => Ok(models(v@)),
                Err(e) => Err(e),
            },
        ),
        r is Ok ==> sorted::<K, V::Model>(models(r->Ok_0@)),
{
    let ghost whole = old(visitor).remaining();
    let n = read_varint(visitor)?;
    let ghost s0 = visitor.remaining();
    let ghost vk = parse_varint(whole)->Ok_0.1;
    let mut entries: Vec<(K, V)> = Vec::new();
    let ghost mut k: nat = 0;
    let ghost mut es: Seq<(K::Model, V::Model)> = Seq::empty();
    let mut i: u32 = 0;
    assert(models(entries@) =~= Seq::<(K::Model, V::Model)>::empty());
    assert(s0.skip(0) =~= s0);
    while i < n
        invariant
            whole == old(visitor).remaining(),
            s0 == whole.skip(vk as int),
            parse_varint(whole) == Ok::<(u32, nat), Error>((n, vk)),
            i <= n,
            parse_items::<(K, V)>(s0, i as nat) == Ok::<(Seq<(K::Model, V::Model)>, nat), Error>((es, k)),
            models(entries@) == insert_all::<K, V::Model>(es),
            visitor.remaining() == s0.skip(k as int),
        decreases n - i,
    {
        let ghost rem = visitor.remaining();
        let e = match <(K, V) as Load>::load(visitor) {
            Ok(e) => e,
            Err(err) => {
                proof {
                    assert(parse_items::<(K, V)>(s0, (i + 1) as nat) == Err::<
                        (Seq<(K::Model, V::Model)>, nat),
                        Error,
                    >(err));
                    lemma_parse_items_err::<(K, V)>(s0, (i + 1) as nat, n as nat);
                }
                return Err(err);
            },
        };
        let ghost m = e.model();
        proof {
            lemma_insert_all::<K, V::Model>(es);
            assert(es.push(m).drop_last() =~= es);
        }
        let (key, value) = e;
        insert_entry(&mut entries, key, value);
        proof {
            let k2 = <(K, V) as Writable>::parse(rem)->Ok_0.1;
            <(K, V) as Writable>::lemma_parse(rem);
            lemma_parse_items::<(K, V)>(s0, i as nat);
            assert(s0.skip(k as int).skip(k2 as int) =~= s0.skip((k + k2) as int));
            k = k + k2;
            es = es.push(m);
        }
        i = i + 1;
    }
    proof {
        lemma_parse_varint_len(whole);
        lemma_parse_items::<(K, V)>(s0, n as nat);
        lemma_insert_all::<K, V::Model>(es);
        assert(whole.skip(vk as int).skip(k as int) =~= whole.skip((vk + k) as int));
    }
    Ok(entries)
}

impl<K: Key, V: Load> Writable for OrderedMap<K, V> {
    open spec fn parse(s: Seq<u8>) -> Result<(Seq<(K::Model, V::Model)>, nat), Error> {
        parse_ordered::<K, V>(s)
    }

    proof fn lemma_parse(s: Seq<u8>) {
        lemma_parse_seq::<(K, V)>(s);
        if parse_seq::<(K, V)>(s) is Ok {
            let es = parse_seq::<(K, V)>(s)->Ok_0.0;
            lemma_insert_all::<K, V::Model>(es);
            let r = insert_all::<K, V::Model>(es);
            assert forall|i: int| 0 <= i < r.len() implies #[trigger] <(K, V) as Readable>::valid(r[i]) by {
                let w = choose|w: int| 0 <= w < es.len() && es[w] == r[i];
                assert(<(K, V) as Readable>::valid(es[w]));
            }
        }
    }

    proof fn lemma_round_trip(m: Seq<(K::Model, V::Model)>, rest: Seq<u8>) {
        lemma_seq_round_trip::<(K, V)>(m, rest);
        lemma_insert_all_sorted::<K, V::Model>(m);
    }

    proof fn lemma_truncated(m: Seq<(K::Model, V::Model)>, k: nat) {
        lemma_seq_truncated::<(K, V)>(m, k);
    }

    fn accept(&mut self, visitor: &mut Writer) -> (r: Result<(), Error>) {
        self.entries = Vec::new();
        assert(models(self.entries@) =~= Seq::<(K::Model, V::Model)>::empty());
        let entries = read_entries::<K, V>(visitor)?;
        self.entries = entries;
        Ok(())
    }
}

impl<K: Key, V: Load> Load for OrderedMap<K, V> {
    fn load(from: &mut Writer) -> (r: Result<OrderedMap<K, V>, Error>) {
        let mut map = OrderedMap::new();
        Writable::accept(&mut map, from)?;
        Ok(map)
    }
}

/// Two entries of one key in a stream leave one entry, with the value read last.
pub proof fn lemma_ordered_last_wins<K: Key, VM>(k: K::Model, first: VM, second: VM)
    ensures
        insert_all::<K, VM>(seq![(k, first), (k, second)]) == seq![(k, second)],
{
    let es = seq![(k, first), (k, second)];
    assert(es.drop_last() =~= seq![(k, first)]);
    assert(seq![(k, first)].drop_last() =~= Seq::<(K::Model, VM)>::empty());
    assert(insert_all::<K, VM>(Seq::<(K::Model, VM)>::empty()) == Seq::<(K::Model, VM)>::empty());
    assert(insert_all::<K, VM>(seq![(k, first)]) == seq![(k, first)]);
    assert(seq![(k, first)].drop_first() =~= Seq::<(K::Model, VM)>::empty());
    assert(seq![(k, second)] + Seq::<(K::Model, VM)>::empty() =~= seq![(k, second)]);
}

} // verus!
