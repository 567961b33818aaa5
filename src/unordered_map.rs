use vstd::prelude::*;
use crate::codec::{Load, Readable, Writable, decoded};
use crate::error::Error;
use crate::ordered_map::KeyEq;
use crate::size::Size;
use crate::stream::{Reader, Writer};
use crate::varint::{parse_varint, read_varint, lemma_parse_varint_len};
use crate::sequence::{models, encode_seq, parse_seq, parse_items, valid_seq, write_vec_items, lemma_parse_items, lemma_parse_items_err, lemma_parse_seq, lemma_seq_round_trip, lemma_seq_truncated};

verus! {

/// No key occurs twice.
pub open spec fn distinct_keys<KM, VM>(es: Seq<(KM, VM)>) -> bool {
    forall|i: int, j: int| 0 <= i < j < es.len() ==> #[trigger] es[i].0 != #[trigger] es[j].0
}

/// Replaces the value of the entry of key `k`, or adds `(k, v)` at the end.
pub open spec fn keyed_insert<KM, VM>(es: Seq<(KM, VM)>, k: KM, v: VM) -> Seq<(KM, VM)>
    decreases es.len(),
{
    if es.len() == 0 {
        seq![(k, v)]
    } else if es[0].0 == k {
        seq![(k, v)] + es.drop_first()
    } else {
        seq![es[0]] + keyed_insert(es.drop_first(), k, v)
    }
}

/// Inserts the entries one after the other into an empty map: the last of
/// equal keys wins.
pub open spec fn keyed_insert_all<KM, VM>(es: Seq<(KM, VM)>) -> Seq<(KM, VM)>
    decreases es.len(),
{
    if es.len() == 0 {
        Seq::empty()
    } else {
        keyed_insert(keyed_insert_all(es.drop_last()), es.last().0, es.last().1)
    }
}

pub proof fn lemma_keyed_insert<KM, VM>(es: Seq<(KM, VM)>, k: KM, v: VM)
    ensures
        keyed_insert(es, k, v).len() <= es.len() + 1,
        forall|i: int| 0 <= i < keyed_insert(es, k, v).len() ==> {
            let e = #[trigger] keyed_insert(es, k, v)[i];
            e == (k, v) || es.contains(e)
        },
        distinct_keys(es) ==> distinct_keys(keyed_insert(es, k, v)),
    decreases es.len(),
{
    let r = keyed_insert(es, k, v);
    if es.len() == 0 {
    } else if es[0].0 == k {
        assert forall|i: int| 0 <= i < r.len() implies {
            let e = #[trigger] r[i];
            e == (k, v) || es.contains(e)
        } by {
            if i > 0 {
                assert(r[i] == es[i]);
            }
        }
        if distinct_keys(es) {
            assert forall|i: int, j: int| 0 <= i < j < r.len() implies #[trigger] r[i].0 != #[trigger] r[j].0 by {
                assert(es[i].0 != es[j].0);
            }
        }
    } else {
        let t = es.drop_first();
        lemma_keyed_insert(t, k, v);
        let rt = keyed_insert(t, k, v);
        assert forall|i: int| 0 <= i < r.len() implies {
            let e = #[trigger] r[i];
            e == (k, v) || es.contains(e)
        } by {
            if i == 0 {
                assert(es.contains(es[0]));
            } else {
                assert(r[i] == rt[i - 1]);
                if rt[i - 1] != (k, v) {
                    let w = choose|w: int| 0 <= w < t.len() && t[w] == rt[i - 1];
                    assert(es[w + 1] == rt[i - 1]);
                }
            }
        }
        if distinct_keys(es) {
            assert(distinct_keys(t)) by {
                assert forall|i: int, j: int| 0 <= i < j < t.len() implies #[trigger] t[i].0 != #[trigger] t[j].0 by {
                    assert(es[i + 1].0 != es[j + 1].0);
                }
            }
            assert forall|i: int, j: int| 0 <= i < j < r.len() implies #[trigger] r[i].0 != #[trigger] r[j].0 by {
                if i == 0 {
                    assert(r[j] == rt[j - 1]);
                    if rt[j - 1] != (k, v) {
                        let w = choose|w: int| 0 <= w < t.len() && t[w] == rt[j - 1];
                        assert(es[0].0 != es[w + 1].0);
                    }
                } else {
                    assert(r[i] == rt[i - 1] && r[j] == rt[j - 1]);
                }
            }
        }
    }
}

/// A key not present goes at the end.
pub proof fn lemma_keyed_insert_new<KM, VM>(es: Seq<(KM, VM)>, k: KM, v: VM)
    requires
        forall|i: int| 0 <= i < es.len() ==> #[trigger] es[i].0 != k,
    ensures
        keyed_insert(es, k, v) == es.push((k, v)),
    decreases es.len(),
{
    if es.len() > 0 {
        let t = es.drop_first();
        assert forall|i: int| 0 <= i < t.len() implies #[trigger] t[i].0 != k by {
            assert(t[i] == es[i + 1]);
        }
        lemma_keyed_insert_new(t, k, v);
        assert(seq![es[0]] + t.push((k, v)) =~= es.push((k, v)));
    } else {
        assert(seq![(k, v)] =~= es.push((k, v)));
    }
}

/// Entries of other keys in front stay in front.
pub proof fn lemma_keyed_insert_skip<KM, VM>(es: Seq<(KM, VM)>, i: nat, k: KM, v: VM)
    requires
        i <= es.len(),
        forall|j: int| 0 <= j < i ==> #[trigger] es[j].0 != k,
    ensures
        keyed_insert(es, k, v) == es.take(i as int) + keyed_insert(es.skip(i as int), k, v),
    decreases i,
{
    if i > 0 {
        let t = es.drop_first();
        assert forall|j: int| 0 <= j < i - 1 implies #[trigger] t[j].0 != k by {
            assert(t[j] == es[j + 1]);
        }
        lemma_keyed_insert_skip(t, (i - 1) as nat, k, v);
        assert(t.skip(i - 1) =~= es.skip(i as int));
        assert(seq![es[0]] + t.take(i - 1) =~= es.take(i as int));
    } else {
        assert(es.skip(0) =~= es);
    }
}

/// Inserting entries of distinct keys one after the other gives them back.
pub proof fn lemma_keyed_insert_all_distinct<KM, VM>(es: Seq<(KM, VM)>)
    requires
        distinct_keys(es),
    ensures
        keyed_insert_all(es) == es,
    decreases es.len(),
{
    if es.len() > 0 {
        let front = es.drop_last();
        assert(distinct_keys(front)) by {
            assert forall|i: int, j: int| 0 <= i < j < front.len() implies #[trigger] front[i].0
                != #[trigger] front[j].0 by {
                assert(es[i].0 != es[j].0);
            }
        }
        lemma_keyed_insert_all_distinct(front);
        assert forall|i: int| 0 <= i < front.len() implies #[trigger] front[i].0 != es.last().0 by {
            assert(es[i].0 != es[es.len() - 1].0);
        }
        lemma_keyed_insert_new(front, es.last().0, es.last().1);
        assert(front.push(es.last()) =~= es);
    }
}

/// Inserting entries one after the other keeps keys distinct, holds no more
/// entries than were inserted, and only entries that were.
pub proof fn lemma_keyed_insert_all<KM, VM>(es: Seq<(KM, VM)>)
    ensures
        distinct_keys(keyed_insert_all(es)),
        keyed_insert_all(es).len() <= es.len(),
        forall|i: int| 0 <= i < keyed_insert_all(es).len() ==> es.contains(
            #[trigger] keyed_insert_all(es)[i],
        ),
    decreases es.len(),
{
    if es.len() > 0 {
        let front = es.drop_last();
        let prev = keyed_insert_all(front);
        lemma_keyed_insert_all(front);
        lemma_keyed_insert(prev, es.last().0, es.last().1);
        let r = keyed_insert_all(es);
        assert forall|i: int| 0 <= i < r.len() implies es.contains(#[trigger] r[i]) by {
            if r[i] == (es.last().0, es.last().1) {
                assert(es[es.len() - 1] == r[i]);
            } else {
                let w = choose|w: int| 0 <= w < prev.len() && prev[w] == r[i];
                let u = choose|u: int| 0 <= u < front.len() && front[u] == prev[w];
                assert(es[u] == r[i]);
            }
        }
    }
}

/// Sets the value of `key` among entries of distinct keys.
fn insert_keyed<K: KeyEq, V: Load>(entries: &mut Vec<(K, V)>, key: K, value: V)
    ensures
        models(final(entries)@) == keyed_insert(models(old(entries)@), key.model(), value.model()),
{
    let ghost es = models(entries@);
    let ghost k = key.model();
    let ghost v = value.model();
    let len = entries.len();
    let mut i: usize = 0;
    let mut go = true;
    while go && i < len
        invariant
            i <= len,
            len == entries@.len(),
            entries@ == old(entries)@,
            es == models(entries@),
            k == key.model(),
            forall|j: int| 0 <= j < i ==> #[trigger] es[j].0 != k,
            !go ==> i < len && es[i as int].0 == k,
        decreases (len - i) as int + if go { 1int } else { 0int },
    {
        if entries[i].0.key_eq(&key) {
            go = false;
        } else {
            i = i + 1;
        }
    }
    proof {
        lemma_keyed_insert_skip(es, i as nat, k, v);
    }
    if i < len {
        entries.remove(i);
        entries.insert(i, (key, value));
        proof {
            let t = es.skip(i as int);
            assert(t[0].0 == k);
            assert(models(entries@) =~= es.take(i as int) + (seq![(k, v)] + t.drop_first()));
        }
    } else {
        entries.push((key, value));
        proof {
            assert(models(entries@) =~= es.take(i as int) + keyed_insert(es.skip(i as int), k, v));
        }
    }
}

/// A map that keeps each key once, in the order keys were first inserted.
/// Its encoding follows that order, which depends on how the map was built:
/// two maps with the same associations may encode differently.
pub struct UnorderedMap<K: KeyEq, V: Load> {
    entries: Vec<(K, V)>,
}

impl<K: KeyEq, V: Load> UnorderedMap<K, V> {
    #[verifier::type_invariant]
    spec fn keys_distinct(self) -> bool {
        distinct_keys(models(self.entries@))
    }

    pub fn new() -> (m: Self)
        ensures
            m.model() == Seq::<(K::Model, V::Model)>::empty(),
    {
        let m = UnorderedMap { entries: Vec::new() };
        assert(models(m.entries@) =~= Seq::<(K::Model, V::Model)>::empty());
        m
    }

    /// Sets the value of `key`, replacing any value it had.
    pub fn insert(&mut self, key: K, value: V)
        ensures
            final(self).model() == keyed_insert(old(self).model(), key.model(), value.model()),
    {
        proof {
            use_type_invariant(&*self);
        }
        let mut entries: Vec<(K, V)> = Vec::new();
        std::mem::swap(&mut entries, &mut self.entries);
        proof {
            lemma_keyed_insert(models(entries@), key.model(), value.model());
        }
        insert_keyed(&mut entries, key, value);
        self.entries = entries;
    }

    pub fn len(&self) -> (n: usize)
        ensures
            n == self.model().len(),
    {
        self.entries.len()
    }

    /// The entries, each key once.
    pub fn entries(&self) -> (r: &Vec<(K, V)>)
        ensures
            models(r@) == self.model(),
            distinct_keys(self.model()),
    {
        proof {
            use_type_invariant(self);
        }
        &self.entries
    }
}

impl<K: KeyEq, V: Load> Readable for UnorderedMap<K, V> {
    type Model = Seq<(K::Model, V::Model)>;

    closed spec fn model(&self) -> Seq<(K::Model, V::Model)> {
        models(self.entries@)
    }

    open spec fn valid(m: Seq<(K::Model, V::Model)>) -> bool {
        valid_seq::<(K, V)>(m) && distinct_keys(m)
    }

    open spec fn encode(m: Seq<(K::Model, V::Model)>) -> Seq<u8> {
        encode_seq::<(K, V)>(m)
    }

    open spec fn spec_size() -> Size {
        Size::Variable
    }

    fn size() -> (s: Size) {
        Size::variable()
    }

    proof fn lemma_size(m: Seq<(K::Model, V::Model)>) {
    }

    fn accept(&self, visitor: &mut Reader) -> (r: Result<(), Error>) {
        proof {
            use_type_invariant(self);
        }
        write_vec_items(&self.entries, visitor)
    }
}

/// The map that decoding a stream of entries builds.
pub open spec fn parse_unordered<K: KeyEq, V: Load>(s: Seq<u8>) -> Result<(Seq<(K::Model, V::Model)>, nat), Error> {
    match parse_seq::<(K, V)>(s) {
        Ok((es, n)) => Ok((keyed_insert_all(es), n)),
        Err(e) => Err(e),
    }
}

/// Builds the entries of a map from a count and that many entries read
/// from the front of `visitor`.
fn read_keyed_entries<K: KeyEq, V: Load>(visitor: &mut Writer) -> (r: Result<Vec<(K, V)>, Error>)
    ensures
        decoded(
            parse_unordered::<K, V>(old(visitor).remaining()),
            old(visitor).remaining(),
            final(visitor).remaining(),
            match r {
                Ok(v) => Ok(models(v@)),
                Err(e) => Err(e),
            },
        ),
        r is Ok ==> distinct_keys(models(r->Ok_0@)),
{
    let ghost whole = old(visitor).remaining();
    let n = read_varint(visitor)?;
    let ghost s0 = visitor.remaining();
    let ghost vk = parse_varint(whole)->Ok_0.1;
    let mut entries: Vec<(K, V)> = Vec::new();
    let ghost mut k: nat = 0;
    let ghost mut es: Seq<(K::Model, V::Model)> = Seq::empty();
    let mut i: u32 = 0;
    assert(models(entries@) =~= Seq::<(K::Model, V::Model)>::empty());
    assert(s0.skip(0) =~= s0);
    while i < n
        invariant
            whole == old(visitor).remaining(),
            s0 == whole.skip(vk as int),
            parse_varint(whole) == Ok::<(u32, nat), Error>((n, vk)),
            i <= n,
            parse_items::<(K, V)>(s0, i as nat) == Ok::<(Seq<(K::Model, V::Model)>, nat), Error>((es, k)),
            models(entries@) == keyed_insert_all(es),
            visitor.remaining() == s0.skip(k as int),
        decreases n - i,
    {
        let ghost rem = visitor.remaining();
        let e = match <(K, V) as Load>::load(visitor) {
            Ok(e) => e,
            Err(err) => {
                proof {
                    assert(parse_items::<(K, V)>(s0, (i + 1) as nat) == Err::<
                        (Seq<(K::Model, V::Model)>, nat),
                        Error,
                    >(err));
                    lemma_parse_items_err::<(K, V)>(s0, (i + 1) as nat, n as nat);
                }
                return Err(err);
            },
        };
        let ghost m = e.model();
        proof {
            assert(es.push(m).drop_last() =~= es);
        }
        let (key, value) = e;
        insert_keyed(&mut entries, key, value);
        proof {
            let k2 = <(K, V) as Writable>::parse(rem)->Ok_0.1;
            <(K, V) as Writable>::lemma_parse(rem);
            lemma_parse_items::<(K, V)>(s0, i as nat);
            assert(s0.skip(k as int).skip(k2 as int) =~= s0.skip((k + k2) as int));
            k = k + k2;
            es = es.push(m);
        }
        i = i + 1;
    }
    proof {
        lemma_parse_varint_len(whole);
        lemma_parse_items::<(K, V)>(s0, n as nat);
        lemma_keyed_insert_all(es);
        assert(whole.skip(vk as int).skip(k as int) =~= whole.skip((vk + k) as int));
    }
    Ok(entries)
}

impl<K: KeyEq, V: Load> Writable for UnorderedMap<K, V> {
    open spec fn parse(s: Seq<u8>) -> Result<(Seq<(K::Model, V::Model)>, nat), Error> {
        parse_unordered::<K, V>(s)
    }

    proof fn lemma_parse(s: Seq<u8>) {
        lemma_parse_seq::<(K, V)>(s);
        if parse_seq::<(K, V)>(s) is Ok {
            let es = parse_seq::<(K, V)>(s)->Ok_0.0;
            lemma_keyed_insert_all(es);
            let r = keyed_insert_all(es);
            assert forall|i: int| 0 <= i < r.len() implies #[trigger] <(K, V) as Readable>::valid(r[i]) by {
                let w = choose|w: int| 0 <= w < es.len() && es[w] == r[i];
                assert(<(K, V) as Readable>::valid(es[w]));
            }
        }
    }

    proof fn lemma_round_trip(m: Seq<(K::Model, V::Model)>, rest: Seq<u8>) {
        lemma_seq_round_trip::<(K, V)>(m, rest);
        lemma_keyed_insert_all_distinct(m);
    }

    proof fn lemma_truncated(m: Seq<(K::Model, V::Model)>, k: nat) {
        lemma_seq_truncated::<(K, V)>(m, k);
    }

    fn accept(&mut self, visitor: &mut Writer) -> (r: Result<(), Error>) {
        self.entries = Vec::new();
        assert(models(self.entries@) =~= Seq::<(K::Model, V::Model)>::empty());
        let entries = read_keyed_entries::<K, V>(visitor)?;
        self.entries = entries;
        Ok(())
    }
}

impl<K: KeyEq, V: Load> Load for UnorderedMap<K, V> {
    fn load(from: &mut Writer) -> (r: Result<UnorderedMap<K, V>, Error>) {
        let mut map = UnorderedMap::new();
        Writable::accept(&mut map, from)?;
        Ok(map)
    }
}

/// Two entries of one key in a stream leave one entry, with the value read last.
pub proof fn lemma_unordered_last_wins<KM, VM>(k: KM, first: VM, second: VM)
    ensures
        keyed_insert_all(seq![(k, first), (k, second)]) == seq![(k, second)],
{
    let es = seq![(k, first), (k, second)];
    assert(es.drop_last() =~= seq![(k, first)]);
    assert(seq![(k, first)].drop_last() =~= Seq::<(KM, VM)>::empty());
    assert(keyed_insert_all::<KM, VM>(Seq::<(KM, VM)>::empty()) == Seq::<(KM, VM)>::empty());
    assert(keyed_insert_all(seq![(k, first)]) == seq![(k, first)]);
    assert(seq![(k, first)].drop_first() =~= Seq::<(KM, VM)>::empty());
    assert(seq![(k, second)] + Seq::<(KM, VM)>::empty() =~= seq![(k, second)]);
}

} // verus!
