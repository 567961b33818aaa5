use bytewise::{Error, Load, OrderedMap, Readable, Reader, Size, UnorderedMap, Varint, Writable, Writer};
use std::collections::VecDeque;

fn encode<T: Readable>(value: &T) -> Vec<u8> {
    let mut sink = Reader::new();
    Readable::accept(value, &mut sink).unwrap();
    sink.into_bytes()
}

fn decode<T: Load>(bytes: &[u8]) -> Result<T, Error> {
    let mut source = Writer::new(bytes.to_vec());
    T::load(&mut source)
}

fn text(s: &str) -> Vec<u8> {
    s.as_bytes().to_vec()
}

#[test]
fn varint_encodings() {
    assert_eq!(encode(&Varint(0)), vec![0x00]);
    assert_eq!(encode(&Varint(1)), vec![0x01]);
    assert_eq!(encode(&Varint(127)), vec![0x7f]);
    assert_eq!(encode(&Varint(128)), vec![0x80, 0x01]);
    assert_eq!(encode(&Varint(300)), vec![0xac, 0x02]);
    assert_eq!(encode(&Varint(16384)), vec![0x80, 0x80, 0x01]);
    assert_eq!(encode(&Varint(u32::MAX)), vec![0xff, 0xff, 0xff, 0xff, 0x0f]);
}

#[test]
fn count_prefix_decodes_to_count() {
    for n in [0u32, 1, 127, 128, 16384, u32::MAX] {
        let bytes = encode(&Varint(n));
        assert_eq!(decode::<Varint>(&bytes), Ok(Varint(n)));
    }
    for n in [0usize, 1, 127, 128, 16384] {
        let items: Vec<u8> = vec![7; n];
        let bytes = encode(&items);
        let mut source = Writer::new(bytes.clone());
        assert_eq!(Varint::load(&mut source), Ok(Varint(n as u32)));
        assert_eq!(source.remaining_len(), n);
    }
}

#[test]
fn varint_errors() {
    assert_eq!(decode::<Varint>(&[]), Err(Error::Truncated));
    assert_eq!(decode::<Varint>(&[0x80]), Err(Error::Truncated));
    assert_eq!(decode::<Varint>(&[0xff, 0xff, 0xff, 0xff]), Err(Error::Truncated));
    assert_eq!(decode::<Varint>(&[0xff, 0xff, 0xff, 0xff, 0x1f]), Err(Error::Overflow));
    assert_eq!(decode::<Varint>(&[0x80, 0x80, 0x80, 0x80, 0x80, 0x00]), Err(Error::Overflow));
}

#[test]
fn empty_deque_is_one_zero_byte() {
    let deque: VecDeque<u8> = VecDeque::new();
    assert_eq!(encode(&deque), vec![0x00]);
    let back: VecDeque<u8> = decode(&[0x00]).unwrap();
    assert!(back.is_empty());
}

#[test]
fn ordered_map_scenario() {
    let mut map: OrderedMap<Varint, Vec<u8>> = OrderedMap::new();
    map.insert(Varint(2), text("b"));
    map.insert(Varint(1), text("a"));
    let bytes = encode(&map);
    assert_eq!(bytes, vec![2, 1, 1, b'a', 2, 1, b'b']);
    let back: OrderedMap<Varint, Vec<u8>> = decode(&bytes).unwrap();
    assert_eq!(back.entries(), &vec![(Varint(1), text("a")), (Varint(2), text("b"))]);
}

#[test]
fn ordered_map_insert_replaces() {
    let mut map: OrderedMap<u8, u8> = OrderedMap::new();
    map.insert(5, 50);
    map.insert(3, 30);
    map.insert(9, 90);
    map.insert(5, 55);
    assert_eq!(map.len(), 3);
    assert_eq!(map.entries(), &vec![(3, 30), (5, 55), (9, 90)]);
}

#[test]
fn duplicate_key_last_wins_ordered() {
    let bytes = [2, 1, 1, b'a', 1, 1, b'b'];
    let map: OrderedMap<Varint, Vec<u8>> = decode(&bytes).unwrap();
    assert_eq!(map.entries(), &vec![(Varint(1), text("b"))]);
}

#[test]
fn duplicate_key_last_wins_unordered() {
    let bytes = [3, 4, 10, 1, 11, 4, 12];
    let map: UnorderedMap<u8, u8> = decode(&bytes).unwrap();
    assert_eq!(map.entries(), &vec![(4, 12), (1, 11)]);
}

#[test]
fn unordered_map_keeps_insertion_order() {
    let mut map: UnorderedMap<u8, Vec<u8>> = UnorderedMap::new();
    map.insert(9, text("x"));
    map.insert(2, text("y"));
    map.insert(9, text("z"));
    assert_eq!(map.len(), 2);
    let bytes = encode(&map);
    assert_eq!(bytes, vec![2, 9, 1, b'z', 2, 1, b'y']);
    let back: UnorderedMap<u8, Vec<u8>> = decode(&bytes).unwrap();
    assert_eq!(back.entries(), map.entries());
}

#[test]
fn round_trip_sequences() {
    let deque: VecDeque<u8> = VecDeque::from(vec![3, 1, 4, 1, 5]);
    let bytes = encode(&deque);
    assert_eq!(bytes, vec![5, 3, 1, 4, 1, 5]);
    assert_eq!(decode::<VecDeque<u8>>(&bytes).unwrap(), deque);

    let list: Vec<Vec<u8>> = vec![text("ab"), vec![], text("c")];
    let bytes = encode(&list);
    assert_eq!(bytes, vec![3, 2, b'a', b'b', 0, 1, b'c']);
    assert_eq!(decode::<Vec<Vec<u8>>>(&bytes).unwrap(), list);
}

#[test]
fn round_trip_nested() {
    let mut inner: OrderedMap<u8, Varint> = OrderedMap::new();
    inner.insert(1, Varint(300));
    let mut outer: VecDeque<OrderedMap<u8, Varint>> = VecDeque::new();
    outer.push_back(inner);
    outer.push_back(OrderedMap::new());
    let bytes = encode(&outer);
    assert_eq!(bytes, vec![2, 1, 1, 0xac, 0x02, 0]);
    let back: VecDeque<OrderedMap<u8, Varint>> = decode(&bytes).unwrap();
    assert_eq!(back.len(), 2);
    assert_eq!(back[0].entries(), &vec![(1, Varint(300))]);
    assert_eq!(back[1].len(), 0);
}

#[test]
fn redecode_replaces_contents() {
    let mut deque: VecDeque<u8> = VecDeque::from(vec![9, 9, 9, 9]);
    let mut source = Writer::new(vec![2, 7, 8]);
    Writable::accept(&mut deque, &mut source).unwrap();
    assert_eq!(deque, VecDeque::from(vec![7, 8]));

    let mut map: OrderedMap<u8, u8> = OrderedMap::new();
    map.insert(1, 1);
    map.insert(2, 2);
    let mut source = Writer::new(vec![1, 3, 33]);
    Writable::accept(&mut map, &mut source).unwrap();
    assert_eq!(map.entries(), &vec![(3, 33)]);

    let mut list: Vec<u8> = vec![1, 2, 3];
    let mut source = Writer::new(vec![0]);
    Writable::accept(&mut list, &mut source).unwrap();
    assert!(list.is_empty());
}

#[test]
fn every_truncation_fails() {
    let mut map: OrderedMap<Varint, Vec<u8>> = OrderedMap::new();
    map.insert(Varint(1), text("a"));
    map.insert(Varint(200), text("bc"));
    let bytes = encode(&map);
    for cut in 0..bytes.len() {
        let got = decode::<OrderedMap<Varint, Vec<u8>>>(&bytes[..cut]);
        assert!(matches!(got, Err(Error::Truncated)), "cut at {}", cut);
    }
    assert!(decode::<OrderedMap<Varint, Vec<u8>>>(&bytes).is_ok());

    let list: Vec<Vec<u8>> = vec![text("xy"), text("z")];
    let bytes = encode(&list);
    for cut in 0..bytes.len() {
        assert_eq!(decode::<Vec<Vec<u8>>>(&bytes[..cut]), Err(Error::Truncated));
    }
}

#[test]
fn decode_leaves_rest_of_stream() {
    let mut source = Writer::new(vec![1, 5, 0xaa, 0xbb]);
    let items = Vec::<u8>::load(&mut source).unwrap();
    assert_eq!(items, vec![5]);
    assert_eq!(source.remaining_len(), 2);
    assert_eq!(source.read_byte(), Ok(0xaa));
    assert_eq!(source.read_byte(), Ok(0xbb));
    assert_eq!(source.read_byte(), Err(Error::Truncated));
}

#[test]
fn bounded_sink_capacity() {
    let list: Vec<u8> = vec![1, 2, 3];
    let mut sink = Reader::with_capacity(3);
    assert_eq!(Readable::accept(&list, &mut sink), Err(Error::CapacityExceeded));
    let mut sink = Reader::with_capacity(4);
    assert_eq!(Readable::accept(&list, &mut sink), Ok(()));
    assert_eq!(sink.into_bytes(), vec![3, 1, 2, 3]);
    let mut sink = Reader::with_capacity(0);
    assert_eq!(sink.write_byte(1), Err(Error::CapacityExceeded));
    assert_eq!(sink.len(), 0);
}

#[test]
fn sizes() {
    assert_eq!(<u8 as Readable>::size(), Size::Fixed(1));
    assert_eq!(<(u8, u8) as Readable>::size(), Size::Fixed(2));
    assert_eq!(<Varint as Readable>::size(), Size::Variable);
    assert_eq!(<Vec<u8> as Readable>::size(), Size::Variable);
    assert_eq!(<VecDeque<u8> as Readable>::size(), Size::Variable);
    assert_eq!(<OrderedMap<u8, u8> as Readable>::size(), Size::Variable);
    assert_eq!(<UnorderedMap<u8, u8> as Readable>::size(), Size::Variable);
    assert_eq!(Size::fixed(3).compose(Size::fixed(4)), Size::Fixed(7));
    assert_eq!(Size::fixed(3).compose(Size::variable()), Size::Variable);
    assert!(Size::fixed(0).is_fixed());
    assert!(!Size::variable().is_fixed());
}

#[test]
fn element_errors_propagate() {
    assert_eq!(decode::<Vec<u8>>(&[2, 1]), Err(Error::Truncated));
    assert_eq!(decode::<Vec<Varint>>(&[1, 0xff, 0xff, 0xff, 0xff, 0x7f]), Err(Error::Overflow));
    assert_eq!(decode::<Vec<u8>>(&[0xff, 0xff, 0xff, 0xff, 0x10]), Err(Error::Overflow));
}
