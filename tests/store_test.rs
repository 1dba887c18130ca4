use variadb::{
    check_signature, encode_entry, encode_gap, push_be16, read_be16, signature, CacheUpdate,
    Disk, Engine, ErrorKind,
};

fn text(s: &str) -> Vec<u8> {
    let mut b = vec![0u8];
    b.extend(postcard::to_allocvec(&s.to_string()).unwrap());
    b
}

fn engine() -> Engine {
    Engine::new(Disk::new(&[]).unwrap())
}

#[test]
fn scenario_put_then_get() {
    let mut e = engine();
    let r = e.put(&"foo".to_string(), text("bar")).unwrap();
    assert_eq!(r.value, None);
    let g = e.get(&"foo".to_string(), None).unwrap();
    assert_eq!(g.value, Some(text("bar")));
}

#[test]
fn scenario_upsert() {
    let mut e = engine();
    e.put(&"k".to_string(), text("a")).unwrap();
    let r = e.put(&"k".to_string(), text("b")).unwrap();
    assert_eq!(r.value, Some(text("a")));
    assert_eq!(e.get(&"k".to_string(), None).unwrap().value, Some(text("b")));
}

#[test]
fn scenario_delete() {
    let mut e = engine();
    e.put(&"k".to_string(), text("v")).unwrap();
    let r = e.del(&"k".to_string()).unwrap();
    assert_eq!(r.value, Some(text("v")));
    assert_eq!(e.get(&"k".to_string(), None).unwrap().value, None);
}

#[test]
fn scenario_gap_reuse() {
    let mut e = engine();
    e.put(&"a".to_string(), text(&"x".repeat(10))).unwrap();
    let size = e.disk().size();
    e.del(&"a".to_string()).unwrap();
    e.put(&"b".to_string(), text(&"y".repeat(5))).unwrap();
    assert_eq!(e.disk().size(), size);
    assert_eq!(e.disk().to_image().len(), size);
    assert_eq!(e.get(&"b".to_string(), None).unwrap().value, Some(text(&"y".repeat(5))));
}

#[test]
fn scenario_list_order() {
    let mut e = engine();
    e.put(&"k1".to_string(), text("v")).unwrap();
    e.put(&"k2".to_string(), text("v")).unwrap();
    e.del(&"k1".to_string()).unwrap();
    e.put(&"k3".to_string(), text("v")).unwrap();
    // k3's entry is as long as k1's was, so it takes k1's place in the file
    assert_eq!(e.list().unwrap(), vec!["k3".to_string(), "k2".to_string()]);
    assert_eq!(e.len(), 2);
}

#[test]
fn scenario_invalid_key() {
    let mut e = engine();
    let r = e.put(&"bad key!".to_string(), text("v"));
    assert_eq!(r.err().unwrap().kind, ErrorKind::InvalidInput);
    assert_eq!(e.list().unwrap(), Vec::<String>::new());
}

#[test]
fn empty_key_is_rejected_everywhere() {
    let mut e = engine();
    let empty = "".to_string();
    assert_eq!(e.put(&empty, text("v")).err().unwrap().kind, ErrorKind::InvalidInput);
    assert_eq!(e.get(&empty, None).err().unwrap().kind, ErrorKind::InvalidInput);
    assert_eq!(e.del(&empty).err().unwrap().kind, ErrorKind::InvalidInput);
    assert_eq!(e.get(&"a-b".to_string(), None).err().unwrap().kind, ErrorKind::InvalidInput);
    assert_eq!(e.disk().size(), 16);
}

#[test]
fn unicode_letters_are_valid_keys() {
    assert!(variadb::key_validation(&"clé9".to_string()).is_ok());
    assert!(variadb::key_validation(&"a b".to_string()).is_err());
}

#[test]
fn large_values_round_trip() {
    let mut e = engine();
    let v = vec![7u8; 1_000_000];
    e.put(&"big".to_string(), v.clone()).unwrap();
    assert_eq!(e.get(&"big".to_string(), None).unwrap().value, Some(v));
}

#[test]
fn cache_hit_is_returned_and_miss_is_stored() {
    let mut e = engine();
    e.put(&"k".to_string(), text("disk")).unwrap();
    let hit = e.get(&"k".to_string(), Some(Some(text("disk")))).unwrap();
    assert_eq!(hit.value, Some(text("disk")));
    assert!(matches!(hit.update, CacheUpdate::Keep));
    let miss = e.get(&"k".to_string(), None).unwrap();
    match miss.update {
        CacheUpdate::Store(v) => assert_eq!(v, Some(text("disk"))),
        _ => panic!("a miss must fill the cache"),
    }
    let absent = e.get(&"other".to_string(), None).unwrap();
    assert_eq!(absent.value, None);
    assert!(matches!(absent.update, CacheUpdate::Store(None)));
    let d = e.del(&"k".to_string()).unwrap();
    assert_eq!(d.value, Some(text("disk")));
    assert!(matches!(d.update, CacheUpdate::Invalidate));
    let p = e.put(&"k".to_string(), text("new")).unwrap();
    match p.update {
        CacheUpdate::Store(v) => assert_eq!(v, Some(text("new"))),
        _ => panic!("a put must refresh the cache"),
    }
}

#[test]
fn clear_empties_the_log() {
    let mut e = engine();
    e.put(&"a".to_string(), text("1")).unwrap();
    e.put(&"b".to_string(), text("2")).unwrap();
    assert!(matches!(e.clear(), CacheUpdate::InvalidateAll));
    assert_eq!(e.list().unwrap(), Vec::<String>::new());
    assert_eq!(e.len(), 0);
    assert_eq!(e.get(&"a".to_string(), None).unwrap().value, None);
    assert_eq!(e.disk().to_image(), signature());
}

#[test]
fn signature_bytes() {
    assert_eq!(signature(), b"varia---------db".to_vec());
    assert!(check_signature(b"varia---------db").is_ok());
    assert_eq!(check_signature(b"varia---------dc").err().unwrap().kind, ErrorKind::InvalidData);
}

#[test]
fn open_rejects_bad_signature() {
    let r = Disk::new(b"not a log file!!");
    assert_eq!(r.err().unwrap().kind, ErrorKind::InvalidData);
    let r = Disk::new(b"varia");
    assert_eq!(r.err().unwrap().kind, ErrorKind::InvalidData);
}

#[test]
fn open_empty_is_fresh_and_writes_signature() {
    let d = Disk::new(&[]).unwrap();
    assert_eq!(d.len(), 0);
    assert_eq!(d.to_image(), b"varia---------db".to_vec());
    let again = Disk::new(&d.to_image()).unwrap();
    assert_eq!(again.len(), 0);
}

#[test]
fn entry_bytes_are_exact() {
    let mut d = Disk::new(&[]).unwrap();
    d.put(&"foo".to_string(), vec![9u8, 8u8]).unwrap();
    let img = d.to_image();
    let mut want = b"varia---------db".to_vec();
    want.push(0);
    let mut klen = vec![0u8; 16];
    klen[15] = 4;
    let mut vlen = vec![0u8; 16];
    vlen[15] = 2;
    want.extend(klen);
    want.extend(vlen);
    want.extend([3u8, b'f', b'o', b'o']);
    want.extend([9u8, 8u8]);
    assert_eq!(img, want);
    assert_eq!(d.size(), 16 + 33 + 4 + 2);
}

#[test]
fn image_round_trip_with_gaps() {
    let mut d = Disk::new(&[]).unwrap();
    d.put(&"a".to_string(), vec![1u8; 40]).unwrap();
    d.put(&"b".to_string(), vec![2u8; 3]).unwrap();
    d.del(&"a".to_string()).unwrap();
    d.put(&"c".to_string(), vec![3u8; 10]).unwrap();
    let img = d.to_image();
    let back = Disk::new(&img).unwrap();
    assert_eq!(back.to_image(), img);
    assert_eq!(back.list().unwrap(), vec!["c".to_string(), "b".to_string()]);
    assert_eq!(back.get(&"c".to_string()).unwrap(), Some(vec![3u8; 10]));
    assert_eq!(back.get(&"a".to_string()).unwrap(), None);
}

#[test]
fn long_gap_split_leaves_a_short_gap() {
    let mut d = Disk::new(&[]).unwrap();
    d.put(&"a".to_string(), vec![0u8; 10]).unwrap();
    d.del(&"a".to_string()).unwrap();
    d.put(&"b".to_string(), vec![0u8; 5]).unwrap();
    let img = d.to_image();
    // entry of b (33 + 2 + 5 bytes), then a five-byte gap
    assert_eq!(img.len(), 16 + 45);
    assert_eq!(img[16], 0);
    assert_eq!(img[16 + 40], 5);
}

#[test]
fn open_rejects_unknown_opcode_and_truncation() {
    let mut img = signature();
    img.push(18);
    assert_eq!(Disk::new(&img).err().unwrap().kind, ErrorKind::InvalidData);
    let mut img = signature();
    img.push(5);
    img.push(0);
    assert_eq!(Disk::new(&img).err().unwrap().kind, ErrorKind::InvalidData);
    let mut img = signature();
    img.push(0);
    assert_eq!(Disk::new(&img).err().unwrap().kind, ErrorKind::InvalidData);
}

#[test]
fn open_rejects_duplicate_keys() {
    let e = encode_entry(&[1u8, b'k'], &[1u8]);
    let mut img = signature();
    img.extend(e.clone());
    img.extend(e);
    assert_eq!(Disk::new(&img).err().unwrap().kind, ErrorKind::InvalidData);
}

#[test]
fn gap_encoding() {
    assert_eq!(encode_gap(1), vec![1u8]);
    assert_eq!(encode_gap(3), vec![3u8, 0, 0]);
    let g = encode_gap(20);
    assert_eq!(g.len(), 20);
    assert_eq!(g[0], 17);
    assert_eq!(g[16], 20);
    assert!(g[1..16].iter().all(|b| *b == 0));
    let g = encode_gap(16);
    assert_eq!(g[0], 16);
    assert_eq!(g.len(), 16);
}

#[test]
fn big_endian_lengths() {
    let mut out = Vec::new();
    push_be16(&mut out, 0x0102);
    assert_eq!(out.len(), 16);
    assert_eq!(out[14], 1);
    assert_eq!(out[15], 2);
    assert_eq!(read_be16(&out, 0), 0x0102);
    let mut out = Vec::new();
    push_be16(&mut out, u128::MAX);
    assert_eq!(read_be16(&out, 0), u128::MAX);
}

#[test]
fn keys_are_listed_by_their_decoded_names() {
    let mut d = Disk::new(&[]).unwrap();
    d.put(&"héllo".to_string(), vec![1u8]).unwrap();
    let img = d.to_image();
    // the stored key is postcard's encoding: its length, then its bytes
    assert_eq!(img[16 + 33], 6);
    assert_eq!(d.list().unwrap(), vec!["héllo".to_string()]);
}

#[test]
fn put_and_del_return_the_log_value() {
    let mut e = engine();
    assert_eq!(e.put(&"k".to_string(), text("one")).unwrap().value, None);
    assert_eq!(e.put(&"k".to_string(), text("two")).unwrap().value, Some(text("one")));
    assert_eq!(e.del(&"k".to_string()).unwrap().value, Some(text("two")));
    assert_eq!(e.del(&"k".to_string()).unwrap().value, None);
}

#[test]
fn a_get_after_clear_is_absent() {
    let mut e = engine();
    e.put(&"k".to_string(), text("v")).unwrap();
    e.clear();
    assert_eq!(e.get(&"k".to_string(), None).unwrap().value, None);
}
