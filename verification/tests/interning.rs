use std::cmp::Ordering;
use std::collections::{HashMap, HashSet};
use ustr::{
    _clear_cache, cache, existing_ustr, num_entries, num_entries_per_bin, string_cache_iter,
    total_allocated, total_capacity, try_ustr, ustr, whichbin, Bins, BinsVisitor, IdentityHasher,
    Ustr, UstrVisitor,
};

fn pool() -> Vec<String> {
    let mut words = Vec::new();
    let mut i: u32 = 0;
    while words.len() < 1315 {
        words.push(format!("token-{}-{}", i, i.wrapping_mul(2654435761)));
        i += 1;
    }
    words
}

#[test]
fn it_works() {
    let mut c = cache();
    let u_hello = ustr(&mut c, "hello");
    assert_eq!(u_hello.as_str(&c), "hello");
    let u_world = ustr(&mut c, "world");
    assert_eq!(u_world.to_owned(&c), String::from("world"));
}

#[test]
fn empty_string() {
    let mut c = cache();
    _clear_cache(&mut c);

    let _empty = ustr(&mut c, "");
    let empty = ustr(&mut c, "");

    assert!(empty.as_str(&c).is_empty());
    assert_eq!(num_entries(&c), 1);
}

#[test]
fn empty_string_is_terminated() {
    let mut c = cache();
    let h = ustr(&mut c, "");
    assert_eq!(h.len(&c), 0);
    assert!(h.is_empty(&c));
    assert_eq!(h.as_cstr(&c), &[0u8][..]);
    assert_eq!(num_entries(&c), 1);
}

#[test]
fn c_str_works() {
    let mut c = cache();

    let s_fox = "The quick brown fox jumps over the lazy dog.";
    let u_fox = ustr(&mut c, s_fox);
    let raw = u_fox.as_cstr(&c);
    assert_eq!(raw[raw.len() - 1], 0);
    let fox = String::from_utf8_lossy(&raw[..raw.len() - 1]).into_owned();
    assert_eq!(fox, s_fox);

    let s_odys = "Τη γλώσσα μου έδωσαν ελληνική";
    let u_odys = ustr(&mut c, s_odys);
    let raw = u_odys.as_cstr(&c);
    assert_eq!(raw[raw.len() - 1], 0);
    assert_eq!(raw.len(), s_odys.len() + 1);
    let odys = String::from_utf8_lossy(&raw[..raw.len() - 1]).into_owned();
    assert_eq!(odys, s_odys);
    assert_eq!(&raw[..raw.len() - 1], s_odys.as_bytes());
}

#[test]
fn blns() {
    let mut c = cache();
    _clear_cache(&mut c);

    let words = pool();
    let mut hs = HashSet::new();
    for s in words.iter() {
        hs.insert(s.as_str());
    }

    let mut us = Vec::new();
    let mut ss = Vec::new();

    for s in words.iter().cycle().take(100_000) {
        let u = ustr(&mut c, s);
        us.push(u);
        ss.push(s.to_owned());
    }

    let mut hs_u = HashSet::new();
    let mut it = string_cache_iter(&c);
    while let Some(s) = it.next() {
        hs_u.insert(s);
    }
    let diff: HashSet<_> = hs.difference(&hs_u).collect();

    // check that the number of entries is the same
    assert_eq!(num_entries(&c), hs.len());
    assert_eq!(num_entries(&c), 1315);

    // check that we have the exact same (unique) strings in the cache as in
    // the source data
    assert_eq!(diff.len(), 0);
    for s in hs_u.iter() {
        assert!(hs.contains(s));
    }

    let nbs = num_entries_per_bin(&c);
    assert_eq!(nbs.len(), 64);
    assert_eq!(nbs.iter().sum::<usize>(), 1315);
    assert!(total_allocated(&c) <= total_capacity(&c));

    for (u, s) in us.iter().zip(ss.iter()) {
        assert_eq!(u.as_str(&c), s.as_str());
    }
}

#[test]
fn serialization() {
    let mut c = cache();
    _clear_cache(&mut c);

    let words = pool();
    let mut hs = HashSet::new();
    for s in words.iter() {
        hs.insert(s.as_str());
    }

    for s in words.iter().cycle().take(100_000) {
        ustr(&mut c, s);
    }

    let flat: Vec<String> = c.serialize().iter().map(|s| s.to_string()).collect();
    _clear_cache(&mut c);
    assert_eq!(num_entries(&c), 0);
    assert!(BinsVisitor::new().visit_seq(&mut c, &flat).is_ok());

    // now check that we've got the same data in the cache still
    let mut hs_u = HashSet::new();
    let mut it = string_cache_iter(&c);
    while let Some(s) = it.next() {
        hs_u.insert(s);
    }
    let diff: HashSet<_> = hs.difference(&hs_u).collect();

    // check that the number of entries is the same
    assert_eq!(num_entries(&c), hs.len());

    // check that we have the exact same (unique) strings in the cache as in
    // the source data
    assert_eq!(diff.len(), 0);
}

#[test]
fn serialization_ustr() {
    let mut c = cache();
    let u_hello = ustr(&mut c, "hello");

    let text = u_hello.to_owned(&c);
    let me_hello = UstrVisitor::new().visit_str(&mut c, &text);

    assert_eq!(Some(u_hello), me_hello);
}

#[test]
fn partial_ord() {
    let mut c = cache();
    let str_a = ustr(&mut c, "aaa");
    let str_z = ustr(&mut c, "zzz");
    let str_k = ustr(&mut c, "kkk");
    assert!(str_a.partial_cmp(&str_k, &c) == Some(Ordering::Less));
    assert!(str_k.partial_cmp(&str_z, &c) == Some(Ordering::Less));
}

#[test]
fn ord() {
    let mut c = cache();
    let u_apple = ustr(&mut c, "apple");
    let u_bravo = ustr(&mut c, "bravo");
    let u_charlie = ustr(&mut c, "charlie");
    let u_delta = ustr(&mut c, "delta");

    let mut v = vec![u_delta, u_bravo, u_charlie, u_apple];
    v.sort_by(|a, b| a.cmp(b, &c));
    assert_eq!(v, vec![u_apple, u_bravo, u_charlie, u_delta]);
}

fn takes_into_str<'a, S: Into<&'a str>>(s: S) -> &'a str {
    s.into()
}

#[test]
fn test_into_str() {
    let mut c = cache();
    let u = ustr(&mut c, "converted");
    assert_eq!("converted", takes_into_str(u.as_str(&c)));
}

#[test]
fn test_existing_ustr() {
    let mut c = cache();
    assert_eq!(existing_ustr(&c, "hello world!"), None);
    let s1 = ustr(&mut c, "hello world!");
    let s2 = existing_ustr(&c, "hello world!");
    assert_eq!(Some(s1), s2);
}

#[test]
fn test_empty_cache() {
    let mut c = cache();
    _clear_cache(&mut c);
    let mut all: Vec<&str> = Vec::new();
    let mut it = string_cache_iter(&c);
    while let Some(s) = it.next() {
        all.push(s);
    }
    assert_eq!(all, Vec::<&str>::new());
    assert_eq!(c.serialize(), Vec::<&str>::new());
}

#[test]
fn as_refs() {
    let mut c = cache();
    let u = ustr(&mut c, "test");

    let s: String = u.to_owned(&c);
    assert_eq!(u.as_str(&c), s);
    assert_eq!(s, u.as_str(&c));
    assert_eq!(u.as_str(&c).as_bytes(), b"test");
    assert_eq!(u.len(&c), 4);
}

#[test]
fn test_hashing() {
    let mut c = cache();
    let u1 = ustr(&mut c, "the quick brown fox");
    let u2 = ustr(&mut c, "jumped over the lazy dog");

    let mut hasher = IdentityHasher::default();
    hasher.write(&u1.precomputed_hash(&c).to_ne_bytes());
    assert_eq!(hasher.finish(), u1.precomputed_hash(&c));

    let mut hasher = IdentityHasher::default();
    hasher.write(&u2.precomputed_hash(&c).to_ne_bytes());
    assert_eq!(hasher.finish(), u2.precomputed_hash(&c));

    let mut hm: HashMap<Ustr, u32> = HashMap::default();
    hm.insert(u1, 17);
    hm.insert(u2, 42);

    assert_eq!(hm.get(&u1), Some(&17));
    assert_eq!(hm.get(&u2), Some(&42));
}

#[test]
fn identity_hasher_ignores_other_lengths() {
    let mut hasher = IdentityHasher::with_hash(7);
    hasher.write(&[1, 2, 3]);
    assert_eq!(hasher.finish(), 7);
    hasher.write(&[1, 2, 3, 4, 5, 6, 7, 8, 9]);
    assert_eq!(hasher.finish(), 7);
    hasher.write(&0x0102030405060708u64.to_ne_bytes());
    assert_eq!(hasher.finish(), 0x0102030405060708);
    assert_eq!(IdentityHasher::default().finish(), 0);
}

#[test]
fn same_string_same_handle() {
    let mut c = cache();
    let h1 = Ustr::from(&mut c, "the quick brown fox");
    let h2 = ustr(&mut c, "the quick brown fox");
    assert_eq!(h1, h2);
    assert_eq!(h1.as_char_ptr(), h2.as_char_ptr());
    assert_eq!(h1.len(&c), 19);
    assert_eq!(num_entries(&c), 1);
}

#[test]
fn different_strings_different_handles() {
    let mut c = cache();
    let words = pool();
    let mut seen: HashMap<Ustr, String> = HashMap::new();
    for w in words.iter() {
        let u = ustr(&mut c, w);
        assert!(seen.insert(u, w.clone()).is_none());
    }
    assert_eq!(seen.len(), 1315);
    for (u, w) in seen.iter() {
        assert_eq!(u.as_str(&c), w.as_str());
        assert_eq!(u.len(&c), w.len());
    }
}

#[test]
fn handles_stay_valid() {
    let mut c = cache();
    let first = ustr(&mut c, "first of all");
    let ptr = first.as_char_ptr();
    let hash = first.precomputed_hash(&c);
    for i in 0..20_000 {
        ustr(&mut c, &format!("a string of about fifty bytes, numbered {:010}", i));
    }
    assert_eq!(first.as_char_ptr(), ptr);
    assert_eq!(first.precomputed_hash(&c), hash);
    assert_eq!(first.len(&c), 12);
    assert_eq!(first.as_str(&c), "first of all");
    assert_eq!(ustr(&mut c, "first of all"), first);
}

#[test]
fn twenty_thousand_distinct_strings() {
    let mut c = cache();
    let mut handles = Vec::new();
    let mut texts = Vec::new();
    for i in 0..20_000 {
        let s = format!("a string of about fifty bytes, numbered {:010}", i);
        handles.push(ustr(&mut c, &s));
        texts.push(s);
    }
    assert_eq!(num_entries(&c), 20_000);
    assert!(total_allocated(&c) <= total_capacity(&c));
    // each record takes its header, its 50 bytes, the zero byte and padding
    assert_eq!(total_allocated(&c), 20_000 * (16 + 56));
    for (u, s) in handles.iter().zip(texts.iter()) {
        assert_eq!(u.as_str(&c), s.as_str());
    }
    let mut seen = HashSet::new();
    let mut count = 0;
    let mut it = string_cache_iter(&c);
    while let Some(s) = it.next() {
        seen.insert(s);
        count += 1;
    }
    assert_eq!(count, 20_000);
    assert_eq!(seen.len(), 20_000);
    for s in texts.iter() {
        assert!(seen.contains(s.as_str()));
    }
}

#[test]
fn arenas_are_retired() {
    let mut c = cache();
    assert_eq!(total_capacity(&c), 64 * 65536);
    assert_eq!(total_allocated(&c), 0);
    let mut handles = Vec::new();
    let mut texts = Vec::new();
    for i in 0..100_000 {
        let s = format!("a string of about fifty bytes, numbered {:010}", i);
        handles.push(ustr(&mut c, &s));
        texts.push(s);
    }
    assert_eq!(num_entries(&c), 100_000);
    // 7 200 000 bytes are more than the first arenas hold: at least one
    // arena for each shard has been retired
    assert!(total_capacity(&c) >= 64 * 65536 + 64 * 131072);
    assert!(total_allocated(&c) <= total_capacity(&c));
    assert!(total_allocated(&c) >= 100_000 * (16 + 56));
    for (u, s) in handles.iter().zip(texts.iter()) {
        assert_eq!(u.as_str(&c), s.as_str());
    }
    let mut seen = HashSet::new();
    let mut it = string_cache_iter(&c);
    while let Some(s) = it.next() {
        assert!(seen.insert(s));
    }
    assert_eq!(seen.len(), 100_000);
    for s in texts.iter() {
        assert!(seen.contains(s.as_str()));
    }
}

#[test]
fn handles_name_the_shard_of_their_hash() {
    let mut c = cache();
    for w in pool().iter() {
        let u = ustr(&mut c, w);
        let hash = u.precomputed_hash(&c);
        assert_eq!(u.bin(), whichbin(hash));
        assert_eq!(u.bin(), (hash >> 58) as usize);
    }
    let per_bin = num_entries_per_bin(&c);
    assert_eq!(per_bin.iter().sum::<usize>(), num_entries(&c));
}

#[test]
fn whichbin_takes_the_top_six_bits() {
    assert_eq!(whichbin(0), 0);
    assert_eq!(whichbin(u64::MAX), 63);
    assert_eq!(whichbin(1 << 58), 1);
    assert_eq!(whichbin((1 << 58) - 1), 0);
    assert_eq!(whichbin(0xABCD_EF01_2345_6789), 0xAB >> 2);
}

#[test]
fn insert_with_a_given_hash() {
    let mut c = Bins::new();
    let hash = 5u64 << 58 | 12345;
    assert!(c.has_room(5, hash));
    assert!(c.has_room_for(5));
    assert_eq!(c.get_existing("hello", hash), None);
    let u = c.insert("hello", hash);
    assert_eq!(u.bin(), 5);
    assert_eq!(u.precomputed_hash(&c), hash);
    assert_eq!(c.get_existing("hello", hash), Some(u));
    // the same bytes under another hash are another entry
    let other = c.insert("hello", 6u64 << 58);
    assert!(other != u);
    assert_eq!(other.bin(), 6);
    assert_eq!(num_entries(&c), 2);
    assert_eq!(num_entries_per_bin(&c)[5], 1);
    assert_eq!(num_entries_per_bin(&c)[6], 1);
    assert_eq!(num_entries_per_bin(&c)[7], 0);
}

#[test]
fn try_ustr_interns() {
    let mut c = cache();
    let a = try_ustr(&mut c, "some text");
    assert!(a.is_some());
    assert_eq!(a, try_ustr(&mut c, "some text"));
    assert_eq!(a.unwrap().as_str(&c), "some text");
    assert_eq!(num_entries(&c), 1);
}

#[test]
fn visit_seq_replays_every_string() {
    let mut c = cache();
    let strings = vec!["one".to_string(), "two".to_string(), "one".to_string(), "".to_string()];
    assert!(BinsVisitor::new().visit_seq(&mut c, &strings).is_ok());
    assert_eq!(num_entries(&c), 3);
    let mut all: Vec<&str> = c.serialize();
    all.sort();
    assert_eq!(all, vec!["", "one", "two"]);
}

#[test]
fn clear_empties_the_cache() {
    let mut c = cache();
    for w in pool().iter() {
        ustr(&mut c, w);
    }
    for i in 0..3000 {
        ustr(&mut c, &format!("a string of about fifty bytes, numbered {:010}", i));
    }
    assert!(num_entries(&c) > 0);
    _clear_cache(&mut c);
    assert_eq!(num_entries(&c), 0);
    assert_eq!(total_allocated(&c), 0);
    assert_eq!(total_capacity(&c), 64 * 65536);
    assert_eq!(existing_ustr(&c, "token-0-0"), None);
    let u = ustr(&mut c, "again");
    assert_eq!(u.as_str(&c), "again");
    assert_eq!(num_entries(&c), 1);
}
