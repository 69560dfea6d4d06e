use std::cmp::Ordering;
use ustr::bumpalloc::LeakyBumpAlloc;
use ustr::entry::{round_up_to, write_record};
use ustr::lex::{rank_bytes, Rank};
use ustr::stringcache::{bytes_equal, StringCache};
use ustr::table::Ptr;
use ustr::{cache, string_cache_iter, ustr, Bins};

#[test]
fn arena_bumps_downward() {
    let mut a = LeakyBumpAlloc::new(1024, 8);
    assert_eq!(a.capacity(), 1024);
    assert_eq!(a.allocated(), 0);
    assert_eq!(a.ptr(), 1024);
    assert_eq!(a.end(), 1024);
    // 1024 - 17 = 1007, rounded down to 1000
    assert_eq!(a.allocate(17), 1000);
    assert_eq!(a.allocated(), 24);
    assert_eq!(a.ptr(), 1000);
    // 1000 - 8 = 992 is aligned already
    assert_eq!(a.allocate(8), 992);
    assert_eq!(a.allocate(0), 992);
    assert_eq!(a.allocate(1), 984);
    assert_eq!(a.allocated(), 40);
    assert_eq!(a.capacity(), 1024);
    assert_eq!(a.end(), 1024);
}

#[test]
fn arena_aligns_to_its_alignment() {
    let mut a = LeakyBumpAlloc::new(100, 16);
    assert_eq!(a.allocate(1), 96);
    assert_eq!(a.allocate(1), 80);
    let mut b = LeakyBumpAlloc::new(100, 1);
    assert_eq!(b.allocate(1), 99);
    assert_eq!(b.allocate(99), 0);
    assert_eq!(b.allocated(), 100);
}

#[test]
fn arena_clear_gives_the_region_up() {
    let mut a = LeakyBumpAlloc::new(64, 8);
    a.allocate(10);
    a.clear();
    assert_eq!(a.capacity(), 0);
    assert_eq!(a.allocated(), 0);
}

#[test]
fn arena_reads_what_was_written() {
    let mut a = LeakyBumpAlloc::new(64, 8);
    let at = a.allocate(24);
    assert_eq!(at, 40);
    a.write_u64(at, 0x0102030405060708);
    assert_eq!(a.read_u64(at), 0x0102030405060708);
    assert_eq!(a.read(at, 8), &[8, 7, 6, 5, 4, 3, 2, 1][..]);
    a.write(at + 8, b"abc");
    assert_eq!(a.read(at + 8, 3), b"abc");
    assert_eq!(a.read_u64(at), 0x0102030405060708);
}

#[test]
fn record_layout() {
    let mut a = LeakyBumpAlloc::new(64, 8);
    let at = a.allocate(16 + 5 + 1);
    assert_eq!(at, 40);
    write_record(&mut a, at, 0xfeed, b"hello");
    assert_eq!(a.read_u64(at), 0xfeed);
    assert_eq!(a.read_u64(at + 8), 5);
    assert_eq!(a.read(at + 16, 6), b"hello\0");
}

#[test]
fn round_up_to_multiples() {
    assert_eq!(round_up_to(0, 8), 0);
    assert_eq!(round_up_to(1, 8), 8);
    assert_eq!(round_up_to(8, 8), 8);
    assert_eq!(round_up_to(9, 8), 16);
    assert_eq!(round_up_to(17, 16), 32);
    assert_eq!(round_up_to(5, 1), 5);
}

#[test]
fn shard_places_records_from_the_end_down() {
    let mut sc = StringCache::new();
    assert_eq!(sc.num_entries(), 0);
    assert_eq!(sc.total_capacity(), 65536);
    assert_eq!(sc.total_allocated(), 0);
    assert_eq!(sc.num_arenas(), 1);
    let p = sc.insert("hello", 99);
    // 65536 - (16 + 5 + 1) = 65514, rounded down to 65512; the string lies
    // sixteen bytes above the start of its record
    assert_eq!(p, Ptr { arena: 0, offset: 65512 + 16 });
    assert_eq!(sc.total_allocated(), 24);
    let q = sc.insert("a longer string", 100);
    // 65512 - (16 + 15 + 1) = 65480
    assert_eq!(q, Ptr { arena: 0, offset: 65480 + 16 });
    assert_eq!(sc.total_allocated(), 56);
    assert_eq!(sc.insert("hello", 99), p);
    assert_eq!(sc.total_allocated(), 56);
    assert_eq!(sc.num_entries(), 2);
    assert_eq!(sc.get_existing("hello", 99), Some(p));
    assert_eq!(sc.get_existing("hello", 98), None);
    assert_eq!(sc.get_existing("hellp", 99), None);
    assert_eq!(sc.len_of(p), 5);
    assert_eq!(sc.hash_of(p), 99);
    assert_eq!(sc.bytes_of(q), b"a longer string");
    assert_eq!(sc.c_bytes_of(p), b"hello\0");
    assert_eq!(sc.str_of(q), "a longer string");
}

#[test]
fn shard_resolves_colliding_hashes() {
    let mut sc = StringCache::new();
    let mut all = Vec::new();
    // every string starts its probe sequence at slot 3
    for i in 0..100 {
        let s = format!("collide-{}", i);
        let hash = 3 + (i as u64) * 16384;
        all.push((sc.insert(&s, hash), s, hash));
    }
    assert_eq!(sc.num_entries(), 100);
    for (p, s, hash) in all.iter() {
        assert_eq!(sc.get_existing(s, *hash), Some(*p));
        assert_eq!(sc.str_of(*p), s.as_str());
        assert_eq!(sc.hash_of(*p), *hash);
    }
    // the same hash with other bytes is another entry
    let a = sc.insert("same hash", 7);
    let b = sc.insert("hash same", 7);
    assert!(a != b);
    assert_eq!(sc.get_existing("same hash", 7), Some(a));
    assert_eq!(sc.get_existing("hash same", 7), Some(b));
}

#[test]
fn shard_doubles_its_table() {
    let mut sc = StringCache::new();
    let mut all = Vec::new();
    for i in 0u64..9000 {
        let s = format!("{}", i);
        let hash = i.wrapping_mul(0x9E37_79B9_7F4A_7C15);
        assert!(sc.has_room(s.len()));
        all.push((sc.insert(&s, hash), s, hash));
    }
    assert_eq!(sc.num_entries(), 9000);
    for (p, s, hash) in all.iter() {
        assert_eq!(sc.get_existing(s, *hash), Some(*p));
        assert_eq!(sc.str_of(*p), s.as_str());
    }
    sc.grow();
    for (p, s, hash) in all.iter() {
        assert_eq!(sc.get_existing(s, *hash), Some(*p));
    }
}

#[test]
fn shard_retires_a_full_arena() {
    let mut sc = StringCache::new();
    let big = "x".repeat(40_000);
    assert_eq!(sc.retire_capacity(big.len()), None);
    let p = sc.insert(&big, 1);
    assert_eq!(p.arena, 0);
    assert_eq!(sc.total_capacity(), 65536);
    // a second string of this size does not fit: the next arena is twice as
    // large
    let other = "y".repeat(40_000);
    assert_eq!(sc.retire_capacity(other.len()), Some(131072));
    let q = sc.insert(&other, 2);
    assert_eq!(q.arena, 1);
    assert_eq!(sc.num_arenas(), 2);
    assert_eq!(sc.total_capacity(), 65536 + 131072);
    assert_eq!(q.offset, (131072 - 40_017) / 8 * 8 + 16);
    // a string larger than twice the capacity gets an arena of its own size
    let huge = "z".repeat(300_000);
    assert_eq!(sc.retire_capacity(huge.len()), Some(300_017));
    let r = sc.insert(&huge, 3);
    assert_eq!(r, Ptr { arena: 2, offset: 16 });
    assert_eq!(sc.total_capacity(), 65536 + 131072 + 300_017);
    assert_eq!(sc.str_of(p), big.as_str());
    assert_eq!(sc.str_of(q), other.as_str());
    assert_eq!(sc.str_of(r), huge.as_str());
    assert_eq!(sc.arena(2).allocated(), 300_017);
    assert_eq!(sc.arena(0).capacity(), 65536);
    // the arena after that is twice as large again
    let s = sc.insert("small", 4);
    assert_eq!(s.arena, 3);
    assert_eq!(sc.total_capacity(), 65536 + 131072 + 300_017 + 600_034);
    assert!(sc.total_allocated() <= sc.total_capacity());
}

#[test]
fn iteration_passes_arenas_of_any_size() {
    let mut c = cache();
    let mut expect = Vec::new();
    // large strings force arenas whose size is no multiple of eight
    for i in 0..40 {
        let s = format!("{}{}", i, "w".repeat(70_000 + 13 * i));
        ustr(&mut c, &s);
        expect.push(s);
        let t = format!("small-{}", i);
        ustr(&mut c, &t);
        expect.push(t);
    }
    let mut got: Vec<String> = c.serialize().iter().map(|s| s.to_string()).collect();
    got.sort();
    expect.sort();
    assert_eq!(got, expect);
}

#[test]
fn shard_clear() {
    let mut sc = StringCache::default();
    let big = "x".repeat(60_000);
    sc.insert(&big, 1);
    sc.insert(&big, 2);
    assert_eq!(sc.num_arenas(), 2);
    sc.clear();
    assert_eq!(sc.num_arenas(), 1);
    assert_eq!(sc.num_entries(), 0);
    assert_eq!(sc.total_capacity(), 65536);
    assert_eq!(sc.total_allocated(), 0);
    assert_eq!(sc.get_existing(&big, 1), None);
}

#[test]
fn byte_strings_in_order() {
    assert_eq!(rank_bytes(b"aaa", b"kkk"), Rank::Before);
    assert_eq!(rank_bytes(b"kkk", b"aaa"), Rank::After);
    assert_eq!(rank_bytes(b"abc", b"abc"), Rank::Same);
    assert_eq!(rank_bytes(b"ab", b"abc"), Rank::Before);
    assert_eq!(rank_bytes(b"abc", b"ab"), Rank::After);
    assert_eq!(rank_bytes(b"", b""), Rank::Same);
    assert_eq!(rank_bytes(b"", b"a"), Rank::Before);
    assert_eq!(rank_bytes(&[0xff], &[0x7f, 0x00]), Rank::After);
    assert!(bytes_equal(b"same", b"same"));
    assert!(!bytes_equal(b"same", b"sane"));
    assert!(!bytes_equal(b"same", b"sam"));
}

#[test]
fn handles_in_the_order_of_their_strings() {
    let mut c = cache();
    let a = ustr(&mut c, "apple");
    let b = ustr(&mut c, "apple pie");
    assert_eq!(a.cmp(&b, &c), Ordering::Less);
    assert_eq!(b.cmp(&a, &c), Ordering::Greater);
    assert_eq!(a.cmp(&a, &c), Ordering::Equal);
    assert_eq!(a.partial_cmp(&a, &c), Some(Ordering::Equal));
}

#[test]
fn iteration_goes_shard_by_shard_and_upward_in_each_arena() {
    let mut c = Bins::new();
    let big = "x".repeat(60_000);
    // shard 2: two arenas; shard 0: one arena
    c.insert("first", 2u64 << 58);
    c.insert(&big, (2u64 << 58) + 1);
    c.insert("second", (2u64 << 58) + 2);
    c.insert(&big, (2u64 << 58) + 3);
    c.insert("third", (2u64 << 58) + 4);
    c.insert("zero", 0);
    c.insert("one", 1);
    let mut got = Vec::new();
    let mut it = string_cache_iter(&c);
    while let Some(s) = it.next() {
        got.push(s);
    }
    // within an arena the record written last lies lowest and comes first
    assert_eq!(
        got,
        vec!["one", "zero", "second", big.as_str(), "first", "third", big.as_str()]
    );
    assert_eq!(c.serialize(), got);
    assert_eq!(it.next(), None);
}
