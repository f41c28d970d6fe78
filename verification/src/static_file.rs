//! Sending a file as it is: in blocks of a fixed size, from the cache when
//! it holds the file, else from disk, remembering what was read.

use vstd::prelude::*;
use crate::bytes::slice_bytes;
use crate::keyed::keys_distinct;
use crate::http::{http_ok, http_ok_bytes};
use crate::lru::{
    LruCache, CacheOrder, law_lookup_after_store, law_store_keeps_invariant,
    law_touch_keeps_contents, lookup, store, touch,
};

verus! {

/// The size of the blocks a file is sent in.
pub const BLOCK_SIZE: usize = 10240;

/// The blocks `c` is sent in from index `i` on: full blocks of `bs` bytes
/// while more than `bs` bytes are left, then what is left (at most `bs`
/// bytes, and empty only when nothing was left).
pub open spec fn blocks_from(c: Seq<u8>, bs: int, i: int) -> Seq<Seq<u8>>
    decreases c.len() - i,
{
    if bs > 0 && 0 <= i && bs < c.len() - i {
        seq![c.subrange(i, i + bs)] + blocks_from(c, bs, i + bs)
    } else {
        seq![c.subrange(i, c.len() as int)]
    }
}

/// The blocks `c` is sent in.
pub open spec fn blocks(c: Seq<u8>, bs: int) -> Seq<Seq<u8>> {
    blocks_from(c, bs, 0)
}

/// The sizes of the blocks a file of `size` bytes is sent in.
pub open spec fn block_sizes(size: int, bs: int) -> Seq<int>
    decreases size,
{
    if bs > 0 && bs < size {
        seq![bs] + block_sizes(size - bs, bs)
    } else {
        seq![size]
    }
}

/// The blocks `content` is sent in.
pub fn blocks_of(content: &Vec<u8>, bs: usize) -> (r: Vec<Vec<u8>>)
    requires
        bs > 0,
    ensures
        r@.map_values(|b: Vec<u8>| b@) == blocks(content@, bs as int),
{
    let mut r: Vec<Vec<u8>> = Vec::new();
    let mut read: usize = 0;
    assert(r@.map_values(|b: Vec<u8>| b@) =~= Seq::<Seq<u8>>::empty());
    while bs < content.len() - read
        invariant
            bs > 0,
            read <= content.len(),
            r@.map_values(|b: Vec<u8>| b@) + blocks_from(content@, bs as int, read as int) == blocks(
                content@,
                bs as int,
            ),
        decreases content.len() - read,
    {
        let ghost before = r@.map_values(|b: Vec<u8>| b@);
        let block = slice_bytes(content, read, read + bs);
        let ghost bv = block@;
        r.push(block);
        assert(r@.map_values(|b: Vec<u8>| b@) =~= before.push(bv));
        assert(before + blocks_from(content@, bs as int, read as int) =~= r@.map_values(
            |b: Vec<u8>| b@,
        ) + blocks_from(content@, bs as int, read + bs));
        read = read + bs;
    }
    let ghost before = r@.map_values(|b: Vec<u8>| b@);
    let last = slice_bytes(content, read, content.len());
    let ghost lv = last@;
    r.push(last);
    assert(r@.map_values(|b: Vec<u8>| b@) =~= before.push(lv));
    assert(before + blocks_from(content@, bs as int, read as int) =~= r@.map_values(
        |b: Vec<u8>| b@,
    ));
    r
}

/// The sizes of the blocks a file of `size` bytes is sent in.
pub fn block_sizes_of(size: usize, bs: usize) -> (r: Vec<usize>)
    requires
        bs > 0,
    ensures
        r@.map_values(|n: usize| n as int) == block_sizes(size as int, bs as int),
{
    let mut r: Vec<usize> = Vec::new();
    let mut read: usize = 0;
    assert(r@.map_values(|n: usize| n as int) =~= Seq::<int>::empty());
    while bs < size - read
        invariant
            bs > 0,
            read <= size,
            r@.map_values(|n: usize| n as int) + block_sizes(size - read, bs as int) == block_sizes(
                size as int,
                bs as int,
            ),
        decreases size - read,
    {
        let ghost before = r@.map_values(|n: usize| n as int);
        r.push(bs);
        assert(r@.map_values(|n: usize| n as int) =~= before.push(bs as int));
        assert(before + block_sizes(size - read, bs as int) =~= r@.map_values(|n: usize| n as int)
            + block_sizes(size - (read + bs), bs as int));
        read = read + bs;
    }
    let ghost before = r@.map_values(|n: usize| n as int);
    r.push(size - read);
    assert(r@.map_values(|n: usize| n as int) =~= before.push(size - read));
    assert(before + block_sizes(size - read, bs as int) =~= r@.map_values(|n: usize| n as int));
    r
}

proof fn lemma_blocks_from(c: Seq<u8>, bs: int, i: int)
    requires
        bs > 0,
        0 <= i <= c.len(),
    ensures
        blocks_from(c, bs, i).flatten() == c.subrange(i, c.len() as int),
        blocks_from(c, bs, i).map_values(|b: Seq<u8>| b.len() as int) == block_sizes(c.len() - i, bs),
        forall|k: int|
            0 <= k < blocks_from(c, bs, i).len() - 1 ==> #[trigger] blocks_from(c, bs, i)[k].len() == bs,
        blocks_from(c, bs, i).last().len() <= bs,
        i < c.len() ==> blocks_from(c, bs, i).last().len() > 0,
    decreases c.len() - i,
{
    let bl = blocks_from(c, bs, i);
    if bs < c.len() - i {
        lemma_blocks_from(c, bs, i + bs);
        let rest = blocks_from(c, bs, i + bs);
        assert(bl.drop_first() =~= rest);
        assert(bl.first() == c.subrange(i, i + bs));
        assert(c.subrange(i, c.len() as int) =~= c.subrange(i, i + bs) + c.subrange(
            i + bs,
            c.len() as int,
        ));
        assert(bl.map_values(|b: Seq<u8>| b.len() as int) =~= seq![bs] + rest.map_values(
            |b: Seq<u8>| b.len() as int,
        ));
        assert forall|k: int| 0 <= k < bl.len() - 1 implies #[trigger] bl[k].len() == bs by {
            if k > 0 {
                assert(bl[k] == rest[k - 1]);
            }
        }
    } else {
        let one = c.subrange(i, c.len() as int);
        assert(bl.drop_first() =~= Seq::<Seq<u8>>::empty());
        assert(bl.flatten() == one + Seq::<Seq<u8>>::empty().flatten());
        assert(one + Seq::<u8>::empty() =~= one);
        assert(bl.map_values(|b: Seq<u8>| b.len() as int) =~= seq![c.len() - i]);
    }
}

/// Sending a file in blocks sends exactly its bytes: every block but the
/// last is a full block, the last is no larger, and it is empty only for an
/// empty file; the block sizes are those planned from the file's size.
pub proof fn law_blocks_cover_content(c: Seq<u8>, bs: int)
    requires
        bs > 0,
    ensures
        blocks(c, bs).flatten() == c,
        blocks(c, bs).map_values(|b: Seq<u8>| b.len() as int) == block_sizes(c.len() as int, bs),
        forall|k: int| 0 <= k < blocks(c, bs).len() - 1 ==> #[trigger] blocks(c, bs)[k].len() == bs,
        blocks(c, bs).last().len() <= bs,
        c.len() > 0 ==> blocks(c, bs).last().len() > 0,
{
    lemma_blocks_from(c, bs, 0);
    assert(c.subrange(0, c.len() as int) =~= c);
}

/// The size of a file, as the count of bytes to read from it.
pub fn get_file_size(size: u64) -> (r: usize)
    requires
        size <= usize::MAX,
    ensures
        r == size,
{
    size as usize
}

/// The cached bytes of the file at `path`, if the cache holds it; a hit
/// makes it the most recently used file.
pub fn cached_file(cache: &mut LruCache, path: &Vec<u8>) -> (r: Option<Vec<u8>>)
    requires
        old(cache).wf(),
    ensures
        final(cache).wf(),
        final(cache).cap() == old(cache).cap(),
        final(cache).order() == touch(old(cache).order(), path@),
        match r {
            Some(c) => lookup(old(cache).order(), path@) == Some(c@),
            None => lookup(old(cache).order(), path@) is None,
        },
{
    cache.get(path)
}

/// Remembers the bytes read from the file at `path` after a miss; an empty
/// file is not remembered.
pub fn remember_file(cache: &mut LruCache, path: Vec<u8>, content: Vec<u8>)
    requires
        old(cache).wf(),
    ensures
        final(cache).wf(),
        final(cache).cap() == old(cache).cap(),
        content@.len() > 0 ==> final(cache).order() == store(
            old(cache).order(),
            old(cache).cap(),
            path@,
            content@,
        ),
        content@.len() == 0 ==> final(cache).order() == old(cache).order(),
{
    if content.len() > 0 {
        cache.put(path, content);
    }
}

/// The number of files the responders' cache holds.
pub const CACHE_CAPACITY: usize = 5;

/// The responders' cache of file contents.
pub fn new_file_cache() -> (c: LruCache)
    ensures
        c.wf(),
        c.cap() == CACHE_CAPACITY,
        c.order().len() == 0,
{
    LruCache::new(CACHE_CAPACITY)
}

/// The response for a file sent as it is: the success head, then the
/// file's bytes.
pub open spec fn static_response(content: Seq<u8>) -> Seq<u8> {
    http_ok() + content
}

/// What is written, in order, to send a file as it is: the success head,
/// then the file's blocks.
pub open spec fn static_writes(content: Seq<u8>) -> Seq<Seq<u8>> {
    seq![http_ok()] + blocks(content, BLOCK_SIZE as int)
}

/// The writes that send a file as it is together make up its response.
pub proof fn law_static_writes_make_response(content: Seq<u8>)
    ensures
        static_writes(content).flatten() == static_response(content),
{
    let w = static_writes(content);
    law_blocks_cover_content(content, BLOCK_SIZE as int);
    assert(w.first() == http_ok());
    assert(w.drop_first() =~= blocks(content, BLOCK_SIZE as int));
}

/// What is written, in order, to send `content` as a file: the success
/// head, then the file's blocks.
pub fn static_response_writes(content: &Vec<u8>) -> (r: Vec<Vec<u8>>)
    ensures
        r@.map_values(|b: Vec<u8>| b@) == static_writes(content@),
        r@.map_values(|b: Vec<u8>| b@).flatten() == static_response(content@),
{
    let mut r: Vec<Vec<u8>> = Vec::new();
    r.push(http_ok_bytes());
    let rest = blocks_of(content, BLOCK_SIZE);
    let ghost head = r@.map_values(|b: Vec<u8>| b@);
    assert(head =~= seq![http_ok()]);
    let mut i: usize = 0;
    while i < rest.len()
        invariant
            i <= rest.len(),
            head == seq![http_ok()],
            rest@.map_values(|b: Vec<u8>| b@) == blocks(content@, BLOCK_SIZE as int),
            r@.map_values(|b: Vec<u8>| b@) == head + rest@.map_values(|b: Vec<u8>| b@).subrange(0, i as int),
        decreases rest.len() - i,
    {
        let block = rest[i].clone();
        assert(block@ =~= rest@[i as int]@);
        let ghost before = r@.map_values(|b: Vec<u8>| b@);
        r.push(block);
        assert(r@.map_values(|b: Vec<u8>| b@) =~= before.push(rest@[i as int]@));
        assert(rest@.map_values(|b: Vec<u8>| b@).subrange(0, i + 1) =~= rest@.map_values(
            |b: Vec<u8>| b@,
        ).subrange(0, i as int).push(rest@[i as int]@));
        assert(r@.map_values(|b: Vec<u8>| b@) =~= head + rest@.map_values(|b: Vec<u8>| b@).subrange(
            0,
            i + 1,
        ));
        i = i + 1;
    }
    assert(rest@.map_values(|b: Vec<u8>| b@).subrange(0, rest.len() as int) =~= rest@.map_values(
        |b: Vec<u8>| b@,
    ));
    proof {
        law_static_writes_make_response(content@);
    }
    r
}

/// The writes that answer a request for the file at `path` from the cache,
/// when the cache holds it (making it the most recently used file); `None`
/// when the file has to be read.
pub fn cached_response(cache: &mut LruCache, path: &Vec<u8>) -> (r: Option<Vec<Vec<u8>>>)
    requires
        old(cache).wf(),
    ensures
        final(cache).wf(),
        final(cache).cap() == old(cache).cap(),
        final(cache).order() == touch(old(cache).order(), path@),
        match r {
            Some(w) => lookup(old(cache).order(), path@) is Some && w@.map_values(|b: Vec<u8>| b@)
                == static_writes(lookup(old(cache).order(), path@)->0),
            None => lookup(old(cache).order(), path@) is None,
        },
{
    match cached_file(cache, path) {
        Some(content) => Some(static_response_writes(&content)),
        None => None,
    }
}

/// Serving one unchanged, non-empty file twice gives the same response:
/// the first request reads it and remembers it, so the second finds it in
/// the cache and writes the same head and blocks; and that second lookup
/// changes nothing the cache holds.
pub proof fn law_same_file_served_twice(order: CacheOrder, cap: nat, path: Seq<u8>, content: Seq<u8>)
    requires
        keys_distinct(order),
        order.len() <= cap,
        cap > 0,
        content.len() > 0,
    ensures
        lookup(store(order, cap, path, content), path) == Some(content),
        static_writes(content).flatten() == static_response(content),
        forall|k: Seq<u8>|
            lookup(touch(store(order, cap, path, content), path), k) == lookup(
                store(order, cap, path, content),
                k,
            ),
        lookup(touch(store(order, cap, path, content), path), path) == Some(content),
{
    let first = store(order, cap, path, content);
    law_lookup_after_store(order, cap, path, content);
    law_store_keeps_invariant(order, cap, path, content);
    law_static_writes_make_response(content);
    assert forall|k: Seq<u8>| lookup(touch(first, path), k) == lookup(first, k) by {
        law_touch_keeps_contents(first, path, k);
    }
    law_touch_keeps_contents(first, path, path);
}

} // verus!
