use vstd::prelude::*;

use std::collections::BTreeMap;
use vstd::std_specs::btree::{increasing_seq, key_obeys_cmp_spec};
use vstd::std_specs::cmp::OrdSpec;
use vstd::std_specs::iter::IteratorSpec;

use super::segment::{block_bytes, blocks_sized};
use crate::binary::{decode, Encoding};
use crate::uf2::{lemma_uf2_block_layout, uf2_block, Uf2, Uf2Error, BLOCK_SIZE, MAX_DATA_SIZE};

verus! {

/// Whether the addresses `s` are strictly increasing.
pub open spec fn increasing(s: Seq<u32>) -> bool {
    forall|i: int, j: int| 0 <= i < j < s.len() ==> s[i] < s[j]
}

/// The addresses of the blocks `m`, in increasing order.
pub open spec fn block_addresses(m: Map<u32, Seq<u8>>) -> Seq<u32> {
    choose|s: Seq<u32>| increasing(s) && s.to_set() == m.dom()
}

/// The UF2 image of the blocks `m`: one block per address, in increasing address order and
/// numbered from zero, each carrying the data of its address and the number of blocks.
pub open spec fn uf2_image(m: Map<u32, Seq<u8>>, flags: u32, payload_size: u32, family_id: u32) -> Seq<
    Seq<u8>,
> {
    let addrs = block_addresses(m);
    Seq::new(
        addrs.len(),
        |i: int|
            uf2_block(
                flags,
                addrs[i],
                payload_size,
                i as u32,
                addrs.len() as u32,
                family_id,
                m[addrs[i]],
            ),
    )
}

/// Two strictly increasing address sequences with the same elements are equal.
proof fn lemma_increasing_unique(s: Seq<u32>, t: Seq<u32>)
    requires
        increasing(s),
        increasing(t),
        s.to_set() == t.to_set(),
    ensures
        s == t,
    decreases s.len(),
{
    if s.len() == 0 {
        if t.len() > 0 {
            assert(t.to_set().contains(t[0]));
        }
    } else {
        assert(s.to_set().contains(s[0]));
        assert(t.len() > 0);
        assert(t.to_set().contains(t[0]));
        let k = choose|k: int| 0 <= k < t.len() && t[k] == s[0];
        let l = choose|l: int| 0 <= l < s.len() && s[l] == t[0];
        assert(s[0] == t[0]) by {
            if k > 0 {
                assert(t[0] < t[k]);
            }
            if l > 0 {
                assert(s[0] < s[l]);
            }
        }
        let s1 = s.drop_first();
        let t1 = t.drop_first();
        assert(s1.to_set() =~= t1.to_set()) by {
            assert forall|x: u32| s1.to_set().contains(x) implies t1.to_set().contains(x) by {
                let i = choose|i: int| 0 <= i < s1.len() && s1[i] == x;
                assert(s[i + 1] == x);
                assert(t.to_set().contains(x));
                let j = choose|j: int| 0 <= j < t.len() && t[j] == x;
                if j == 0 {
                    assert(s[0] < s[i + 1]);
                }
                assert(t1[j - 1] == x);
            }
            assert forall|x: u32| t1.to_set().contains(x) implies s1.to_set().contains(x) by {
                let i = choose|i: int| 0 <= i < t1.len() && t1[i] == x;
                assert(t[i + 1] == x);
                assert(s.to_set().contains(x));
                let j = choose|j: int| 0 <= j < s.len() && s[j] == x;
                if j == 0 {
                    assert(t[0] < t[i + 1]);
                }
                assert(s1[j - 1] == x);
            }
        }
        lemma_increasing_unique(s1, t1);
        assert(s1.len() == t1.len());
        assert(s1.len() == s.len() - 1);
        assert(t1.len() == t.len() - 1);
        assert(s =~= t) by {
            assert forall|i: int| 0 <= i < s.len() implies s[i] == t[i] by {
                if i > 0 {
                    assert(s[i] == s1[i - 1]);
                    assert(t[i] == t1[i - 1]);
                }
            }
        }
    }
}

/// A strictly increasing enumeration of the addresses of `m` is `block_addresses(m)`.
proof fn lemma_block_addresses(m: Map<u32, Seq<u8>>, s: Seq<u32>)
    requires
        increasing(s),
        s.to_set() == m.dom(),
    ensures
        block_addresses(m) == s,
{
    let c = block_addresses(m);
    assert(increasing(c) && c.to_set() == m.dom());
    lemma_increasing_unique(s, c);
}

/// Keys that a map of `u32` keys hands out in increasing order are strictly increasing.
proof fn lemma_keys_increasing(ks: Seq<u32>)
    requires
        increasing_seq(ks),
    ensures
        increasing(ks),
{
    broadcast use vstd::std_specs::btree::group_btree_axioms;
    broadcast use vstd::laws_cmp::group_laws_cmp;

    assert forall|i: int, j: int| 0 <= i < j < ks.len() implies ks[i] < ks[j] by {
        assert(ks[i].cmp_spec(&ks[j]) is Less);
    }
}

/// Renders the blocks of `blocks`, in increasing address order, into the UF2 blocks of the
/// image that `uf2` describes.
pub(crate) fn render_blocks(uf2: &Uf2, blocks: &BTreeMap<u32, Vec<u8>>) -> (r: Result<
    Vec<Vec<u8>>,
    Uf2Error,
>)
    requires
        blocks@.dom().len() == uf2.block_count(),
        blocks_sized(block_bytes(blocks@), uf2.payload_size() as int),
    ensures
        r matches Ok(v) && v@.map_values(|b: Vec<u8>| b@) == uf2_image(
            block_bytes(blocks@),
            uf2.flags(),
            uf2.payload_size(),
            uf2.family_id(),
        ),
{
    broadcast use vstd::std_specs::btree::group_btree_axioms;

    let ghost m = block_bytes(blocks@);
    proof {
        lemma_u32_keys_ordered();
    }
    let iter = blocks.iter();
    let ghost kvs = iter.remaining();
    let ghost ks = kvs.map_values(|kv: (&u32, &Vec<u8>)| *kv.0);
    proof {
        lemma_keys_increasing(ks);
        assert(ks.to_set() =~= m.dom()) by {
            assert forall|a: u32| ks.to_set().contains(a) implies m.dom().contains(a) by {
                let i = choose|i: int| 0 <= i < ks.len() && ks[i] == a;
                assert(blocks@.contains_key(*kvs[i].0));
            }
            assert forall|a: u32| m.dom().contains(a) implies ks.to_set().contains(a) by {
                assert(blocks@.contains_key(a));
                assert(kvs.contains((&a, &blocks@[a])));
                let i = choose|i: int| 0 <= i < kvs.len() && kvs[i] == (&a, &blocks@[a]);
                assert(ks[i] == a);
            }
        }
        lemma_block_addresses(m, ks);
    }
    let ghost image = uf2_image(m, uf2.flags(), uf2.payload_size(), uf2.family_id());
    let mut out: Vec<Vec<u8>> = Vec::new();
    let mut block_num: u32 = 0;
    for kv in it: iter
        invariant
            it.seq() == kvs,
            block_num == it.index(),
            out@.len() == block_num,
            ks == kvs.map_values(|kv: (&u32, &Vec<u8>)| *kv.0),
            block_addresses(m) == ks,
            kvs.len() == uf2.block_count(),
            m == block_bytes(blocks@),
            blocks_sized(m, uf2.payload_size() as int),
            image == uf2_image(m, uf2.flags(), uf2.payload_size(), uf2.family_id()),
            forall|i: int|
                0 <= i < kvs.len() ==> blocks@.contains_key(*kvs[i].0) && blocks@[*kvs[i].0]
                    == *kvs[i].1,
            forall|i: int| 0 <= i < block_num ==> #[trigger] out@[i]@ == image[i],
    {
        let (addr, data) = kv;
        proof {
            assert(m.contains_key(ks[block_num as int]));
        }
        let block = uf2.create_block(*addr, block_num, data.as_slice())?;
        out.push(block);
        block_num = block_num + 1;
    }
    proof {
        assert(out@.map_values(|b: Vec<u8>| b@) =~= image);
    }
    Ok(out)
}

/// The keys of a map with `u32` keys are ordered by `<`.
proof fn lemma_u32_keys_ordered()
    ensures
        key_obeys_cmp_spec::<u32>(),
{
    broadcast use vstd::std_specs::btree::group_btree_axioms;
    broadcast use vstd::laws_cmp::group_laws_cmp;

}

/// A finite set of addresses that is not empty has a largest element.
proof fn lemma_largest(s: Set<u32>) -> (x: u32)
    requires
        s.finite(),
        s.len() > 0,
    ensures
        s.contains(x),
        forall|y: u32| s.contains(y) ==> y <= x,
    decreases s.len(),
{
    let c = s.choose();
    let rest = s.remove(c);
    if rest.len() == 0 {
        assert forall|y: u32| s.contains(y) implies y <= c by {
            if y != c {
                assert(rest.contains(y));
            }
        }
        c
    } else {
        let r = lemma_largest(rest);
        if c > r {
            c
        } else {
            r
        }
    }
}

/// A finite set of addresses can be listed in strictly increasing order.
proof fn lemma_increasing_listing(s: Set<u32>) -> (q: Seq<u32>)
    requires
        s.finite(),
    ensures
        increasing(q),
        q.to_set() == s,
    decreases s.len(),
{
    if s.len() == 0 {
        let q = Seq::<u32>::empty();
        assert(q.to_set() =~= s);
        q
    } else {
        let x = lemma_largest(s);
        let q0 = lemma_increasing_listing(s.remove(x));
        let q = q0.push(x);
        assert forall|i: int, j: int| 0 <= i < j < q.len() implies q[i] < q[j] by {
            if j == q.len() - 1 {
                assert(q0.to_set().contains(q0[i]));
            }
        }
        assert(q.to_set() =~= s) by {
            assert forall|y: u32| q.to_set().contains(y) implies s.contains(y) by {
                let k = choose|k: int| 0 <= k < q.len() && q[k] == y;
                if k < q0.len() {
                    assert(q0.to_set().contains(q0[k]));
                }
            }
            assert forall|y: u32| s.contains(y) implies q.to_set().contains(y) by {
                if y == x {
                    assert(q[q.len() - 1] == x);
                } else {
                    assert(q0.to_set().contains(y));
                    let k = choose|k: int| 0 <= k < q0.len() && q0[k] == y;
                    assert(q[k] == y);
                }
            }
        }
        q
    }
}

/// The addresses of finitely many blocks are listed in strictly increasing order, each once.
pub proof fn lemma_block_addresses_sorted(m: Map<u32, Seq<u8>>)
    requires
        m.dom().finite(),
    ensures
        increasing(block_addresses(m)),
        block_addresses(m).to_set() == m.dom(),
        block_addresses(m).len() == m.dom().len(),
{
    let q = lemma_increasing_listing(m.dom());
    lemma_block_addresses(m, q);
    assert(q.no_duplicates()) by {
        assert forall|i: int, j: int| 0 <= i < q.len() && 0 <= j < q.len() && i != j implies q[i]
            != q[j] by {
            if i < j {
                assert(q[i] < q[j]);
            } else {
                assert(q[j] < q[i]);
            }
        }
    }
    q.unique_seq_to_set();
}

/// The UF2 image of the blocks `m` has one 512-byte block per address, in increasing address
/// order; block `k` reads back as targeting the `k`-th address, as number `k` of as many blocks as
/// there are addresses, and carries the block of that address as its data.
pub proof fn lemma_image_layout(m: Map<u32, Seq<u8>>, flags: u32, payload_size: u32, family_id: u32)
    requires
        m.dom().finite(),
        m.dom().len() <= u32::MAX,
        payload_size <= MAX_DATA_SIZE,
        blocks_sized(m, payload_size as int),
    ensures
        ({
            let addrs = block_addresses(m);
            let img = uf2_image(m, flags, payload_size, family_id);
            &&& increasing(addrs)
            &&& addrs.to_set() == m.dom()
            &&& img.len() == m.dom().len()
            &&& forall|k: int|
                0 <= k < img.len() ==> {
                    &&& (#[trigger] img[k]).len() == BLOCK_SIZE
                    &&& decode(Encoding::LittleEndian, img[k].subrange(12, 16)) == addrs[k]
                    &&& decode(Encoding::LittleEndian, img[k].subrange(16, 20)) == payload_size
                    &&& decode(Encoding::LittleEndian, img[k].subrange(20, 24)) == k
                    &&& decode(Encoding::LittleEndian, img[k].subrange(24, 28)) == img.len()
                    &&& img[k].subrange(32, 32 + payload_size) == m[addrs[k]]
                }
        }),
{
    lemma_block_addresses_sorted(m);
    let addrs = block_addresses(m);
    let img = uf2_image(m, flags, payload_size, family_id);
    assert forall|k: int| 0 <= k < img.len() implies {
        &&& (#[trigger] img[k]).len() == BLOCK_SIZE
        &&& decode(Encoding::LittleEndian, img[k].subrange(12, 16)) == addrs[k]
        &&& decode(Encoding::LittleEndian, img[k].subrange(16, 20)) == payload_size
        &&& decode(Encoding::LittleEndian, img[k].subrange(20, 24)) == k
        &&& decode(Encoding::LittleEndian, img[k].subrange(24, 28)) == img.len()
        &&& img[k].subrange(32, 32 + payload_size) == m[addrs[k]]
    } by {
        assert(addrs.to_set().contains(addrs[k]));
        lemma_uf2_block_layout(
            flags,
            addrs[k],
            payload_size,
            k as u32,
            addrs.len() as u32,
            family_id,
            m[addrs[k]],
        );
    }
}

} // verus!
