use vstd::prelude::*;

use std::collections::BTreeMap;

use super::{ConverterError, InvalidElfKind};
use crate::elf::{Elf, ProgramHeader, SegmentType};

verus! {

/// The address of the block of `payload` bytes that holds address `addr`.
pub open spec fn block_of(addr: int, payload: int) -> int {
    addr - addr % payload
}

/// Whether the block at `blk` holds some of the `len` bytes from address `start` on.
pub open spec fn touches(blk: int, start: int, len: int, payload: int) -> bool {
    &&& len > 0
    &&& blk % payload == 0
    &&& start < blk + payload
    &&& blk < start + len
}

/// The blocks `m` after the bytes `d` were written from address `start` on: every block that
/// holds one of the addresses is created zero-filled when missing, and the byte for address
/// `start + i` is `d[i]`.
pub open spec fn write_segment(m: Map<u32, Seq<u8>>, start: int, d: Seq<u8>, payload: int) -> Map<
    u32,
    Seq<u8>,
> {
    Map::new(
        |a: u32| m.contains_key(a) || touches(a as int, start, d.len() as int, payload),
        |a: u32|
            if touches(a as int, start, d.len() as int, payload) {
                Seq::new(
                    payload as nat,
                    |j: int|
                        if start <= a + j < start + d.len() {
                            d[a + j - start]
                        } else if m.contains_key(a) {
                            m[a][j]
                        } else {
                            0u8
                        },
                )
            } else {
                m[a]
            },
    )
}

/// Whether every block of `m` is `payload` bytes long.
pub open spec fn blocks_sized(m: Map<u32, Seq<u8>>, payload: int) -> bool {
    forall|a: u32| #[trigger] m.contains_key(a) ==> m[a].len() == payload
}

/// The blocks `m` after the segment `ph` of the file `b` was loaded into blocks of `payload`
/// bytes: only a loadable segment with file bytes is written, at its physical address; every byte
/// address of the segment must lie in the 32-bit address space.
pub open spec fn load_segment(b: Seq<u8>, ph: ProgramHeader, payload: int, m: Map<u32, Seq<u8>>) -> Result<
    Map<u32, Seq<u8>>,
    ConverterError,
> {
    if ph.segment_type != SegmentType::Load || ph.file_size == 0 {
        Ok(m)
    } else if ph.paddr > u32::MAX {
        Err(ConverterError::InvalidElf { kind: InvalidElfKind::AddressTooLarge(ph.paddr) })
    } else if ph.paddr + ph.file_size - 1 > u32::MAX {
        Err(ConverterError::AddressOverflow)
    } else {
        Ok(
            write_segment(
                m,
                ph.paddr as int,
                b.subrange(ph.offset as int, ph.offset + ph.file_size),
                payload,
            ),
        )
    }
}

/// Whether loading segment `ph` computes with the payload size: it is a loadable segment with
/// file bytes whose addresses all lie in the 32-bit address space.
pub open spec fn splits_into_blocks(ph: ProgramHeader) -> bool {
    &&& ph.segment_type == SegmentType::Load
    &&& ph.file_size > 0
    &&& ph.paddr + ph.file_size - 1 <= u32::MAX
}

proof fn lemma_block(a: int, p: int)
    requires
        a >= 0,
        p > 0,
    ensures
        block_of(a, p) % p == 0,
        0 <= block_of(a, p) <= a < block_of(a, p) + p,
{
    vstd::arithmetic::div_mod::lemma_fundamental_div_mod(a, p);
    vstd::arithmetic::div_mod::lemma_mod_pos_bound(a, p);
    vstd::arithmetic::div_mod::lemma_mod_multiples_basic(a / p, p);
    assert(p * (a / p) == (a / p) * p) by (nonlinear_arith);
}

proof fn lemma_multiples_apart(a: int, c: int, p: int)
    requires
        a % p == 0,
        c % p == 0,
        a < c,
        p > 0,
    ensures
        a + p <= c,
{
    vstd::arithmetic::div_mod::lemma_fundamental_div_mod(a, p);
    vstd::arithmetic::div_mod::lemma_fundamental_div_mod(c, p);
    let qa = a / p;
    let qc = c / p;
    assert(a + p <= c) by (nonlinear_arith)
        requires
            a == p * qa,
            c == p * qc,
            a < c,
            p > 0,
    ;
}

proof fn lemma_same_block(x: int, blk: int, p: int)
    requires
        x >= 0,
        p > 0,
        blk % p == 0,
        blk <= x < blk + p,
    ensures
        block_of(x, p) == blk,
{
    lemma_block(x, p);
    let b2 = block_of(x, p);
    if blk < b2 {
        lemma_multiples_apart(blk, b2, p);
    } else if b2 < blk {
        lemma_multiples_apart(b2, blk, p);
    }
}

/// The block `B` that holds address `start + o`, after the `clen` bytes `d[o..o + clen]` (which
/// all lie in it) were copied in, is what writing `d.take(o + clen)` gives.
proof fn lemma_write_chunk(
    m0: Map<u32, Seq<u8>>,
    start: int,
    d: Seq<u8>,
    p: int,
    o: int,
    clen: int,
    old_m: Map<u32, Seq<u8>>,
    new_blk: Seq<u8>,
)
    requires
        p > 0,
        start >= 0,
        0 <= o,
        clen > 0,
        o + clen <= d.len(),
        blocks_sized(m0, p),
        old_m == write_segment(m0, start, d.take(o), p),
        block_of(start + o, p) <= u32::MAX,
        start + o - block_of(start + o, p) + clen <= p,
        new_blk == Seq::new(
            p as nat,
            |j: int|
                if start + o - block_of(start + o, p) <= j < start + o - block_of(start + o, p)
                    + clen {
                    d[o + j - (start + o - block_of(start + o, p))]
                } else if old_m.contains_key(block_of(start + o, p) as u32) {
                    old_m[block_of(start + o, p) as u32][j]
                } else {
                    0u8
                },
        ),
    ensures
        old_m.insert(block_of(start + o, p) as u32, new_blk) == write_segment(
            m0,
            start,
            d.take(o + clen),
            p,
        ),
{
    let addr = start + o;
    lemma_block(addr, p);
    let bb = block_of(addr, p);
    let b = bb as u32;
    let d0 = d.take(o);
    let d1 = d.take(o + clen);
    let new_m = write_segment(m0, start, d1, p);
    let lhs = old_m.insert(b, new_blk);
    assert forall|a: u32| #[trigger] touches(a as int, start, o + clen, p) <==> (touches(
        a as int,
        start,
        o,
        p,
    ) || a == b) by {
        if touches(a as int, start, o + clen, p) && !touches(a as int, start, o, p) && a != b {
            if (a as int) < bb {
                lemma_multiples_apart(a as int, bb, p);
            } else {
                lemma_multiples_apart(bb, a as int, p);
            }
        }
    }
    assert forall|a: u32| lhs.contains_key(a) <==> new_m.contains_key(a) by {
        assert(touches(a as int, start, o + clen, p) <==> (touches(a as int, start, o, p) || a
            == b));
    }
    assert forall|a: u32| #[trigger] lhs.contains_key(a) implies lhs[a] == new_m[a] by {
        assert(touches(a as int, start, o + clen, p) <==> (touches(a as int, start, o, p) || a
            == b));
        if a == b {
            assert(touches(a as int, start, o + clen, p));
            assert(new_blk =~= new_m[a]) by {
                assert forall|j: int| 0 <= j < p implies new_blk[j] == new_m[a][j] by {
                    if addr - bb <= j < addr - bb + clen {
                    } else {
                        if touches(a as int, start, o, p) {
                        } else if m0.contains_key(a) {
                        }
                    }
                }
            }
        } else {
            if touches(a as int, start, o, p) {
                assert(lhs[a] =~= new_m[a]) by {
                    assert forall|j: int| 0 <= j < p implies lhs[a][j] == new_m[a][j] by {
                        if (a as int) < bb {
                            lemma_multiples_apart(a as int, bb, p);
                        } else {
                            lemma_multiples_apart(bb, a as int, p);
                        }
                    }
                }
            }
        }
    }
    assert(lhs =~= new_m);
}

/// The blocks of `m` as byte sequences.
pub open spec fn block_bytes(m: Map<u32, Vec<u8>>) -> Map<u32, Seq<u8>> {
    m.map_values(|v: Vec<u8>| v@)
}

fn align_down(addr: u32, align: u32) -> (r: u32)
    requires
        align > 0,
    ensures
        r == block_of(addr as int, align as int),
{
    proof {
        lemma_block(addr as int, align as int);
    }
    addr - (addr % align)
}

/// The block that results from copying `data[from..from + len]` into `base` (or into zeros when
/// there is no `base`) at offset `at`.
fn fill_block(
    base: Option<&Vec<u8>>,
    size: usize,
    at: usize,
    data: &[u8],
    from: usize,
    len: usize,
) -> (r: Vec<u8>)
    requires
        at + len <= size,
        from + len <= data@.len(),
        base matches Some(b) ==> b@.len() == size,
    ensures
        r@ == Seq::new(
            size as nat,
            |j: int|
                if at <= j < at + len {
                    data@[from + j - at]
                } else if base is Some {
                    base->0@[j]
                } else {
                    0u8
                },
        ),
{
    let data_len = data.len();
    let mut block: Vec<u8> = Vec::with_capacity(size);
    let mut j: usize = 0;
    while j < size
        invariant
            j <= size,
            at + len <= size,
            from + len <= data_len,
            data_len == data@.len(),
            base matches Some(b) ==> b@.len() == size,
            block@.len() == j,
            forall|k: int|
                0 <= k < j ==> #[trigger] block@[k] == (if at <= k < at + len {
                    data@[from + k - at]
                } else if base is Some {
                    base->0@[k]
                } else {
                    0u8
                }),
        decreases size - j,
    {
        let byte = if at <= j && j < at + len {
            data[from + (j - at)]
        } else {
            match base {
                Some(b) => b[j],
                None => 0u8,
            }
        };
        block.push(byte);
        j = j + 1;
    }
    assert(block@ =~= Seq::new(
        size as nat,
        |j: int|
            if at <= j < at + len {
                data@[from + j - at]
            } else if base is Some {
                base->0@[j]
            } else {
                0u8
            },
    ));
    block
}

/// Loads the bytes of segment `ph` of `elf_file` into the blocks of `payload_size` bytes keyed by
/// their address.
pub(crate) fn load_segment_blocks(
    elf_file: &Elf,
    ph: &ProgramHeader,
    payload_size: u32,
    blocks: &mut BTreeMap<u32, Vec<u8>>,
) -> (r: Result<(), ConverterError>)
    requires
        splits_into_blocks(*ph) ==> payload_size > 0,
        ph.segment_type == SegmentType::Load ==> ph.offset + ph.file_size <= elf_file.bytes@.len(),
        ph.file_size <= u32::MAX,
        blocks_sized(block_bytes(old(blocks)@), payload_size as int),
    ensures
        match load_segment(elf_file.bytes@, *ph, payload_size as int, block_bytes(old(blocks)@)) {
            Ok(m) => r is Ok && block_bytes(final(blocks)@) == m,
            Err(e) => r == Err::<(), ConverterError>(e),
        },
        r is Ok ==> blocks_sized(block_bytes(final(blocks)@), payload_size as int),
{
    let ghost p = payload_size as int;
    let ghost m0 = block_bytes(blocks@);
    if ph.segment_type != SegmentType::Load || ph.file_size == 0 {
        return Ok(());
    }
    proof {
        assert(elf_file.bytes@.len() == elf_file.bytes.len());
    }
    let segment_data = match elf_file.read_segment(ph) {
        Ok(s) => s,
        Err(e) => return Err(ConverterError::ElfParser(e)),
    };
    let start = match u32::try_from(ph.paddr) {
        Ok(v) => v,
        Err(_) => {
            return Err(ConverterError::InvalidElf { kind: InvalidElfKind::AddressTooLarge(ph.paddr) });
        },
    };
    let ghost d = segment_data@;
    let segment_size = segment_data.len();
    if start.checked_add((segment_size - 1) as u32).is_none() {
        return Err(ConverterError::AddressOverflow);
    }
    assert(write_segment(m0, start as int, d.take(0), p) =~= m0);
    let mut addr_offset: usize = 0;
    let payload_size_usize = payload_size as usize;

    while addr_offset < segment_size
        invariant
            p == payload_size,
            p > 0,
            d == segment_data@,
            d == elf_file.bytes@.subrange(ph.offset as int, ph.offset + ph.file_size),
            d.len() == ph.file_size,
            ph.segment_type == SegmentType::Load,
            ph.offset + ph.file_size <= elf_file.bytes@.len(),
            m0 == block_bytes(old(blocks)@),
            segment_size == d.len(),
            d.len() <= u32::MAX,
            d.len() > 0,
            start == ph.paddr,
            payload_size_usize == payload_size,
            addr_offset <= segment_size,
            blocks_sized(m0, p),
            blocks_sized(block_bytes(blocks@), p),
            block_bytes(blocks@) == write_segment(m0, start as int, d.take(addr_offset as int), p),
            addr_offset > 0 && addr_offset < segment_size ==> (start + addr_offset) % p == 0,
            start + d.len() - 1 <= u32::MAX,
        decreases segment_size - addr_offset,
    {
        let addr = match start.checked_add(addr_offset as u32) {
            Some(a) => a,
            None => {
                proof {
                    assert((addr_offset as u32) as int == addr_offset as int);
                }
                return Err(ConverterError::AddressOverflow);
            },
        };
        let block_addr = align_down(addr, payload_size);
        let block_offset = (addr - block_addr) as usize;
        proof {
            lemma_block(addr as int, p);
        }
        let len = if payload_size_usize - block_offset < segment_size - addr_offset {
            payload_size_usize - block_offset
        } else {
            segment_size - addr_offset
        };

        let ghost old_m = block_bytes(blocks@);
        let base = blocks.get(&block_addr);
        proof {
            if let Some(b) = base {
                assert(old_m.contains_key(block_addr) && old_m[block_addr] == b@);
            }
        }
        let block = fill_block(
            base,
            payload_size_usize,
            block_offset,
            segment_data,
            addr_offset,
            len,
        );
        proof {
            let o = addr_offset as int;
            let bb = block_of(start + o, p);
            assert((addr_offset as u32) as int == o);
            assert(block@ =~= Seq::new(
                p as nat,
                |j: int|
                    if start + o - bb <= j < start + o - bb + len {
                        d[o + j - (start + o - bb)]
                    } else if old_m.contains_key(bb as u32) {
                        old_m[bb as u32][j]
                    } else {
                        0u8
                    },
            ));
            lemma_write_chunk(
                m0,
                start as int,
                d,
                p,
                addr_offset as int,
                len as int,
                old_m,
                block@,
            );
        }
        blocks.insert(block_addr, block);
        proof {
            assert(block_bytes(blocks@) =~= old_m.insert(block_addr, block@));
            lemma_written_sized(m0, start as int, d.take(addr_offset + len), p);
            if addr_offset + len < segment_size {
                vstd::arithmetic::div_mod::lemma_mod_add_multiples_vanish(block_addr as int, p);
                assert(start + addr_offset + len == block_addr + p);
            }
            lemma_same_block((start + addr_offset + len - 1) as int, block_addr as int, p);
        }
        addr_offset = addr_offset + len;
    }
    proof {
        assert(d.take(d.len() as int) =~= d);
        lemma_written_sized(m0, start as int, d, p);
    }
    Ok(())
}

proof fn lemma_written_sized(m: Map<u32, Seq<u8>>, start: int, d: Seq<u8>, p: int)
    requires
        blocks_sized(m, p),
        p > 0,
    ensures
        blocks_sized(write_segment(m, start, d, p), p),
{
}

/// Every address lies in the block that `block_of` names, and no later block starts at or before
/// a later address's block.
proof fn lemma_block_monotonic(a: int, c: int, p: int)
    requires
        0 <= a <= c,
        p > 0,
    ensures
        block_of(a, p) <= block_of(c, p),
{
    lemma_block(a, p);
    lemma_block(c, p);
    if block_of(c, p) < block_of(a, p) {
        lemma_multiples_apart(block_of(c, p), block_of(a, p), p);
    }
}

/// Writing the bytes `d` from address `start` on puts `d[i]` at address `start + i`: in the
/// block of that address, at its offset in the block.
pub proof fn lemma_segment_bytes_placed(m: Map<u32, Seq<u8>>, start: int, d: Seq<u8>, p: int, i: int)
    requires
        p > 0,
        start >= 0,
        0 <= i < d.len(),
        block_of(start + d.len() - 1, p) <= u32::MAX,
    ensures
        ({
            let a = start + i;
            let blk = block_of(a, p);
            let r = write_segment(m, start, d, p);
            &&& 0 <= blk <= a < blk + p
            &&& blk <= u32::MAX
            &&& r.contains_key(blk as u32)
            &&& r[blk as u32].len() == p
            &&& r[blk as u32][a - blk] == d[i]
        }),
{
    let a = start + i;
    lemma_block(a, p);
    lemma_block_monotonic(a, start + d.len() - 1, p);
    let blk = block_of(a, p);
    assert(blk as u32 as int == blk);
    assert(touches(blk, start, d.len() as int, p));
}

/// Writing the bytes `d` from address `start` on keeps every block, and every byte outside the
/// written addresses: a block that held bytes keeps them, a new block is zero there.
pub proof fn lemma_segment_keeps_others(
    m: Map<u32, Seq<u8>>,
    start: int,
    d: Seq<u8>,
    p: int,
    a: u32,
    j: int,
)
    requires
        p > 0,
        blocks_sized(m, p),
        0 <= j < p,
        !(start <= a + j < start + d.len()),
        write_segment(m, start, d, p).contains_key(a),
    ensures
        m.contains_key(a) ==> write_segment(m, start, d, p)[a][j] == m[a][j],
        !m.contains_key(a) ==> write_segment(m, start, d, p)[a][j] == 0,
{
}

/// Every block that writing adds starts at a multiple of the payload size, and every block keeps
/// the payload size.
pub proof fn lemma_segment_blocks_aligned(m: Map<u32, Seq<u8>>, start: int, d: Seq<u8>, p: int)
    requires
        p > 0,
        blocks_sized(m, p),
    ensures
        blocks_sized(write_segment(m, start, d, p), p),
        forall|a: u32|
            #[trigger] write_segment(m, start, d, p).contains_key(a) ==> m.contains_key(a) || (a as int) % p
                == 0,
        forall|a: u32| m.contains_key(a) ==> #[trigger] write_segment(m, start, d, p).contains_key(a),
{
}

} // verus!
