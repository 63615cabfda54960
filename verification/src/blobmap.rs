//! The blob arena: variable-length payloads packed into fixed-size chunks.
//!
//! Each blob is stored as an 8-byte little-endian length header followed by
//! its bytes, padded to a 16-byte boundary, at a **global offset**
//! `chunk_index * chunk_size + position`. A blob never straddles chunks, so
//! a payload larger than one chunk (less its header) cannot be stored.

use vstd::prelude::*;
use vstd::bytes::{spec_u64_to_le_bytes, spec_u64_from_le_bytes, u64_to_le_bytes, u64_from_le_bytes};

verus! {

/// Default arena chunk size (2 MiB).
pub const DEFAULT_CHUNK_SIZE: usize = 2 * 1024 * 1024;

/// Byte ceiling of the in-slot 32-bit locator, which addresses 16-byte units.
pub const ARENA_META_CEILING: u64 = 0x10_0000_0000;

/// Why a blob could not be stored.
#[derive(Clone, Copy, Debug, PartialEq, Eq, Structural)]
pub enum ArenaError {
    /// The payload plus its header does not fit in one chunk.
    PayloadTooLarge,
    /// The arena cannot address another chunk.
    CapacityExceeded,
}

/// Bytes a blob of `len` payload bytes occupies: header plus payload,
/// rounded up to 16.
pub open spec fn blob_footprint(len: nat) -> nat {
    ((8 + len + 15) / 16 * 16) as nat
}

/// The arena's chunks hold blob `b` at global offset `off`.
pub open spec fn holds_blob(chunks: Seq<Vec<u8>>, cs: nat, off: u64, b: Seq<u8>) -> bool {
    let c: int = off as int / cs as int;
    let p: int = off as int % cs as int;
    &&& cs > 0
    &&& c < chunks.len()
    &&& p + 8 + b.len() <= chunks[c]@.len()
    &&& chunks[c]@.subrange(p, p + 8) == spec_u64_to_le_bytes(b.len() as u64)
    &&& chunks[c]@.subrange(p + 8, p + 8 + b.len()) == b
}

/// An append-only blob store over fixed-size chunks.
pub struct BlobArena {
    chunk_size: usize,
    chunks: Vec<Vec<u8>>,
    blobs: Ghost<Map<u64, Seq<u8>>>,
}

impl BlobArena {
    /// The stored blobs, by global offset.
    pub closed spec fn blobs(&self) -> Map<u64, Seq<u8>> {
        self.blobs@
    }

    /// The chunk size the arena was made with.
    pub closed spec fn chunk_size_spec(&self) -> nat {
        self.chunk_size as nat
    }

    /// Number of chunks allocated.
    pub closed spec fn chunk_count(&self) -> nat {
        self.chunks@.len()
    }

    /// Every recorded blob is laid out at its offset; chunks never exceed
    /// the chunk size.
    pub closed spec fn wf(&self) -> bool {
        &&& self.chunk_size > 0
        &&& forall|c: int| 0 <= c < self.chunks@.len() ==> #[trigger] self.chunks@[c]@.len() <= self.chunk_size
        &&& forall|off: u64| #[trigger]
            self.blobs@.contains_key(off) ==> holds_blob(
                self.chunks@,
                self.chunk_size as nat,
                off,
                self.blobs@[off],
            ) && blob_footprint(self.blobs@[off].len()) <= self.chunk_size
    }

    /// An empty arena with chunks of `chunk_size` bytes (at least 1).
    pub fn new(chunk_size: usize) -> (a: BlobArena)
        ensures
            a.wf(),
            a.blobs() == Map::<u64, Seq<u8>>::empty(),
            a.chunk_size_spec() == if chunk_size == 0 { 1 } else { chunk_size as nat },
            a.chunk_count() == 0,
    {
        let cs = if chunk_size == 0 {
            1
        } else {
            chunk_size
        };
        BlobArena { chunk_size: cs, chunks: Vec::new(), blobs: Ghost(Map::empty()) }
    }

    /// Every stored blob fits in one chunk, header and padding included; the
    /// chunk size is positive.
    pub proof fn lemma_blob_fits(&self, off: u64)
        requires
            self.wf(),
        ensures
            self.chunk_size_spec() > 0,
            self.blobs().contains_key(off) ==> blob_footprint(self.blobs()[off].len()) <= self.chunk_size_spec(),
    {
    }

    /// The chunk size.
    pub fn chunk_size(&self) -> (cs: usize)
        ensures
            cs == self.chunk_size_spec(),
    {
        self.chunk_size
    }

    /// Bytes of chunk memory the arena holds (saturating).
    pub fn mem_used(&self) -> (b: usize)
        ensures
            b == if self.chunk_count() * self.chunk_size_spec() <= usize::MAX {
                self.chunk_count() * self.chunk_size_spec()
            } else {
                usize::MAX as nat
            },
    {
        let n = self.chunks.len();
        match n.checked_mul(self.chunk_size) {
            Some(b) => b,
            None => usize::MAX,
        }
    }

    /// Stores `data` and returns its global offset.
    pub fn alloc_blob(&mut self, data: &[u8]) -> (r: Result<u64, ArenaError>)
        requires
            old(self).wf(),
        ensures
            final(self).wf(),
            final(self).chunk_size_spec() == old(self).chunk_size_spec(),
            match r {
                Ok(off) => !old(self).blobs().contains_key(off) && final(self).blobs() == old(
                    self,
                ).blobs().insert(off, data@),
                Err(e) => final(self).blobs() == old(self).blobs() && (e == ArenaError::PayloadTooLarge
                    <==> blob_footprint(data@.len()) > old(self).chunk_size_spec()),
            },
    {
        let len = data.len();
        let cs = self.chunk_size;
        let need128: u128 = ((len as u128) + 23) / 16 * 16;
        if need128 > cs as u128 {
            return Err(ArenaError::PayloadTooLarge);
        }
        let need = need128 as usize;
        let n = self.chunks.len();
        let (c, fresh) = if n > 0 && self.chunks[n - 1].len() <= cs - need {
            (n - 1, false)
        } else {
            (n, true)
        };
        let base = match c.checked_mul(cs) {
            Some(b) => b,
            None => {
                return Err(ArenaError::CapacityExceeded);
            },
        };
        let pos = if fresh {
            0
        } else {
            self.chunks[c].len()
        };
        if base > usize::MAX - pos || (base + pos) as u64 > u64::MAX - (need as u64) {
            return Err(ArenaError::CapacityExceeded);
        }
        let off = (base + pos) as u64;
        proof {
            vstd::arithmetic::div_mod::lemma_fundamental_div_mod_converse(
                off as int,
                cs as int,
                c as int,
                pos as int,
            );
        }
        let ghost old_chunks = self.chunks@;
        let mut chunk: Vec<u8> = if fresh {
            Vec::new()
        } else {
            match self.chunks.pop() {
                Some(ch) => ch,
                None => Vec::new(),
            }
        };
        let ghost before = chunk@;
        let ghost bl: int = before.len() as int;
        let hdr = u64_to_le_bytes(len as u64);
        let mut i: usize = 0;
        proof {
            assert(before + hdr@.take(0) =~= before);
        }
        while i < 8
            invariant
                0 <= i <= 8,
                hdr@.len() == 8,
                chunk@ == before + hdr@.take(i as int),
            decreases 8 - i,
        {
            let ghost prev = chunk@;
            chunk.push(hdr[i]);
            proof {
                assert(prev.push(hdr@[i as int]) =~= before + hdr@.take(i + 1));
            }
            i = i + 1;
        }
        let mut j: usize = 0;
        proof {
            assert(hdr@.take(8) =~= hdr@);
            assert(before + hdr@ + data@.take(0) =~= before + hdr@);
        }
        while j < len
            invariant
                0 <= j <= len,
                len == data@.len(),
                hdr@.len() == 8,
                chunk@ == before + hdr@ + data@.take(j as int),
            decreases len - j,
        {
            let ghost prev = chunk@;
            chunk.push(data[j]);
            proof {
                assert(prev.push(data@[j as int]) =~= before + hdr@ + data@.take(j + 1));
            }
            j = j + 1;
        }
        let mut k: usize = 8 + len;
        proof {
            assert(data@.take(len as int) =~= data@);
            assert(before + hdr@ + data@ + Seq::new(0, |x: int| 0u8) =~= before + hdr@ + data@);
        }
        while k < need
            invariant
                8 + len <= k <= need,
                len == data@.len(),
                hdr@.len() == 8,
                chunk@ == before + hdr@ + data@ + Seq::new((k - 8 - len) as nat, |x: int| 0u8),
            decreases need - k,
        {
            let ghost prev = chunk@;
            chunk.push(0);
            proof {
                assert(prev.push(0u8) =~= before + hdr@ + data@ + Seq::new((k + 1 - 8 - len) as nat, |x: int| 0u8));
            }
            k = k + 1;
        }
        proof {
            assert(chunk@.len() == bl + need);
            assert(chunk@.subrange(0, bl) =~= before);
            assert(chunk@.subrange(bl, bl + 8) =~= hdr@);
            assert(chunk@.subrange(bl + 8, bl + 8 + len) =~= data@);
        }
        self.chunks.push(chunk);
        proof {
            assert(data@.subrange(0, len as int) =~= data@);
            let old_blobs = old(self).blobs@;
            assert(!old_blobs.contains_key(off)) by {
                if old_blobs.contains_key(off) {
                    assert(holds_blob(old(self).chunks@, cs as nat, off, old_blobs[off]));
                }
            }
            self.blobs@ = old_blobs.insert(off, data@);
            assert forall|o: u64| #[trigger] self.blobs@.contains_key(o) implies holds_blob(
                self.chunks@,
                cs as nat,
                o,
                self.blobs@[o],
            ) && blob_footprint(self.blobs@[o].len()) <= cs by {
                if o != off {
                    let oc: int = o as int / cs as int;
                    let op: int = o as int % cs as int;
                    assert(holds_blob(old(self).chunks@, cs as nat, o, old_blobs[o]));
                    if oc == c as int {
                        assert(self.chunks@[c as int]@.subrange(0, bl) == before);
                        assert(self.chunks@[c as int]@.subrange(op, op + 8) =~= before.subrange(op, op + 8));
                        assert(self.chunks@[c as int]@.subrange(op + 8, op + 8 + old_blobs[o].len()) =~= before.subrange(op + 8, op + 8 + old_blobs[o].len()));
                    } else {
                        assert(self.chunks@[oc] == old(self).chunks@[oc]);
                    }
                } else {
                    assert(self.chunks@[c as int]@.subrange(pos as int, pos + 8) =~= hdr@);
                }
            }
        }
        Ok(off)
    }

    /// The payload stored at global offset `off`: for an offset the arena
    /// handed out, exactly the bytes stored there.
    pub fn get_blob_slice(&self, off: u64) -> (r: Option<Vec<u8>>)
        requires
            self.wf(),
        ensures
            self.blobs().contains_key(off) ==> r is Some && r->0@ == self.blobs()[off],
    {
        let cs = self.chunk_size as u64;
        let c = off / cs;
        let p = off % cs;
        if c >= self.chunks.len() as u64 {
            return None;
        }
        let chunk = &self.chunks[c as usize];
        let p = p as usize;
        if p > chunk.len() || chunk.len() - p < 8 {
            return None;
        }
        let mut h: Vec<u8> = Vec::new();
        let mut i: usize = 0;
        while i < 8
            invariant
                0 <= i <= 8,
                p + 8 <= chunk@.len(),
                chunk@.len() == chunk.len(),
                h@ == chunk@.subrange(p as int, p + i),
            decreases 8 - i,
        {
            h.push(chunk[p + i]);
            i = i + 1;
            proof {
                assert(h@ =~= chunk@.subrange(p as int, p + i));
            }
        }
        let len = u64_from_le_bytes(h.as_slice());
        proof {
            vstd::bytes::lemma_auto_spec_u64_to_from_le_bytes();
        }
        if len > (chunk.len() - p - 8) as u64 {
            return None;
        }
        let len = len as usize;
        let mut out: Vec<u8> = Vec::new();
        let mut j: usize = 0;
        while j < len
            invariant
                0 <= j <= len,
                p + 8 + len <= chunk@.len(),
                chunk@.len() == chunk.len(),
                out@ == chunk@.subrange(p + 8, p + 8 + j),
            decreases len - j,
        {
            out.push(chunk[p + 8 + j]);
            j = j + 1;
            proof {
                assert(out@ =~= chunk@.subrange(p + 8, p + 8 + j));
            }
        }
        proof {
            if self.blobs@.contains_key(off) {
                let b = self.blobs@[off];
                assert(holds_blob(self.chunks@, self.chunk_size as nat, off, b));
                assert(spec_u64_from_le_bytes(spec_u64_to_le_bytes(b.len() as u64)) == b.len() as u64);
            }
        }
        Some(out)
    }
}

} // verus!
