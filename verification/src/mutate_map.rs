//! Map-flavor building blocks: map immediates and map leaves built from and
//! read back into sorted key/value entries, a fixed buffer of entries, and
//! the cached descent path of sequential map inserts.

use vstd::prelude::*;
use crate::mutate::{
    build_leaf, bump_path, fill_packed_width, leaf_encodes, max_pending, packed_key, path_bumped, path_ok, read_packed,
};
use crate::node::{Edge, LeafBitmapL, le_value, lemma_le_step, word_bytes};
use crate::types::{EdgeType, ImmedType, edge_type_code, lemma_pow256_pos, lemma_pow256_values, pow256};

verus! {

/// A fixed-capacity buffer of up to 32 key/value entries.
pub struct StackEntries32 {
    buf: [(u64, u64); 32],
    len: usize,
}

impl View for StackEntries32 {
    type V = Seq<(u64, u64)>;

    /// The entries pushed so far.
    closed spec fn view(&self) -> Seq<(u64, u64)> {
        self.buf@.take(self.len as int)
    }
}

impl StackEntries32 {
    /// The length never exceeds the capacity.
    pub closed spec fn wf(&self) -> bool {
        self.len <= 32
    }

    /// An empty buffer.
    pub fn new() -> (b: Self)
        ensures
            b.wf(),
            b@ == Seq::<(u64, u64)>::empty(),
    {
        let b = StackEntries32 { buf: [(0u64, 0u64); 32], len: 0 };
        proof {
            assert(b@ =~= Seq::<(u64, u64)>::empty());
        }
        b
    }

    /// Appends `entry`.
    pub fn push(&mut self, entry: (u64, u64))
        requires
            old(self).wf(),
            old(self)@.len() < 32,
        ensures
            final(self).wf(),
            final(self)@ == old(self)@.push(entry),
    {
        self.buf[self.len] = entry;
        self.len = self.len + 1;
        proof {
            assert(self@ =~= old(self)@.push(entry));
        }
    }

    /// The entries pushed so far.
    pub fn as_slice(&self) -> (s: &[(u64, u64)])
        requires
            self.wf(),
        ensures
            s@ == self@,
    {
        vstd::slice::slice_subrange(self.buf.as_slice(), 0, self.len)
    }
}

/// The cached descent path of a sequential map insert: handles of the edges
/// from the root toward the active leaf, with their levels.
pub struct InsertPathMap {
    /// Key prefix the cached path covers (`u64::MAX` when none).
    pub prefix: u64,
    /// Edge handles by depth.
    pub edges: [usize; 8],
    /// Slot level of each recorded edge.
    pub levels: [u8; 8],
    /// Number of recorded edges.
    pub depth: usize,
    /// Handle of the active bitmap map leaf, if any.
    pub leaf: Option<usize>,
    /// Handle of the active one-byte linear map leaf, if any.
    pub leaf1: Option<usize>,
    /// Population of the terminal node.
    pub terminal_pop: u16,
    /// Inserts not yet added to the ancestors' populations.
    pub pending_pop: usize,
}

impl InsertPathMap {
    /// No cached path.
    pub fn empty() -> (p: InsertPathMap)
        ensures
            p.prefix == u64::MAX,
            p.depth == 0,
            p.leaf is None,
            p.leaf1 is None,
            p.terminal_pop == 0,
            p.pending_pop == 0,
            p.edges@ == seq![0usize; 8],
            p.levels@ == seq![0u8; 8],
    {
        let p = InsertPathMap {
            prefix: u64::MAX,
            edges: [0usize; 8],
            levels: [0u8; 8],
            depth: 0,
            leaf: None,
            leaf1: None,
            terminal_pop: 0,
            pending_pop: 0,
        };
        proof {
            assert(p.edges@ =~= seq![0usize; 8]);
            assert(p.levels@ =~= seq![0u8; 8]);
        }
        p
    }

    /// Appends an ancestor below the recorded root while there is room; a
    /// path with no root recorded is left as it is.
    pub fn record_ancestor(&mut self, edge: usize, level: u8)
        ensures
            old(self).depth > 0 && old(self).depth < 8 ==> {
                &&& final(self).edges@ == old(self).edges@.update(old(self).depth as int, edge)
                &&& final(self).levels@ == old(self).levels@.update(old(self).depth as int, level)
                &&& final(self).depth == old(self).depth + 1
                &&& final(self).prefix == old(self).prefix
                &&& final(self).leaf == old(self).leaf
                &&& final(self).leaf1 == old(self).leaf1
                &&& final(self).terminal_pop == old(self).terminal_pop
                &&& final(self).pending_pop == old(self).pending_pop
            },
            !(old(self).depth > 0 && old(self).depth < 8) ==> *final(self) == *old(self),
    {
        if self.depth > 0 && self.depth < 8 {
            self.edges[self.depth] = edge;
            self.levels[self.depth] = level;
            self.depth = self.depth + 1;
        }
    }

    /// Adds the pending inserts to the population of every recorded
    /// ancestor below the root and zeroes the count.
    pub fn flush(&mut self, table: &mut Vec<Edge>)
        requires
            path_ok(old(table)@.len() as int, old(self).edges@, old(self).levels@, old(self).depth as int),
            old(self).pending_pop <= max_pending(),
        ensures
            old(self).pending_pop > 0 ==> path_bumped(
                old(table)@,
                final(table)@,
                old(self).edges@,
                old(self).levels@,
                old(self).depth as int,
                old(self).pending_pop as int,
            ),
            old(self).pending_pop == 0 ==> final(table)@ == old(table)@,
            *final(self) == (Self { pending_pop: 0, ..*old(self) }),
    {
        if self.pending_pop > 0 {
            let delta = self.pending_pop as i64;
            self.pending_pop = 0;
            bump_path(table, &self.edges, &self.levels, self.depth, delta);
        }
    }

    /// Forgets the cached path, flushing pending inserts first.
    pub fn clear(&mut self, table: &mut Vec<Edge>)
        requires
            path_ok(old(table)@.len() as int, old(self).edges@, old(self).levels@, old(self).depth as int),
            old(self).pending_pop <= max_pending(),
        ensures
            old(self).depth != 0 && old(self).pending_pop > 0 ==> path_bumped(
                old(table)@,
                final(table)@,
                old(self).edges@,
                old(self).levels@,
                old(self).depth as int,
                old(self).pending_pop as int,
            ),
            old(self).depth == 0 || old(self).pending_pop == 0 ==> final(table)@ == old(table)@,
            old(self).depth != 0 ==> *final(self) == (Self {
                prefix: u64::MAX,
                depth: 0,
                leaf: None,
                leaf1: None,
                terminal_pop: 0,
                pending_pop: 0,
                ..*old(self)
            }),
            old(self).depth == 0 ==> *final(self) == *old(self),
    {
        if self.depth != 0 {
            if self.pending_pop > 0 {
                self.flush(table);
            }
            self.prefix = u64::MAX;
            self.depth = 0;
            self.leaf = None;
            self.leaf1 = None;
            self.terminal_pop = 0;
        }
    }
}


/// The keys of `entries`, in order.
pub open spec fn entry_keys(entries: Seq<(u64, u64)>) -> Seq<u64> {
    entries.map_values(|e: (u64, u64)| e.0)
}

/// The values of `entries`, in order.
pub open spec fn entry_values(entries: Seq<(u64, u64)>) -> Seq<u64> {
    entries.map_values(|e: (u64, u64)| e.1)
}

/// Splits entries into their keys and their values.
fn split_entries(entries: &[(u64, u64)]) -> (r: (Vec<u64>, Vec<u64>))
    ensures
        r.0@ == entry_keys(entries@),
        r.1@ == entry_values(entries@),
{
    let mut keys: Vec<u64> = Vec::new();
    let mut vals: Vec<u64> = Vec::new();
    let mut i: usize = 0;
    while i < entries.len()
        invariant
            0 <= i <= entries@.len(),
            keys@ == entry_keys(entries@.take(i as int)),
            vals@ == entry_values(entries@.take(i as int)),
        decreases entries@.len() - i,
    {
        let (k, v) = entries[i];
        keys.push(k);
        vals.push(v);
        proof {
            assert(entries@.take(i + 1) == entries@.take(i as int).push(entries@[i as int]));
            assert(keys@ =~= entry_keys(entries@.take(i + 1)));
            assert(vals@ =~= entry_values(entries@.take(i + 1)));
        }
        i = i + 1;
    }
    proof {
        assert(entries@.take(entries@.len() as int) == entries@);
    }
    (keys, vals)
}

/// The eight little-endian bytes of `v`.
fn le_word(v: u64) -> (b: [u8; 8])
    ensures
        le_value(b@) == v,
{
    let mut w = [0u8; 8];
    let mut x = v;
    let mut i: usize = 0;
    proof {
        assert(pow256(0) == 1);
        assert(v as nat / 1 == v as nat);
        assert(v as nat % 1 == 0);
        assert(w@.take(0) =~= Seq::<u8>::empty());
    }
    while i < 8
        invariant
            0 <= i <= 8,
            w@.len() == 8,
            x as nat == v as nat / pow256(i as nat),
            le_value(w@.take(i as int)) == v as nat % pow256(i as nat),
        decreases 8 - i,
    {
        proof {
            lemma_le_step(w@, i as int, (x % 256) as u8, v as nat);
            lemma_pow256_pos(i as nat);
            vstd::arithmetic::div_mod::lemma_div_denominator(v as int, pow256(i as nat) as int, 256);
        }
        w[i] = (x % 256) as u8;
        x = x / 256;
        i = i + 1;
    }
    proof {
        lemma_pow256_values();
        assert(w@.take(8) =~= w@);
        vstd::arithmetic::div_mod::lemma_small_mod(v as nat, pow256(8));
    }
    w
}

/// Copies the first seven bytes of `v` into an array.
fn first7(v: &Vec<u8>) -> (a: [u8; 7])
    requires
        v@.len() >= 7,
    ensures
        a@ == v@.take(7),
{
    let mut a = [0u8; 7];
    let mut i: usize = 0;
    while i < 7
        invariant
            0 <= i <= 7,
            v@.len() >= 7,
            a@.len() == 7,
            forall|j: int| 0 <= j < i ==> a@[j] == v@[j],
        decreases 7 - i,
    {
        a[i] = v[i];
        i = i + 1;
    }
    proof {
        assert(a@ =~= v@.take(7));
    }
    a
}

/// Builds a map immediate from sorted entries: the keys packed in the aux
/// bytes; a single value inline in word 0, or, for several, word 0
/// referring to the value array at `vals_addr`, which is returned to be
/// stored there.
pub fn write_map_immed(edge: &mut Edge, kb: u8, entries: &[(u64, u64)], vals_addr: u64) -> (vals: Vec<u64>)
    requires
        1 <= kb <= 7,
        1 <= entries@.len(),
        entries@.len() * kb <= 7,
    ensures
        final(edge).tag_spec() == (ImmedType { kb, count: entries@.len() as u8 }).code(),
        forall|i: int|
            0 <= i < entries@.len() ==> #[trigger] packed_key(final(edge).aux_spec(), kb as int, i)
                == entries@[i].0 as nat % pow256(kb as nat),
        forall|j: int| entries@.len() * kb <= j < 7 ==> #[trigger] final(edge).aux_spec()[j] == 0,
        entries@.len() == 1 ==> le_value(final(edge).w0_spec()) == entries@[0].1 && vals@.len() == 0,
        entries@.len() >= 2 ==> word_bytes(final(edge).w0_spec(), vals_addr) && vals@ == entry_values(entries@),
{
    let n = entries.len();
    proof {
        assert(n <= 7) by (nonlinear_arith)
            requires
                n * kb <= 7,
                kb >= 1,
        ;
        assert(n <= 15usize / (kb as usize)) by (nonlinear_arith)
            requires
                n * kb <= 7,
                1 <= kb <= 7,
        ;
    }
    let im = match ImmedType::new(kb, n as u8) {
        Some(im) => im,
        None => {
            proof {
                assert(false);
            }
            ImmedType { kb, count: 1 }
        },
    };
    let (keys, values) = split_entries(entries);
    let mut buf: Vec<u8> = vec![0u8; 7];
    fill_packed_width(buf.as_mut_slice(), kb, keys.as_slice());
    let mut vals: Vec<u64> = Vec::new();
    if n == 1 {
        edge.set_imm_bytes(le_word(entries[0].1));
    } else {
        vals = values;
        *edge = Edge::new_node(vals_addr, 0);
    }
    let aux = first7(&buf);
    edge.set_aux_bytes(aux);
    edge.set_tag(im.as_u8());
    proof {
        assert(aux@ =~= buf@);
        assert forall|i: int| 0 <= i < entries@.len() implies #[trigger] packed_key(edge.aux_spec(), kb as int, i)
            == entries@[i].0 as nat % pow256(kb as nat) by {
            assert(keys@[i] == entries@[i].0);
        }
    }
    vals
}

/// The entries of a map leaf of `pop` entries: its value array and its
/// packed `kb`-byte keys.
pub fn read_map_leaf(vals: &[u64], keys: &[u8], kb: u8, pop: usize) -> (out: Vec<(u64, u64)>)
    requires
        1 <= kb <= 7,
        pop <= vals@.len(),
        pop * kb <= keys@.len(),
    ensures
        out@.len() == pop,
        forall|i: int|
            0 <= i < pop ==> (#[trigger] out@[i]).0 as nat == packed_key(keys@, kb as int, i) && out@[i].1
                == vals@[i],
{
    let mut out: Vec<(u64, u64)> = Vec::new();
    let mut slot: usize = 0;
    while slot < pop
        invariant
            1 <= kb <= 7,
            pop <= vals@.len(),
            pop * kb <= keys@.len(),
            0 <= slot <= pop,
            out@.len() == slot,
            forall|i: int|
                0 <= i < slot ==> (#[trigger] out@[i]).0 as nat == packed_key(keys@, kb as int, i) && out@[i].1
                    == vals@[i],
        decreases pop - slot,
    {
        proof {
            assert((slot + 1) * kb <= pop * kb) by (nonlinear_arith)
                requires
                    slot + 1 <= pop,
            ;
        }
        let k = read_packed(keys, slot, kb as usize);
        out.push((k, vals[slot]));
        slot = slot + 1;
    }
    out
}

/// Builds a map leaf from sorted entries: points `edge` at the leaf node
/// `addr` with the leaf tag for `kb` and `pop0 = entries.len() - 1`, and
/// returns the value array and the packed key array to store there.
pub fn build_map_leaf(edge: &mut Edge, addr: u64, kb: u8, entries: &[(u64, u64)]) -> (leaf: (Vec<u64>, Vec<u8>))
    requires
        1 <= kb <= 7,
        entries@.len() >= 1,
        entries@.len() * kb <= usize::MAX,
    ensures
        leaf.0@ == entry_values(entries@),
        leaf_encodes(leaf.1@, kb, entry_keys(entries@)),
        final(edge).tag_spec() == kb + 4,
        word_bytes(final(edge).w0_spec(), addr),
        final(edge).pop0_spec(kb) == (entries@.len() - 1) as nat % pow256(kb as nat),
        final(edge).aux_spec().skip(kb as int) == seq![0u8; 7].skip(kb as int),
{
    let (keys, values) = split_entries(entries);
    let bytes = build_leaf(edge, addr, kb, keys.as_slice());
    (values, bytes)
}

/// The values of the entries whose key lies in the 32-digit subexpanse
/// `s`, in order.
pub open spec fn sub_values(entries: Seq<(u64, u64)>, s: int) -> Seq<u64>
    decreases entries.len(),
{
    if entries.len() == 0 {
        Seq::empty()
    } else if entries.last().0 / 32 == s {
        sub_values(entries.drop_last(), s).push(entries.last().1)
    } else {
        sub_values(entries.drop_last(), s)
    }
}

/// Keys strictly ascending.
pub open spec fn keys_ascending(entries: Seq<(u64, u64)>) -> bool {
    forall|i: int, j: int| 0 <= i < j < entries.len() ==> entries[i].0 < entries[j].0
}

/// A prefix with no key in subexpanse `s` contributes no value to it.
proof fn lemma_sub_values_none(entries: Seq<(u64, u64)>, i: int, s: int)
    requires
        0 <= i <= entries.len(),
        forall|k: int| 0 <= k < i ==> #[trigger] entries[k].0 / 32 != s,
    ensures
        sub_values(entries.take(i), s) == Seq::<u64>::empty(),
    decreases i,
{
    if i > 0 {
        assert(entries.take(i).drop_last() == entries.take(i - 1));
        lemma_sub_values_none(entries, i - 1, s);
    }
}

/// Extending a prefix by a run of keys in subexpanse `sub` appends the
/// run's values to `sub` and leaves every other subexpanse as it was.
proof fn lemma_sub_values_run(entries: Seq<(u64, u64)>, i: int, j: int, sub: int, s: int)
    requires
        0 <= i <= j <= entries.len(),
        forall|k: int| i <= k < j ==> #[trigger] entries[k].0 / 32 == sub,
    ensures
        sub_values(entries.take(j), s) == sub_values(entries.take(i), s) + if s == sub {
            entry_values(entries.subrange(i, j))
        } else {
            Seq::<u64>::empty()
        },
    decreases j - i,
{
    if j == i {
        assert(entries.subrange(i, j) =~= Seq::<(u64, u64)>::empty());
        assert(entry_values(entries.subrange(i, j)) =~= Seq::<u64>::empty());
        assert(sub_values(entries.take(i), s) + Seq::<u64>::empty() =~= sub_values(entries.take(i), s));
    } else {
        lemma_sub_values_run(entries, i, j - 1, sub, s);
        assert(entries.take(j).drop_last() == entries.take(j - 1));
        assert(entries.take(j).last() == entries[j - 1]);
        assert(entries[j - 1].0 / 32 == sub);
        if s == sub {
            assert(entry_values(entries.subrange(i, j)) =~= entry_values(entries.subrange(i, j - 1)).push(
                entries[j - 1].1,
            ));
        } else {
            assert(sub_values(entries.take(i), s) + Seq::<u64>::empty() =~= sub_values(entries.take(i), s));
        }
    }
}

/// Builds a map bitmap leaf from sorted level-1 entries: the leaf's bitmap
/// marks every key, each 32-digit subexpanse holding keys refers to its
/// value array at `sub_addrs[sub]` (the others hold 0), and `edge` points
/// at the leaf node `addr` with `pop0 = entries.len() - 1`. Returns the leaf
/// and the eight value arrays to store at those addresses.
pub fn build_bitmap_leaf_map(edge: &mut Edge, addr: u64, entries: &[(u64, u64)], sub_addrs: &[u64; 8]) -> (r: (
    LeafBitmapL,
    Vec<Vec<u64>>,
))
    requires
        1 <= entries@.len(),
        keys_ascending(entries@),
        forall|i: int| 0 <= i < entries@.len() ==> (#[trigger] entries@[i]).0 < 256,
    ensures
        forall|d: u8|
            #[trigger] r.0.bitmap.has(d) <==> exists|i: int| 0 <= i < entries@.len() && entries@[i].0 == d,
        r.0.version == 0,
        r.1@.len() == 8,
        forall|s: int| 0 <= s < 8 ==> #[trigger] r.1@[s]@ == sub_values(entries@, s),
        forall|s: int|
            0 <= s < 8 ==> #[trigger] r.0.values@[s] == if sub_values(entries@, s).len() > 0 {
                sub_addrs@[s]
            } else {
                0
            },
        final(edge).tag_spec() == edge_type_code(EdgeType::LeafB1),
        word_bytes(final(edge).w0_spec(), addr),
        final(edge).pop0_spec(1) == (entries@.len() - 1) as nat % 256,
{
    let n = entries.len();
    let mut leaf = LeafBitmapL::new();
    let mut i: usize = 0;
    while i < n
        invariant
            n == entries@.len(),
            0 <= i <= n,
            forall|k: int| 0 <= k < n ==> (#[trigger] entries@[k]).0 < 256,
            leaf.version == 0,
            forall|s: int| 0 <= s < 8 ==> #[trigger] leaf.values@[s] == 0,
            forall|d: u8| #[trigger] leaf.bitmap.has(d) <==> exists|k: int| 0 <= k < i && entries@[k].0 == d,
        decreases n - i,
    {
        let d = entries[i].0 as u8;
        leaf.bitmap.set(d);
        proof {
            assert forall|e: u8| #[trigger] leaf.bitmap.has(e) <==> exists|k: int| 0 <= k < i + 1 && entries@[k].0
                == e by {
                if e == d {
                    assert(entries@[i as int].0 == e);
                }
            }
        }
        i = i + 1;
    }
    let ghost bits = leaf.bitmap;
    let mut runs: Vec<Vec<u64>> = Vec::new();
    let mut s: usize = 0;
    while s < 8
        invariant
            0 <= s <= 8,
            runs@.len() == s,
            forall|t: int| 0 <= t < s ==> #[trigger] runs@[t]@ == Seq::<u64>::empty(),
        decreases 8 - s,
    {
        runs.push(Vec::new());
        s = s + 1;
    }
    proof {
        assert(entries@.take(0) =~= Seq::<(u64, u64)>::empty());
    }
    i = 0;
    while i < n
        invariant
            n == entries@.len(),
            0 <= i <= n,
            keys_ascending(entries@),
            forall|k: int| 0 <= k < n ==> (#[trigger] entries@[k]).0 < 256,
            leaf.version == 0,
            leaf.bitmap == bits,
            runs@.len() == 8,
            forall|t: int| 0 <= t < 8 ==> #[trigger] runs@[t]@ == sub_values(entries@.take(i as int), t),
            forall|t: int|
                0 <= t < 8 ==> #[trigger] leaf.values@[t] == if sub_values(entries@.take(i as int), t).len() > 0 {
                    sub_addrs@[t]
                } else {
                    0
                },
            i < n ==> forall|k: int| 0 <= k < i ==> #[trigger] entries@[k].0 / 32 < entries@[i as int].0 / 32,
        decreases n - i,
    {
        let sub = (entries[i].0 >> 5) as usize;
        proof {
            let x = entries@[i as int].0;
            assert(x >> 5 == x / 32) by (bit_vector);
        }
        let mut j = i + 1;
        while j < n && (entries[j].0 >> 5) as usize == sub
            invariant
                n == entries@.len(),
                i < j <= n,
                forall|k: int| 0 <= k < n ==> (#[trigger] entries@[k]).0 < 256,
                sub == entries@[i as int].0 / 32,
                forall|k: int| i <= k < j ==> #[trigger] entries@[k].0 / 32 == sub,
            decreases n - j,
        {
            proof {
                let x = entries@[j as int].0;
                assert(x >> 5 == x / 32) by (bit_vector);
            }
            j = j + 1;
        }
        proof {
            if j < n {
                let x = entries@[j as int].0;
                assert(x >> 5 == x / 32) by (bit_vector);
            }
        }
        let mut arr: Vec<u64> = Vec::new();
        let mut slot = i;
        while slot < j
            invariant
                n == entries@.len(),
                i <= slot <= j <= n,
                arr@ == entry_values(entries@.subrange(i as int, slot as int)),
            decreases j - slot,
        {
            arr.push(entries[slot].1);
            proof {
                assert(entry_values(entries@.subrange(i as int, slot + 1)) =~= entry_values(
                    entries@.subrange(i as int, slot as int),
                ).push(entries@[slot as int].1));
            }
            slot = slot + 1;
        }
        proof {
            assert forall|k: int| 0 <= k < i implies #[trigger] entries@[k].0 / 32 != sub as int by {}
            lemma_sub_values_none(entries@, i as int, sub as int);
            assert forall|t: int| 0 <= t < 8 implies sub_values(entries@.take(j as int), t) == sub_values(
                entries@.take(i as int),
                t,
            ) + if t == sub {
                entry_values(entries@.subrange(i as int, j as int))
            } else {
                Seq::<u64>::empty()
            } by {
                lemma_sub_values_run(entries@, i as int, j as int, sub as int, t);
            }
            assert(sub_values(entries@.take(i as int), sub as int) + entry_values(
                entries@.subrange(i as int, j as int),
            ) =~= entry_values(entries@.subrange(i as int, j as int)));
        }
        leaf.values[sub] = sub_addrs[sub];
        runs.set(sub, arr);
        proof {
            assert forall|t: int| 0 <= t < 8 implies #[trigger] runs@[t]@ == sub_values(entries@.take(j as int), t)
                by {
                if t != sub {
                    assert(sub_values(entries@.take(i as int), t) + Seq::<u64>::empty() =~= sub_values(
                        entries@.take(i as int),
                        t,
                    ));
                }
            }
            assert forall|t: int| 0 <= t < 8 implies #[trigger] leaf.values@[t] == if sub_values(
                entries@.take(j as int),
                t,
            ).len() > 0 {
                sub_addrs@[t]
            } else {
                0
            } by {
                if t != sub {
                    assert(sub_values(entries@.take(i as int), t) + Seq::<u64>::empty() =~= sub_values(
                        entries@.take(i as int),
                        t,
                    ));
                }
            }
            if j < n {
                assert forall|k: int| 0 <= k < j implies #[trigger] entries@[k].0 / 32 < entries@[j as int].0 / 32 by {
                    assert(entries@[k].0 < entries@[j as int].0);
                    assert(entries@[i as int].0 < entries@[j as int].0);
                    assert(entries@[j as int].0 / 32 != sub);
                    if k >= i {
                        assert(entries@[k].0 / 32 == sub);
                    }
                }
            }
        }
        i = j;
    }
    proof {
        assert(entries@.take(n as int) == entries@);
    }
    *edge = Edge::new_node(addr, EdgeType::LeafB1.as_u8());
    edge.set_pop0(1, (n - 1) as u64);
    proof {
        lemma_pow256_values();
    }
    (leaf, runs)
}

/// A map leaf or map immediate reads back the entries it was built from,
/// when their keys fit in `kb` bytes.
pub proof fn law_map_leaf_roundtrip(vals: Seq<u64>, keys: Seq<u8>, kb: u8, entries: Seq<(u64, u64)>)
    requires
        1 <= kb <= 7,
        vals == entry_values(entries),
        leaf_encodes(keys, kb, entry_keys(entries)),
        forall|i: int| 0 <= i < entries.len() ==> (#[trigger] entries[i]).0 < pow256(kb as nat),
    ensures
        forall|i: int|
            0 <= i < entries.len() ==> (packed_key(keys, kb as int, i) as u64, vals[i]) == #[trigger] entries[i],
{
    assert forall|i: int| 0 <= i < entries.len() implies (packed_key(keys, kb as int, i) as u64, vals[i])
        == #[trigger] entries[i] by {
        assert(entry_keys(entries)[i] == entries[i].0);
        assert(packed_key(keys, kb as int, i) == entry_keys(entries)[i] as nat % pow256(kb as nat));
        vstd::arithmetic::div_mod::lemma_small_mod(entries[i].0 as nat, pow256(kb as nat));
    }
}

} // verus!
