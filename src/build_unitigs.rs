use crate::vec_slice::VecSlice;
use crate::BucketIndexType;
use std::collections::HashMap;
use vstd::prelude::*;

verus! {

/// The base that pairs with `b`; a byte that is no base stays as it is.
pub open spec fn complement(b: u8) -> u8 {
    if b == 65 {
        84u8
    } else if b == 84 {
        65u8
    } else if b == 67 {
        71u8
    } else if b == 71 {
        67u8
    } else {
        b
    }
}

/// `s` read backwards on the other strand.
pub open spec fn reverse_complement(s: Seq<u8>) -> Seq<u8> {
    Seq::new(s.len(), |i: int| complement(s[s.len() - 1 - i]))
}

fn complement_base(b: u8) -> (r: u8)
    ensures
        r == complement(b),
{
    if b == 65 {
        84
    } else if b == 84 {
        65
    } else if b == 67 {
        71
    } else if b == 71 {
        67
    } else {
        b
    }
}

/// Appends `s[from..to]`, or its reverse complement, to `out`.
fn extend_bases(out: &mut Vec<u8>, s: &Vec<u8>, from: usize, to: usize, reverse: bool)
    requires
        from <= to <= s@.len(),
    ensures
        final(out)@ == old(out)@ + (if reverse {
            reverse_complement(s@.subrange(from as int, to as int))
        } else {
            s@.subrange(from as int, to as int)
        }),
{
    let ghost part = s@.subrange(from as int, to as int);
    let ghost want = if reverse {
        reverse_complement(part)
    } else {
        part
    };
    let ghost start = old(out)@;
    let mut t: usize = 0;
    while t < to - from
        invariant
            from <= to <= s@.len(),
            t <= to - from,
            part == s@.subrange(from as int, to as int),
            want == (if reverse { reverse_complement(part) } else { part }),
            out@ == start + want.take(t as int),
        decreases to - from - t,
    {
        let b = if reverse {
            complement_base(s[to - 1 - t])
        } else {
            s[from + t]
        };
        out.push(b);
        proof {
            assert(want.take(t + 1) =~= want.take(t as int).push(b));
        }
        t += 1;
    }
    proof {
        assert(want.take(t as int) =~= want);
    }
}

/// How a fragment takes part in its chain.
#[derive(Clone, Copy, Debug, PartialEq, Eq, Structural)]
pub struct UnitigFlags {
    /// On the first fragment of a chain: the chain is read front to back.
    pub forward: bool,
    /// The fragment is read as its reverse complement.
    pub reverse_complemented: bool,
}

impl UnitigFlags {
    pub fn new_direction(forward: bool, reverse_complemented: bool) -> (r: UnitigFlags)
        ensures
            r.forward == forward,
            r.reverse_complemented == reverse_complemented,
    {
        UnitigFlags { forward, reverse_complemented }
    }

    pub fn is_forward(&self) -> (r: bool)
        ensures
            r == self.forward,
    {
        self.forward
    }

    pub fn is_reverse_complemented(&self) -> (r: bool)
        ensures
            r == self.reverse_complemented,
    {
        self.reverse_complemented
    }
}

/// What the chain map says of one fragment.
#[derive(Clone, Copy, Debug, PartialEq, Eq, Structural)]
pub struct FinalUnitigInfo {
    pub is_start: bool,
    pub is_circular: bool,
    pub flags: UnitigFlags,
}

/// A fragment placed in its slot of the chain order.
#[derive(Debug)]
pub struct ChainPart {
    pub bases: Vec<u8>,
    pub info: FinalUnitigInfo,
}

/// What the first fragment of a chain contributes: all of it.
pub open spec fn head_bases(p: ChainPart) -> Seq<u8> {
    if p.info.flags.reverse_complemented {
        reverse_complement(p.bases@)
    } else {
        p.bases@
    }
}

/// What a later fragment contributes: what lies beyond the `k` units that it
/// shares with the fragment before it.
pub open spec fn tail_bases(p: ChainPart, k: nat) -> Seq<u8> {
    if p.info.flags.reverse_complemented {
        reverse_complement(p.bases@.take(p.bases@.len() - k))
    } else {
        p.bases@.skip(k as int)
    }
}

/// The fragments of `parts` joined in order, each after the first without
/// its overlap.
pub open spec fn joined(parts: Seq<ChainPart>, k: nat) -> Seq<u8>
    decreases parts.len(),
{
    if parts.len() == 0 {
        Seq::empty()
    } else if parts.len() == 1 {
        head_bases(parts[0])
    } else {
        joined(parts.drop_last(), k) + tail_bases(parts.last(), k)
    }
}

/// The fragments of a chain in the order in which they are read: backwards
/// where the chain's first fragment is not marked forward.
pub open spec fn oriented(group: Seq<ChainPart>) -> Seq<ChainPart> {
    if group.len() > 0 && !group[0].info.flags.forward {
        group.reverse()
    } else {
        group
    }
}

/// A chain can be assembled when its first fragment is not empty and every
/// later one is longer than the overlap.
pub open spec fn parts_ok(parts: Seq<ChainPart>, k: nat) -> bool {
    &&& parts.len() > 0
    &&& parts[0].bases@.len() > 0
    &&& forall|i: int| 1 <= i < parts.len() ==> parts[i].bases@.len() > k
}

/// The sequence of one chain, or `None` where a fragment is too short; a
/// circular chain loses its last unit.
pub open spec fn assemble_chain(group: Seq<ChainPart>, k: nat) -> Option<Seq<u8>> {
    let parts = oriented(group);
    if !parts_ok(parts, k) {
        None
    } else if group[0].info.is_circular {
        Some(joined(parts, k).drop_last())
    } else {
        Some(joined(parts, k))
    }
}

proof fn lemma_joined_nonempty(parts: Seq<ChainPart>, k: nat)
    requires
        parts_ok(parts, k),
    ensures
        joined(parts, k).len() >= parts[0].bases@.len(),
    decreases parts.len(),
{
    if parts.len() > 1 {
        let init = parts.drop_last();
        assert(parts_ok(init, k)) by {
            assert forall|i: int| 1 <= i < init.len() implies init[i].bases@.len() > k by {
                assert(init[i] == parts[i]);
            }
        }
        lemma_joined_nonempty(init, k);
    }
}

/// Assembles the chain made of `slots[from..to]`.
pub fn assemble_group(slots: &Vec<ChainPart>, from: usize, to: usize, k: usize) -> (r: Option<Vec<u8>>)
    requires
        from < to <= slots@.len(),
    ensures
        r matches Some(v) ==> assemble_chain(slots@.subrange(from as int, to as int), k as nat) == Some(v@),
        r is None ==> assemble_chain(slots@.subrange(from as int, to as int), k as nat) is None,
{
    let ghost group = slots@.subrange(from as int, to as int);
    let ghost parts = oriented(group);
    let m = to - from;
    let backwards = !slots[from].info.flags.is_forward();
    let is_circular = slots[from].info.is_circular;
    let mut out: Vec<u8> = Vec::new();
    let mut p: usize = 0;
    while p < m
        invariant
            from < to <= slots@.len(),
            m == to - from,
            group == slots@.subrange(from as int, to as int),
            parts == oriented(group),
            backwards == !group[0].info.flags.forward,
            p <= m,
            parts.len() == m,
            forall|q: int| 0 <= q < m ==> parts[q] == slots@[if backwards { to - 1 - q } else { from + q }],
            parts_ok(parts.take(p as int), k as nat) || p == 0,
            out@ == joined(parts.take(p as int), k as nat),
        decreases m - p,
    {
        let idx = if backwards { to - 1 - p } else { from + p };
        let part = &slots[idx];
        let len = part.bases.len();
        let rc = part.info.flags.is_reverse_complemented();
        proof {
            assert(parts[p as int] == *part);
            assert(parts.take(p + 1).drop_last() =~= parts.take(p as int));
        }
        if p == 0 {
            if len == 0 {
                proof {
                    assert(!parts_ok(parts, k as nat));
                }
                return None;
            }
            extend_bases(&mut out, &part.bases, 0, len, rc);
            proof {
                assert(part.bases@.subrange(0, len as int) =~= part.bases@);
                assert(parts_ok(parts.take(1), k as nat));
            }
        } else {
            if len <= k {
                proof {
                    assert(!(parts[p as int].bases@.len() > k));
                }
                return None;
            }
            if rc {
                extend_bases(&mut out, &part.bases, 0, len - k, true);
                proof {
                    assert(part.bases@.subrange(0, len - k) =~= part.bases@.take(len - k));
                }
            } else {
                extend_bases(&mut out, &part.bases, k, len, false);
                proof {
                    assert(part.bases@.subrange(k as int, len as int) =~= part.bases@.skip(k as int));
                }
            }
            proof {
                let t = parts.take(p + 1);
                assert forall|i: int| 1 <= i < t.len() implies t[i].bases@.len() > k by {
                    if i < p {
                        assert(t[i] == parts.take(p as int)[i]);
                    }
                }
            }
        }
        p += 1;
    }
    proof {
        assert(parts.take(p as int) =~= parts);
        lemma_joined_nonempty(parts, k as nat);
    }
    if is_circular {
        out.pop();
        proof {
            assert(out@ =~= joined(parts, k as nat).drop_last());
        }
    }
    Some(out)
}

/// The first slot at or after `j` that starts a chain, or the end.
pub open spec fn next_start(slots: Seq<ChainPart>, j: int) -> int
    decreases slots.len() - j,
{
    if j >= slots.len() || j < 0 || slots[j].info.is_start {
        if j < 0 { 0 } else { j }
    } else {
        next_start(slots, j + 1)
    }
}

/// The sequences of the chains from slot `i` on: a chain runs from a slot to
/// the next one that starts a chain, and a chain that cannot be assembled is
/// left out.
pub open spec fn chains_from(slots: Seq<ChainPart>, i: int, k: nat) -> Seq<Seq<u8>>
    decreases slots.len() - i,
{
    if i < 0 || i >= slots.len() {
        Seq::empty()
    } else {
        let j = next_start(slots, i + 1);
        if i < j <= slots.len() {
            let rest = chains_from(slots, j, k);
            match assemble_chain(slots.subrange(i, j), k) {
                Some(s) => seq![s] + rest,
                None => rest,
            }
        } else {
            Seq::empty()
        }
    }
}

proof fn lemma_next_start(slots: Seq<ChainPart>, j: int)
    requires
        0 <= j,
    ensures
        j <= next_start(slots, j) <= slots.len() || (j > slots.len() && next_start(slots, j) == j),
        next_start(slots, j) < slots.len() ==> slots[next_start(slots, j)].info.is_start,
        forall|q: int| j <= q < next_start(slots, j) ==> !slots[q].info.is_start,
    decreases slots.len() - j,
{
    if !(j >= slots.len() || slots[j].info.is_start) {
        lemma_next_start(slots, j + 1);
    }
}

pub open spec fn seqs_view(v: Seq<Vec<u8>>) -> Seq<Seq<u8>> {
    v.map_values(|x: Vec<u8>| x@)
}

/// The sequences of every chain of the slots, in slot order.
pub fn assemble_chains(slots: &Vec<ChainPart>, k: usize) -> (r: Vec<Vec<u8>>)
    ensures
        seqs_view(r@) == chains_from(slots@, 0, k as nat),
{
    let ghost all = chains_from(slots@, 0, k as nat);
    let mut out: Vec<Vec<u8>> = Vec::new();
    let mut i: usize = 0;
    let n = slots.len();
    while i < n
        invariant
            n == slots@.len(),
            i <= n,
            seqs_view(out@) + chains_from(slots@, i as int, k as nat) == all,
        decreases n - i,
    {
        let mut j: usize = i + 1;
        while j < n && !slots[j].info.is_start
            invariant
                i < j <= n,
                n == slots@.len(),
                next_start(slots@, (i + 1) as int) == next_start(slots@, j as int),
            decreases n - j,
        {
            j += 1;
        }
        proof {
            assert(next_start(slots@, j as int) == j);
            lemma_next_start(slots@, (i + 1) as int);
        }
        let ghost rest = chains_from(slots@, j as int, k as nat);
        match assemble_group(slots, i, j, k) {
            Some(v) => {
                let ghost before = out@;
                out.push(v);
                proof {
                    assert(seqs_view(out@) =~= seqs_view(before).push(v@));
                    assert(seqs_view(out@) + rest =~= seqs_view(before) + (seq![v@] + rest));
                }
            },
            None => {},
        }
        i = j;
    }
    proof {
        assert(seqs_view(out@) + Seq::<Seq<u8>>::empty() =~= seqs_view(out@));
    }
    out
}

/// A fragment id: its partition, its number there, and whether it is read
/// reverse-complemented.
#[derive(Clone, Copy, Debug, PartialEq, Eq, Structural)]
pub struct UnitigIndex {
    pub bucket: BucketIndexType,
    pub index: u64,
    pub reverse_complemented: bool,
}

impl UnitigIndex {
    pub fn new(bucket: BucketIndexType, index: u64, reverse_complemented: bool) -> (r: Self)
        ensures
            r == (UnitigIndex { bucket, index, reverse_complemented }),
    {
        UnitigIndex { bucket, index, reverse_complemented }
    }

    pub fn is_reverse_complemented(&self) -> (r: bool)
        ensures
            r == self.reverse_complemented,
    {
        self.reverse_complemented
    }
}

/// A resolved chain: its first fragment, the chain's flags and the other
/// fragments in chain order, as a range of a shared backing vector.
#[derive(Clone, Copy, Debug)]
pub struct UnitigLink {
    pub entry: u64,
    pub flags: UnitigFlags,
    pub entries: VecSlice,
}

/// Why a partition could not be assembled.
#[derive(Clone, Copy, Debug, PartialEq, Eq, Structural)]
pub enum AssemblyError {
    /// A fragment stands twice in the chain map.
    DuplicateKey,
    /// A fragment is not in the chain map.
    UnknownFragment,
    /// A slot of the chain map received no fragment.
    MissingFragment,
}

/// The key of a fragment id in the chain map: one integer per id.
pub open spec fn key_of(u: UnitigIndex) -> u128 {
    key_value(u) as u128
}

pub open spec fn key_value(u: UnitigIndex) -> int {
    (u.bucket as int) * 0x2_0000_0000_0000_0000 + (u.index as int) * 2 + (if u.reverse_complemented { 1int } else { 0int })
}

proof fn lemma_key_value_bound(u: UnitigIndex)
    ensures
        0 <= key_value(u) < 0x1_0000_0000_0000_0000_0000_0000_0000_0000,
{
    assert(0 <= key_value(u) < 0x1_0000_0000_0000_0000_0000_0000_0000_0000) by (nonlinear_arith)
        requires
            0 <= u.bucket < 0x1_0000,
            0 <= u.index < 0x1_0000_0000_0000_0000,
            key_value(u) == (u.bucket as int) * 0x2_0000_0000_0000_0000 + (u.index as int) * 2 + (if u.reverse_complemented { 1int } else { 0int }),
    ;
}

proof fn lemma_key_injective(a: UnitigIndex, b: UnitigIndex)
    ensures
        key_of(a) == key_of(b) ==> a == b,
{
    let ra: int = if a.reverse_complemented { 1 } else { 0 };
    let rb: int = if b.reverse_complemented { 1 } else { 0 };
    lemma_key_value_bound(a);
    lemma_key_value_bound(b);
    if key_of(a) == key_of(b) {
        assert(a.bucket == b.bucket && a.index == b.index && ra == rb) by (nonlinear_arith)
            requires
                (a.bucket as int) * 0x2_0000_0000_0000_0000 + (a.index as int) * 2 + ra
                    == (b.bucket as int) * 0x2_0000_0000_0000_0000 + (b.index as int) * 2 + rb,
                0 <= ra <= 1,
                0 <= rb <= 1,
                a.index < 0x1_0000_0000_0000_0000,
                b.index < 0x1_0000_0000_0000_0000,
                0 <= a.index,
                0 <= b.index,
        ;
    }
}

fn key(u: UnitigIndex) -> (r: u128)
    ensures
        r == key_of(u),
{
    proof {
        lemma_key_value_bound(u);
        assert((u.bucket as int) * 0x2_0000_0000_0000_0000 <= 0xffff * 0x2_0000_0000_0000_0000) by (nonlinear_arith)
            requires u.bucket <= 0xffff;
        assert((u.index as int) * 2 <= 0xffff_ffff_ffff_ffff * 2) by (nonlinear_arith)
            requires u.index <= 0xffff_ffff_ffff_ffff;
    }
    (u.bucket as u128) * 0x2_0000_0000_0000_0000u128 + (u.index as u128) * 2 + (if u.reverse_complemented { 1u128 } else { 0u128 })
}

/// The first fragment of a chain record of partition `bucket`.
pub open spec fn start_of(bucket: BucketIndexType, l: UnitigLink) -> UnitigIndex {
    UnitigIndex { bucket, index: l.entry, reverse_complemented: l.flags.reverse_complemented }
}

/// A chain is circular when its last entry is its own first fragment.
pub open spec fn is_circular(start: UnitigIndex, es: Seq<UnitigIndex>) -> bool {
    es.len() > 0 && es.last() == start
}

/// The slots of the other fragments of a chain, in order, each entry equal to
/// the first fragment left out.
pub open spec fn entry_slots(es: Seq<UnitigIndex>, start: UnitigIndex, circular: bool) -> Seq<(UnitigIndex, FinalUnitigInfo)>
    decreases es.len(),
{
    if es.len() == 0 {
        Seq::empty()
    } else {
        let prev = entry_slots(es.drop_last(), start, circular);
        let el = es.last();
        if el == start {
            prev
        } else {
            prev.push((el, FinalUnitigInfo {
                is_start: false,
                is_circular: circular,
                flags: UnitigFlags { forward: false, reverse_complemented: el.reverse_complemented },
            }))
        }
    }
}

/// The slots of one chain record: its first fragment, then the others.
pub open spec fn link_slots(bucket: BucketIndexType, l: UnitigLink, backing: Seq<UnitigIndex>) -> Seq<(UnitigIndex, FinalUnitigInfo)> {
    let start = start_of(bucket, l);
    let es = l.entries.of(backing);
    let circular = is_circular(start, es);
    seq![(start, FinalUnitigInfo { is_start: true, is_circular: circular, flags: l.flags })]
        + entry_slots(es, start, circular)
}

/// The slots of every chain record of a partition, record after record: the
/// position of a fragment here is its place in the chain order.
pub open spec fn map_slots(bucket: BucketIndexType, links: Seq<UnitigLink>, backing: Seq<UnitigIndex>) -> Seq<(UnitigIndex, FinalUnitigInfo)>
    decreases links.len(),
{
    if links.len() == 0 {
        Seq::empty()
    } else {
        map_slots(bucket, links.drop_last(), backing) + link_slots(bucket, links.last(), backing)
    }
}

pub open spec fn distinct_keys(s: Seq<(UnitigIndex, FinalUnitigInfo)>) -> bool {
    forall|i: int, j: int| 0 <= i < j < s.len() ==> s[i].0 != s[j].0
}

/// The chain map of one partition: where each fragment goes, and what is
/// known of it.
pub struct ChainMap {
    pub positions: HashMap<u128, usize>,
    pub infos: Vec<FinalUnitigInfo>,
}

impl ChainMap {
    /// The map describes exactly the slots `s`.
    pub open spec fn describes(&self, s: Seq<(UnitigIndex, FinalUnitigInfo)>) -> bool {
        &&& self.infos@ == s.map_values(|p: (UnitigIndex, FinalUnitigInfo)| p.1)
        &&& forall|i: int| 0 <= i < s.len() ==> #[trigger] self.positions@.contains_key(key_of(s[i].0))
            && self.positions@[key_of(s[i].0)] == i
        &&& forall|q: u128| #[trigger] self.positions@.contains_key(q) ==> exists|i: int| 0 <= i < s.len() && key_of(s[i].0) == q
    }
}

/// Adds one slot to the map, or reports that its fragment is there already.
fn add_slot(map: &mut ChainMap, u: UnitigIndex, info: FinalUnitigInfo, Ghost(s): Ghost<Seq<(UnitigIndex, FinalUnitigInfo)>>) -> (r: Result<(), AssemblyError>)
    requires
        old(map).describes(s),
        distinct_keys(s),
    ensures
        r is Ok <==> forall|i: int| 0 <= i < s.len() ==> s[i].0 != u,
        r matches Err(e) ==> e == AssemblyError::DuplicateKey,
        r is Ok ==> final(map).describes(s.push((u, info))) && distinct_keys(s.push((u, info))),
{
    broadcast use vstd::std_specs::hash::group_hash_axioms;
    let k = key(u);
    if map.positions.contains_key(&k) {
        proof {
            let i = choose|i: int| 0 <= i < s.len() && key_of(s[i].0) == k;
            lemma_key_injective(s[i].0, u);
        }
        return Err(AssemblyError::DuplicateKey);
    }
    let pos = map.infos.len();
    map.positions.insert(k, pos);
    map.infos.push(info);
    proof {
        let t = s.push((u, info));
        assert(map.infos@ =~= t.map_values(|p: (UnitigIndex, FinalUnitigInfo)| p.1));
        assert forall|i: int| 0 <= i < t.len() implies #[trigger] map.positions@.contains_key(key_of(t[i].0))
            && map.positions@[key_of(t[i].0)] == i by {
            if i < s.len() {
                assert(old(map).positions@.contains_key(key_of(s[i].0)));
            }
        }
        assert forall|q: u128| #[trigger] map.positions@.contains_key(q) implies exists|i: int| 0 <= i < t.len() && key_of(t[i].0) == q by {
            if q == k {
                assert(key_of(t[s.len() as int].0) == q);
            } else {
                assert(old(map).positions@.contains_key(q));
                let i = choose|i: int| 0 <= i < s.len() && key_of(s[i].0) == q;
                assert(key_of(t[i].0) == q);
            }
        }
        assert forall|i: int| 0 <= i < s.len() implies s[i].0 != u by {
            assert(old(map).positions@.contains_key(key_of(s[i].0)));
        }
    }
    Ok(())
}

pub open spec fn is_prefix<T>(p: Seq<T>, f: Seq<T>) -> bool {
    p.len() <= f.len() && f.take(p.len() as int) == p
}

proof fn lemma_map_slots_prefix(bucket: BucketIndexType, links: Seq<UnitigLink>, backing: Seq<UnitigIndex>, a: int)
    requires
        0 <= a <= links.len(),
    ensures
        is_prefix(map_slots(bucket, links.take(a), backing), map_slots(bucket, links, backing)),
    decreases links.len(),
{
    if a == links.len() {
        assert(links.take(a) =~= links);
        let f = map_slots(bucket, links, backing);
        assert(f.take(f.len() as int) =~= f);
    } else {
        let init = links.drop_last();
        assert(init.take(a) =~= links.take(a));
        lemma_map_slots_prefix(bucket, init, backing, a);
        let p = map_slots(bucket, links.take(a), backing);
        let f = map_slots(bucket, links, backing);
        assert(f.take(p.len() as int) =~= map_slots(bucket, init, backing).take(p.len() as int));
    }
}

proof fn lemma_entry_slots_prefix(es: Seq<UnitigIndex>, start: UnitigIndex, circular: bool, a: int)
    requires
        0 <= a <= es.len(),
    ensures
        is_prefix(entry_slots(es.take(a), start, circular), entry_slots(es, start, circular)),
    decreases es.len(),
{
    if a == es.len() {
        assert(es.take(a) =~= es);
        let f = entry_slots(es, start, circular);
        assert(f.take(f.len() as int) =~= f);
    } else {
        let init = es.drop_last();
        assert(init.take(a) =~= es.take(a));
        lemma_entry_slots_prefix(init, start, circular, a);
        let p = entry_slots(es.take(a), start, circular);
        let f = entry_slots(es, start, circular);
        let g = entry_slots(init, start, circular);
        assert(f.take(p.len() as int) =~= g.take(p.len() as int));
    }
}

proof fn lemma_prefix_trans<T>(a: Seq<T>, b: Seq<T>, c: Seq<T>)
    requires
        is_prefix(a, b),
        is_prefix(b, c),
    ensures
        is_prefix(a, c),
{
    assert(c.take(a.len() as int) =~= b.take(a.len() as int));
}

proof fn lemma_prefix_not_distinct(p: Seq<(UnitigIndex, FinalUnitigInfo)>, f: Seq<(UnitigIndex, FinalUnitigInfo)>)
    requires
        is_prefix(p, f),
        !distinct_keys(p),
    ensures
        !distinct_keys(f),
{
    let (i, j) = choose|i: int, j: int| 0 <= i < j < p.len() && p[i].0 == p[j].0;
    assert(f[i] == p[i] && f[j] == p[j]);
}

/// Reads the chain records of partition `bucket` into a chain map: each first
/// fragment, then the other fragments of its chain, take the next positions.
/// Fails exactly where a fragment would stand twice.
pub fn build_chain_map(bucket: BucketIndexType, links: &Vec<UnitigLink>, backing: &Vec<UnitigIndex>) -> (r: Result<ChainMap, AssemblyError>)
    requires
        forall|i: int| 0 <= i < links@.len() ==> #[trigger] links@[i].entries.fits(backing@),
    ensures
        r is Ok <==> distinct_keys(map_slots(bucket, links@, backing@)),
        r matches Ok(m) ==> m.describes(map_slots(bucket, links@, backing@)),
        r matches Err(e) ==> e == AssemblyError::DuplicateKey,
{
    let ghost full = map_slots(bucket, links@, backing@);
    let mut map = ChainMap { positions: HashMap::new(), infos: Vec::new() };
    proof {
        assert(links@.take(0) =~= Seq::<UnitigLink>::empty());
        assert(map.infos@ =~= map_slots(bucket, links@.take(0), backing@).map_values(|p: (UnitigIndex, FinalUnitigInfo)| p.1));
        lemma_map_slots_prefix(bucket, links@, backing@, 0);
    }
    let mut li: usize = 0;
    while li < links.len()
        invariant
            li <= links@.len(),
            full == map_slots(bucket, links@, backing@),
            forall|i: int| 0 <= i < links@.len() ==> #[trigger] links@[i].entries.fits(backing@),
            map.describes(map_slots(bucket, links@.take(li as int), backing@)),
            distinct_keys(map_slots(bucket, links@.take(li as int), backing@)),
            is_prefix(map_slots(bucket, links@.take(li as int), backing@), full),
        decreases links@.len() - li,
    {
        let link = links[li];
        let start = UnitigIndex::new(bucket, link.entry, link.flags.is_reverse_complemented());
        let es = link.entries.get_slice(backing);
        let circular = es.len() > 0 && es[es.len() - 1] == start;
        let info = FinalUnitigInfo { is_start: true, is_circular: circular, flags: link.flags };
        let ghost base = map_slots(bucket, links@.take(li as int), backing@);
        let ghost next = map_slots(bucket, links@.take(li + 1), backing@);
        proof {
            assert(links@.take(li + 1).drop_last() =~= links@.take(li as int));
            assert(links@.take(li + 1).last() == link);
            assert(circular == is_circular(start, es@));
            lemma_map_slots_prefix(bucket, links@, backing@, li + 1);
            assert(next =~= base + seq![(start, info)] + entry_slots(es@, start, circular));
        }
        match add_slot(&mut map, start, info, Ghost(base)) {
            Err(e) => {
                proof {
                    let p = base.push((start, info));
                    let i = choose|i: int| 0 <= i < base.len() && base[i].0 == start;
                    assert(p[i].0 == p[base.len() as int].0);
                    assert(is_prefix(p, next)) by {
                        assert(next.take(p.len() as int) =~= p);
                    }
                    lemma_prefix_trans(p, next, full);
                    lemma_prefix_not_distinct(p, full);
                }
                return Err(e);
            },
            Ok(()) => {},
        }
        let mut t: usize = 0;
        proof {
            assert(es@.take(0) =~= Seq::<UnitigIndex>::empty());
            assert(base.push((start, info)) =~= base + seq![(start, info)] + entry_slots(es@.take(0), start, circular));
        }
        while t < es.len()
            invariant
                t <= es@.len(),
                full == map_slots(bucket, links@, backing@),
                is_prefix(next, full),
                next == base + seq![(start, info)] + entry_slots(es@, start, circular),
                map.describes(base + seq![(start, info)] + entry_slots(es@.take(t as int), start, circular)),
                distinct_keys(base + seq![(start, info)] + entry_slots(es@.take(t as int), start, circular)),
            decreases es@.len() - t,
        {
            let el = es[t];
            let ghost cur = base + seq![(start, info)] + entry_slots(es@.take(t as int), start, circular);
            proof {
                assert(es@.take(t + 1).drop_last() =~= es@.take(t as int));
                assert(es@.take(t + 1).last() == el);
            }
            if el != start {
                let el_info = FinalUnitigInfo {
                    is_start: false,
                    is_circular: circular,
                    flags: UnitigFlags::new_direction(false, el.is_reverse_complemented()),
                };
                proof {
                    assert(base + seq![(start, info)] + entry_slots(es@.take(t + 1), start, circular) =~= cur.push((el, el_info)));
                }
                match add_slot(&mut map, el, el_info, Ghost(cur)) {
                    Err(e) => {
                        proof {
                            let p = cur.push((el, el_info));
                            let i = choose|i: int| 0 <= i < cur.len() && cur[i].0 == el;
                            assert(p[i].0 == p[cur.len() as int].0);
                            lemma_entry_slots_prefix(es@, start, circular, t + 1);
                            let pe = entry_slots(es@.take(t + 1), start, circular);
                            let fe = entry_slots(es@, start, circular);
                            assert(is_prefix(p, next)) by {
                                assert(p =~= base + seq![(start, info)] + pe);
                                assert(next.take(p.len() as int) =~= base + seq![(start, info)] + fe.take(pe.len() as int));
                            }
                            lemma_prefix_trans(p, next, full);
                            lemma_prefix_not_distinct(p, full);
                        }
                        return Err(e);
                    },
                    Ok(()) => {},
                }
            } else {
                proof {
                    assert(base + seq![(start, info)] + entry_slots(es@.take(t + 1), start, circular) =~= cur);
                }
            }
            t += 1;
        }
        proof {
            assert(es@.take(t as int) =~= es@);
        }
        li += 1;
    }
    proof {
        assert(links@.take(li as int) =~= links@);
    }
    Ok(map)
}

/// A fragment read back from a partition, with its id.
#[derive(Debug)]
pub struct Fragment {
    pub key: UnitigIndex,
    pub bases: Vec<u8>,
}

impl ChainMap {
    /// Every position that the map gives is a slot.
    pub open spec fn well_formed(&self) -> bool {
        forall|q: u128| #[trigger] self.positions@.contains_key(q) ==> self.positions@[q] < self.infos@.len()
    }
}

/// The bases that end up in slot `i`: those of the last fragment that the map
/// sends there.
pub open spec fn slot_fill(positions: Map<u128, usize>, frags: Seq<Fragment>, i: int) -> Option<Seq<u8>>
    decreases frags.len(),
{
    if frags.len() == 0 {
        None
    } else {
        let f = frags.last();
        if positions.contains_key(key_of(f.key)) && positions[key_of(f.key)] == i {
            Some(f.bases@)
        } else {
            slot_fill(positions, frags.drop_last(), i)
        }
    }
}

/// Every fragment has a place in the map.
pub open spec fn all_known(positions: Map<u128, usize>, frags: Seq<Fragment>) -> bool {
    forall|j: int| 0 <= j < frags.len() ==> positions.contains_key(#[trigger] key_of(frags[j].key))
}

/// Puts each fragment in the slot that the map gives its id, with what the
/// map says of that slot; a later fragment of the same id replaces an
/// earlier one.
pub fn place_fragments(map: &ChainMap, fragments: Vec<Fragment>) -> (r: Result<Vec<ChainPart>, AssemblyError>)
    requires
        map.well_formed(),
    ensures
        (r is Err && r->Err_0 == AssemblyError::UnknownFragment) <==> !all_known(map.positions@, fragments@),
        (r is Err && r->Err_0 == AssemblyError::MissingFragment) <==> all_known(map.positions@, fragments@)
            && exists|i: int| 0 <= i < map.infos@.len() && slot_fill(map.positions@, fragments@, i) is None,
        r matches Err(e) ==> e != AssemblyError::DuplicateKey,
        r matches Ok(parts) ==> parts@.len() == map.infos@.len() && forall|i: int| 0 <= i < parts@.len() ==>
            (#[trigger] parts@[i]).info == map.infos@[i] && slot_fill(map.positions@, fragments@, i) == Some(parts@[i].bases@),
{
    broadcast use vstd::std_specs::hash::group_hash_axioms;
    let ghost all = fragments@;
    let ghost pm = map.positions@;
    let n = map.infos.len();
    let mut parts: Vec<ChainPart> = Vec::new();
    let mut filled: Vec<bool> = Vec::new();
    let mut i: usize = 0;
    while i < n
        invariant
            n == map.infos@.len(),
            i <= n,
            parts@.len() == i,
            filled@.len() == i,
            forall|j: int| 0 <= j < i ==> !(#[trigger] filled@[j]),
            forall|j: int| 0 <= j < i ==> (#[trigger] parts@[j]).info == map.infos@[j],
        decreases n - i,
    {
        parts.push(ChainPart { bases: Vec::new(), info: map.infos[i] });
        filled.push(false);
        i += 1;
    }
    let mut frags = fragments;
    proof {
        assert(all.skip(all.len() as int) =~= Seq::<Fragment>::empty());
        assert(all.take(all.len() as int) =~= all);
    }
    while frags.len() > 0
        invariant
            n == map.infos@.len(),
            pm == map.positions@,
            all == fragments@,
            map.well_formed(),
            parts@.len() == n,
            filled@.len() == n,
            frags@.len() <= all.len(),
            frags@ == all.take(frags@.len() as int),
            all_known(pm, all.skip(frags@.len() as int)),
            forall|j: int| 0 <= j < n ==> (#[trigger] parts@[j]).info == map.infos@[j],
            forall|j: int| 0 <= j < n ==> if #[trigger] filled@[j] {
                slot_fill(pm, all, j) == Some(parts@[j].bases@)
            } else {
                slot_fill(pm, all, j) == slot_fill(pm, frags@, j)
            },
        decreases frags@.len(),
    {
        let ghost before = frags@;
        let f = frags.pop().unwrap();
        proof {
            assert(before.drop_last() =~= frags@);
            assert(before.last() == f);
        }
        let k = key(f.key);
        match map.positions.get(&k) {
            None => {
                proof {
                    let j = frags@.len() as int;
                    assert(all[j] == f);
                    assert(!pm.contains_key(key_of(all[j].key)));
                    assert(!all_known(pm, all));
                }
                return Err(AssemblyError::UnknownFragment);
            },
            Some(pos_ref) => {
                let pos = *pos_ref;
                assert(pm.contains_key(k) && pm[k] == pos);
                if !filled[pos] {
                    let info = parts[pos].info;
                    parts[pos] = ChainPart { bases: f.bases, info };
                    filled[pos] = true;
                }
                proof {
                    let s = all.skip(frags@.len() as int);
                    let s0 = all.skip(before.len() as int);
                    assert forall|j: int| 0 <= j < s.len() implies pm.contains_key(#[trigger] key_of(s[j].key)) by {
                        if j > 0 {
                            assert(s[j] == s0[j - 1]);
                            assert(pm.contains_key(key_of(s0[j - 1].key)));
                        } else {
                            assert(s[0] == f);
                        }
                    }
                }
            },
        }
    }
    proof {
        assert(all.skip(0) =~= all);
        assert(frags@ =~= Seq::<Fragment>::empty());
    }
    let mut c: usize = 0;
    while c < n
        invariant
            n == filled@.len(),
            n == parts@.len(),
            n == map.infos@.len(),
            pm == map.positions@,
            all == fragments@,
            all_known(pm, all),
            forall|j: int| 0 <= j < n ==> (#[trigger] parts@[j]).info == map.infos@[j],
            forall|j: int| 0 <= j < n ==> if #[trigger] filled@[j] {
                slot_fill(pm, all, j) == Some(parts@[j].bases@)
            } else {
                slot_fill(pm, all, j) is None
            },
            c <= n,
            forall|j: int| 0 <= j < c ==> #[trigger] filled@[j],
        decreases n - c,
    {
        if !filled[c] {
            proof {
                assert(slot_fill(pm, Seq::<Fragment>::empty(), c as int) is None);
                assert(slot_fill(pm, all, c as int) is None);
                assert(all_known(pm, all));
            }
            return Err(AssemblyError::MissingFragment);
        }
        c += 1;
    }
    proof {
        assert forall|i: int| 0 <= i < map.infos@.len() implies !(slot_fill(pm, all, i) is None) by {
            assert(filled@[i]);
        }
        assert forall|i: int| 0 <= i < parts@.len() implies (#[trigger] parts@[i]).info == map.infos@[i]
            && slot_fill(pm, all, i) == Some(parts@[i].bases@) by {
            assert(filled@[i]);
        }
    }
    Ok(parts)
}

proof fn lemma_describes_well_formed(m: &ChainMap, s: Seq<(UnitigIndex, FinalUnitigInfo)>)
    requires
        m.describes(s),
    ensures
        m.well_formed(),
{
    assert(m.infos@.len() == s.len());
    assert forall|q: u128| #[trigger] m.positions@.contains_key(q) implies m.positions@[q] < m.infos@.len() by {
        let i = choose|i: int| 0 <= i < s.len() && key_of(s[i].0) == q;
        assert(m.positions@.contains_key(key_of(s[i].0)));
    }
}

/// The fragments as placed in chain order: slot `i` holds what the map says
/// of it and the bases of the last fragment sent there.
pub open spec fn placed(parts: Seq<ChainPart>, slots: Seq<(UnitigIndex, FinalUnitigInfo)>, positions: Map<u128, usize>, frags: Seq<Fragment>) -> bool {
    &&& parts.len() == slots.len()
    &&& forall|i: int| 0 <= i < parts.len() ==> (#[trigger] parts[i]).info == slots[i].1
        && slot_fill(positions, frags, i) == Some(parts[i].bases@)
}

/// The positions of a chain map built from `slots`.
pub open spec fn positions_of(slots: Seq<(UnitigIndex, FinalUnitigInfo)>) -> Map<u128, usize> {
    Map::new(
        |q: u128| exists|i: int| 0 <= i < slots.len() && key_of(slots[i].0) == q,
        |q: u128| (choose|i: int| 0 <= i < slots.len() && key_of(slots[i].0) == q) as usize,
    )
}

/// Assembles one partition: builds the chain map from its chain records,
/// places its fragments, and joins every chain. The result holds one
/// sequence per chain that could be assembled, in chain-map order.
pub fn build_unitigs(
    bucket: BucketIndexType,
    links: &Vec<UnitigLink>,
    backing: &Vec<UnitigIndex>,
    fragments: Vec<Fragment>,
    k: usize,
) -> (r: Result<Vec<Vec<u8>>, AssemblyError>)
    requires
        forall|i: int| 0 <= i < links@.len() ==> #[trigger] links@[i].entries.fits(backing@),
    ensures
        ({
            let slots = map_slots(bucket, links@, backing@);
            let pos = positions_of(slots);
            &&& (r is Err && r->Err_0 == AssemblyError::DuplicateKey) <==> !distinct_keys(slots)
            &&& (r is Err && r->Err_0 == AssemblyError::UnknownFragment) <==> distinct_keys(slots)
                && !all_known(pos, fragments@)
            &&& (r is Err && r->Err_0 == AssemblyError::MissingFragment) <==> distinct_keys(slots)
                && all_known(pos, fragments@)
                && exists|i: int| 0 <= i < slots.len() && slot_fill(pos, fragments@, i) is None
            &&& r matches Ok(out) ==> exists|parts: Seq<ChainPart>| #[trigger] placed(parts, slots, pos, fragments@)
                && seqs_view(out@) == chains_from(parts, 0, k as nat)
        }),
{
    let ghost slots = map_slots(bucket, links@, backing@);
    let map = match build_chain_map(bucket, links, backing) {
        Ok(m) => m,
        Err(e) => return Err(e),
    };
    proof {
        lemma_describes_well_formed(&map, slots);
        assert(map.positions@ =~= positions_of(slots)) by {
            assert forall|q: u128| #[trigger] map.positions@.contains_key(q) <==> positions_of(slots).dom().contains(q) by {
                if positions_of(slots).dom().contains(q) {
                    let i = choose|i: int| 0 <= i < slots.len() && key_of(slots[i].0) == q;
                    assert(map.positions@.contains_key(key_of(slots[i].0)));
                }
            }
            assert forall|q: u128| #[trigger] map.positions@.contains_key(q) implies map.positions@[q] == positions_of(slots)[q] by {
                let i = choose|i: int| 0 <= i < slots.len() && key_of(slots[i].0) == q;
                assert(map.positions@.contains_key(key_of(slots[i].0)));
                assert(map.positions@[key_of(slots[i].0)] == i);
                lemma_key_injective(slots[i].0, slots[i].0);
            }
        }
        assert(map.infos@.len() == slots.len());
    }
    let parts = match place_fragments(&map, fragments) {
        Ok(p) => p,
        Err(e) => return Err(e),
    };
    let out = assemble_chains(&parts, k);
    proof {
        assert forall|i: int| 0 <= i < parts@.len() implies (#[trigger] parts@[i]).info == slots[i].1 by {
            assert(map.infos@[i] == slots[i].1);
        }
        assert(placed(parts@, slots, positions_of(slots), fragments@));
    }
    Ok(out)
}

/// A circular chain that can be assembled comes out one unit shorter than
/// its fragments joined with their overlaps removed.
pub proof fn lemma_circular_trim(group: Seq<ChainPart>, k: nat)
    requires
        parts_ok(oriented(group), k),
        group[0].info.is_circular,
    ensures
        assemble_chain(group, k) matches Some(s) && s.len() + 1 == joined(oriented(group), k).len(),
        assemble_chain(group, k) matches Some(s) && s == joined(oriented(group), k).drop_last(),
{
    lemma_joined_nonempty(oriented(group), k);
}

} // verus!
