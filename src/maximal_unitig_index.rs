use crate::varint::{decode_varint, encode_varint, varint_bytes, varint_read, VARINT_MAX_SIZE};
use crate::vec_slice::VecSlice;
use vstd::prelude::*;

verus! {

/// Orientation bits of one end of a link: bit 0 says whether the current
/// fragment is read reverse-complemented, bit 1 whether the other one is.
#[derive(Clone, Copy, Debug, PartialEq, Eq, Structural)]
pub struct MaximalUnitigFlags(pub u8);

pub const FLIP_CURRENT: usize = 0;

pub const FLIP_OTHER: usize = 1;

impl MaximalUnitigFlags {
    pub open spec fn bit(&self, pos: u8) -> bool {
        self.0 & (1u8 << pos) != 0
    }

    pub open spec fn spec_flip_current(&self) -> bool {
        self.bit(FLIP_CURRENT as u8)
    }

    pub open spec fn spec_flip_other(&self) -> bool {
        self.bit(FLIP_OTHER as u8)
    }

    fn get_bit(&self, pos: usize) -> (r: bool)
        requires
            pos < 8,
        ensures
            r == self.bit(pos as u8),
    {
        (self.0 & (1u8 << (pos as u8))) != 0
    }

    pub fn new_direction(flip_current: bool, flip_other: bool) -> (r: MaximalUnitigFlags)
        ensures
            r.0 == (flip_current as u8) | ((flip_other as u8) << 1u8),
            r.spec_flip_current() == flip_current,
            r.spec_flip_other() == flip_other,
    {
        let c: u8 = if flip_current { 1 } else { 0 };
        let o: u8 = if flip_other { 1 } else { 0 };
        let bits: u8 = (c << (FLIP_CURRENT as u8)) | (o << (FLIP_OTHER as u8));
        assert(c <= 1 && o <= 1 ==> (((c << 0u8) | (o << 1u8)) & (1u8 << 0u8) != 0) == (c == 1)
            && (((c << 0u8) | (o << 1u8)) & (1u8 << 1u8) != 0) == (o == 1)
            && (c << 0u8) | (o << 1u8) == c | (o << 1u8)) by (bit_vector);
        MaximalUnitigFlags(bits)
    }

    #[verifier::when_used_as_spec(spec_flip_other)]
    pub fn flip_other(&self) -> (r: bool)
        ensures
            r == self.spec_flip_other(),
    {
        self.get_bit(FLIP_OTHER)
    }

    #[verifier::when_used_as_spec(spec_flip_current)]
    pub fn flip_current(&self) -> (r: bool)
        ensures
            r == self.spec_flip_current(),
    {
        self.get_bit(FLIP_CURRENT)
    }
}

/// A fragment id together with the orientation of the link that reaches it.
/// Two indices are equal when their ids are.
#[derive(Clone, Copy, Debug)]
pub struct MaximalUnitigIndex {
    pub index: u64,
    pub flags: MaximalUnitigFlags,
}

impl PartialEq for MaximalUnitigIndex {
    fn eq(&self, other: &MaximalUnitigIndex) -> (r: bool) {
        other.index == self.index
    }
}

impl vstd::std_specs::cmp::PartialEqSpecImpl for MaximalUnitigIndex {
    open spec fn obeys_eq_spec() -> bool {
        true
    }

    open spec fn eq_spec(&self, other: &MaximalUnitigIndex) -> bool {
        self.spec_index() == other.spec_index()
    }
}

impl Eq for MaximalUnitigIndex {

}

impl MaximalUnitigIndex {
    pub open spec fn spec_index(&self) -> u64 {
        self.index
    }

    pub fn new(index: u64, flags: MaximalUnitigFlags) -> (r: Self)
        ensures
            r.spec_index() == index,
            r.flags == flags,
    {
        Self { index, flags }
    }

    #[verifier::when_used_as_spec(spec_index)]
    pub fn index(&self) -> (r: u64)
        ensures
            r == self.spec_index(),
    {
        self.index
    }

    /// Appends the index and its flags byte to `out`.
    pub fn encode_extended(&self, out: &mut Vec<u8>)
        ensures
            final(out)@ == old(out)@ + entry_bytes(*self),
    {
        encode_varint(out, self.index);
        out.push(self.flags.0);
    }

    /// Reads an index and its flags byte at `pos`, with the number of bytes taken.
    pub fn decode_extended(buf: &[u8], pos: usize) -> (r: Option<(MaximalUnitigIndex, usize)>)
        requires
            pos <= buf@.len(),
        ensures
            r matches Some((e, n)) ==> entry_read(buf@.skip(pos as int)) == Some((e, n as nat))
                && pos + n <= buf@.len(),
            r is None ==> entry_read(buf@.skip(pos as int)) is None,
    {
        match decode_varint(buf, pos) {
            Some((index, n)) => {
                let total = buf.len();
                assert(pos + n <= total);
                if pos + n >= total {
                    None
                } else {
                    let flags = buf[pos + n];
                    proof {
                        assert(buf@.skip(pos as int).skip(n as int) =~= buf@.skip(pos + n));
                    }
                    Some((MaximalUnitigIndex::new(index, MaximalUnitigFlags(flags)), n + 1))
                }
            },
            None => None,
        }
    }

    pub fn max_size(&self) -> (r: usize)
        ensures
            r == VARINT_MAX_SIZE * 2,
            entry_bytes(*self).len() <= r,
    {
        proof {
            crate::varint::lemma_varint_len_u64(self.index);
        }
        VARINT_MAX_SIZE * 2
    }
}

/// Encoding of one neighbour entry: its id, then its flags byte.
pub open spec fn entry_bytes(e: MaximalUnitigIndex) -> Seq<u8> {
    varint_bytes(e.spec_index() as nat).push(e.flags.0)
}

/// What reading one entry at the start of `s` yields, with the bytes taken.
pub open spec fn entry_read(s: Seq<u8>) -> Option<(MaximalUnitigIndex, nat)> {
    match varint_read(s) {
        Some((index, n)) => if n < s.len() {
            Some((MaximalUnitigIndex { index, flags: MaximalUnitigFlags(s[n as int]) }, n + 1))
        } else {
            None
        },
        None => None,
    }
}

/// Encoding of a run of entries, one after the other.
pub open spec fn entries_bytes(es: Seq<MaximalUnitigIndex>) -> Seq<u8>
    decreases es.len(),
{
    if es.len() == 0 {
        Seq::empty()
    } else {
        entries_bytes(es.drop_last()) + entry_bytes(es.last())
    }
}

/// What reading `k` entries at the start of `s` yields, with the bytes taken.
pub open spec fn entries_read(s: Seq<u8>, k: nat) -> Option<(Seq<MaximalUnitigIndex>, nat)>
    decreases k,
{
    if k == 0 {
        Some((Seq::empty(), 0))
    } else {
        match entries_read(s, (k - 1) as nat) {
            Some((es, m)) => match entry_read(s.skip(m as int)) {
                Some((e, n)) => Some((es.push(e), m + n)),
                None => None,
            },
            None => None,
        }
    }
}

/// Encoding of a link record: its id, the number of entries, then the entries.
pub open spec fn link_bytes(index: u64, es: Seq<MaximalUnitigIndex>) -> Seq<u8> {
    varint_bytes(index as nat) + varint_bytes(es.len()) + entries_bytes(es)
}

/// What reading one link record at the start of `s` yields: its id, its
/// entries and the bytes taken.
pub open spec fn link_read(s: Seq<u8>) -> Option<(u64, Seq<MaximalUnitigIndex>, nat)> {
    match varint_read(s) {
        Some((index, a)) => match varint_read(s.skip(a as int)) {
            Some((k, b)) => match entries_read(s.skip((a + b) as int), k as nat) {
                Some((es, c)) => Some((index, es, a + b + c)),
                None => None,
            },
            None => None,
        },
        None => None,
    }
}

proof fn lemma_entry_round_trip(e: MaximalUnitigIndex, rest: Seq<u8>)
    ensures
        entry_read(entry_bytes(e) + rest) == Some((e, entry_bytes(e).len())),
{
    let v = varint_bytes(e.index as nat);
    let s = entry_bytes(e) + rest;
    assert(s =~= v + (seq![e.flags.0] + rest));
    crate::varint::lemma_varint_read_round_trip(e.index, seq![e.flags.0] + rest);
    assert(s[v.len() as int] == e.flags.0);
}

proof fn lemma_entries_round_trip(es: Seq<MaximalUnitigIndex>, rest: Seq<u8>)
    ensures
        entries_read(entries_bytes(es) + rest, es.len()) == Some((es, entries_bytes(es).len())),
    decreases es.len(),
{
    if es.len() > 0 {
        let init = es.drop_last();
        let tail = entry_bytes(es.last()) + rest;
        let s = entries_bytes(es) + rest;
        assert(s =~= entries_bytes(init) + tail);
        lemma_entries_round_trip(init, tail);
        assert(s.skip(entries_bytes(init).len() as int) =~= tail);
        lemma_entry_round_trip(es.last(), rest);
        assert(init.push(es.last()) =~= es);
    }
}

/// A link record reads back as written, whatever follows it.
pub proof fn lemma_link_round_trip(index: u64, es: Seq<MaximalUnitigIndex>, rest: Seq<u8>)
    requires
        es.len() <= u64::MAX,
    ensures
        link_read(link_bytes(index, es) + rest) == Some((index, es, link_bytes(index, es).len())),
{
    let a = varint_bytes(index as nat);
    let b = varint_bytes(es.len());
    let c = entries_bytes(es);
    let s = link_bytes(index, es) + rest;
    assert(s =~= a + (b + c + rest));
    crate::varint::lemma_varint_read_round_trip(index, b + c + rest);
    assert(s.skip(a.len() as int) =~= b + (c + rest));
    crate::varint::lemma_varint_read_round_trip(es.len() as u64, c + rest);
    assert(s.skip((a.len() + b.len()) as int) =~= c + rest);
    lemma_entries_round_trip(es, rest);
}

proof fn lemma_entries_read_fails(s: Seq<u8>, i: nat, k: nat)
    requires
        i <= k,
        entries_read(s, i) is None,
    ensures
        entries_read(s, k) is None,
    decreases k,
{
    if k > i {
        lemma_entries_read_fails(s, i, (k - 1) as nat);
    }
}

/// One end of a chain fragment with the neighbours it links to; the
/// neighbours are a range of a backing vector shared by a batch of records.
#[derive(Clone, Copy, Debug)]
pub struct MaximalUnitigLink {
    pub index: u64,
    pub entries: VecSlice,
}

impl MaximalUnitigLink {
    pub fn new(index: u64, entries: VecSlice) -> (r: Self)
        ensures
            r.index == index,
            r.entries == entries,
    {
        Self { index, entries }
    }

    pub fn index(&self) -> (r: u64)
        ensures
            r == self.index,
    {
        self.index
    }

    /// Appends the encoded record to `out`, its entries taken from `extra_data`.
    pub fn write_to(&self, out: &mut Vec<u8>, extra_data: &Vec<MaximalUnitigIndex>)
        requires
            self.entries.fits(extra_data@),
        ensures
            final(out)@ == old(out)@ + link_bytes(self.index, self.entries.of(extra_data@)),
    {
        let entries = self.entries.get_slice(extra_data);
        let ghost es = entries@;
        let ghost start = old(out)@;
        encode_varint(out, self.index);
        encode_varint(out, entries.len() as u64);
        let mut i: usize = 0;
        while i < entries.len()
            invariant
                es == entries@,
                i <= es.len(),
                out@ == start + varint_bytes(self.index as nat) + varint_bytes(es.len())
                    + entries_bytes(es.take(i as int)),
            decreases es.len() - i,
        {
            let e = entries[i];
            e.encode_extended(out);
            proof {
                assert(es.take(i + 1).drop_last() =~= es.take(i as int));
            }
            i += 1;
        }
        proof {
            assert(es.take(i as int) =~= es);
        }
    }

    /// Reads one record at `pos`, pushing its entries onto `read_buffer`:
    /// the record, whose range covers them, and the number of bytes taken.
    pub fn read_from(buf: &[u8], pos: usize, read_buffer: &mut Vec<MaximalUnitigIndex>) -> (r:
        Option<(MaximalUnitigLink, usize)>)
        requires
            pos <= buf@.len(),
        ensures
            r is None <==> link_read(buf@.skip(pos as int)) is None,
            r matches Some((link, n)) ==> {
                let (index, es, m) = link_read(buf@.skip(pos as int))->Some_0;
                &&& n == m
                &&& pos + n <= buf@.len()
                &&& link.index == index
                &&& link.entries == VecSlice { pos: old(read_buffer)@.len() as usize, len: es.len() as usize }
                &&& final(read_buffer)@ == old(read_buffer)@ + es
                &&& link.entries.of(final(read_buffer)@) == es
            },
    {
        let ghost s = buf@.skip(pos as int);
        let buf_len = buf.len();
        let (index, a) = match decode_varint(buf, pos) {
            Some(p) => p,
            None => return None,
        };
        proof {
            assert(buf@.skip(pos + a) =~= s.skip(a as int));
        }
        let (len, b) = match decode_varint(buf, pos + a) {
            Some(p) => p,
            None => return None,
        };
        proof {
            assert(buf@.skip(pos + a + b) =~= s.skip(a + b));
        }
        let start = read_buffer.len();
        let mut cur: usize = pos + a + b;
        let mut i: u64 = 0;
        while i < len
            invariant
                pos + a + b <= cur <= buf@.len(),
                buf_len == buf@.len(),
                i <= len,
                s == buf@.skip(pos as int),
                start == old(read_buffer)@.len(),
                varint_read(s) == Some((index, a as nat)),
                varint_read(s.skip(a as int)) == Some((len, b as nat)),
                entries_read(s.skip(a + b), i as nat) == Some((
                    read_buffer@.skip(start as int),
                    (cur - pos - a - b) as nat,
                )),
                read_buffer@.take(start as int) == old(read_buffer)@,
                start <= read_buffer@.len(),
            decreases len - i,
        {
            let ghost t = s.skip(a + b);
            proof {
                assert(buf@.skip(cur as int) =~= t.skip(cur - pos - a - b));
            }
            match MaximalUnitigIndex::decode_extended(buf, cur) {
                Some((e, n)) => {
                    let ghost prev = read_buffer@;
                    read_buffer.push(e);
                    proof {
                        assert(read_buffer@.skip(start as int) =~= prev.skip(start as int).push(e));
                        assert(read_buffer@.take(start as int) =~= prev.take(start as int));
                    }
                    cur = cur + n;
                    i = i + 1;
                },
                None => {
                    proof {
                        lemma_entries_read_fails(t, (i + 1) as nat, len as nat);
                    }
                    return None;
                },
            }
        }
        let total = read_buffer.len();
        proof {
            assert(read_buffer@ =~= old(read_buffer)@ + read_buffer@.skip(start as int));
            assert(VecSlice { pos: start, len: (total - start) as usize }.of(read_buffer@) =~= read_buffer@.skip(start as int));
        }
        Some((MaximalUnitigLink::new(index, VecSlice::new(start, total - start)), cur - pos))
    }

    pub fn get_size(&self) -> (r: usize)
        requires
            16 + self.entries.len * (VARINT_MAX_SIZE + 1) <= usize::MAX,
        ensures
            r == 16 + self.entries.len * (VARINT_MAX_SIZE + 1),
    {
        16 + self.entries.len() * (VARINT_MAX_SIZE + 1)
    }
}

/// Decimal digits of `v`, most significant first, as ASCII.
pub open spec fn decimal_bytes(v: nat) -> Seq<u8>
    decreases v,
{
    if v < 10 {
        seq![(48 + v) as u8]
    } else {
        decimal_bytes(v / 10).push((48 + v % 10) as u8)
    }
}

pub fn write_decimal(out: &mut Vec<u8>, v: u64)
    ensures
        final(out)@ == old(out)@ + decimal_bytes(v as nat),
    decreases v,
{
    if v >= 10 {
        write_decimal(out, v / 10);
    }
    out.push((48 + v % 10) as u8);
    proof {
        if v < 10 {
            assert(decimal_bytes(v as nat) =~= seq![(48 + v) as u8]);
        }
    }
}

/// `+` for a forward read, `-` for a reverse-complemented one.
pub open spec fn sign_byte(flip: bool) -> u8 {
    if flip {
        45u8
    } else {
        43u8
    }
}

/// The text ` L:<s>:<id>:<o>` for one entry, where `<s>` and `<o>` are the
/// signs of its two flip bits.
pub open spec fn ident_entry_bytes(e: MaximalUnitigIndex) -> Seq<u8> {
    seq![32u8, 76u8, 58u8, sign_byte(e.flags.spec_flip_current()), 58u8] + decimal_bytes(
        e.index as nat,
    ) + seq![58u8, sign_byte(e.flags.spec_flip_other())]
}

pub open spec fn ident_bytes(es: Seq<MaximalUnitigIndex>) -> Seq<u8>
    decreases es.len(),
{
    if es.len() == 0 {
        Seq::empty()
    } else {
        ident_bytes(es.drop_last()) + ident_entry_bytes(es.last())
    }
}

fn write_ident_entries(out: &mut Vec<u8>, entries: &[MaximalUnitigIndex])
    ensures
        final(out)@ == old(out)@ + ident_bytes(entries@),
{
    let ghost start = old(out)@;
    let mut i: usize = 0;
    while i < entries.len()
        invariant
            i <= entries@.len(),
            out@ == start + ident_bytes(entries@.take(i as int)),
        decreases entries@.len() - i,
    {
        let e = entries[i];
        let ghost before = out@;
        out.push(32u8);
        out.push(76u8);
        out.push(58u8);
        out.push(if e.flags.flip_current() { 45u8 } else { 43u8 });
        out.push(58u8);
        write_decimal(out, e.index);
        out.push(58u8);
        out.push(if e.flags.flip_other() { 45u8 } else { 43u8 });
        proof {
            assert(entries@.take(i + 1).drop_last() =~= entries@.take(i as int));
            assert(out@ =~= before + ident_entry_bytes(e));
        }
        i += 1;
    }
    proof {
        assert(entries@.take(i as int) =~= entries@);
    }
}

/// Copies the items of `range` in `src` to the end of `dst`, and gives the
/// range that they take there.
fn copy_range(range: VecSlice, src: &Vec<MaximalUnitigIndex>, dst: &mut Vec<MaximalUnitigIndex>) -> (r: VecSlice)
    requires
        range.fits(src@),
    ensures
        final(dst)@ == old(dst)@ + range.of(src@),
        r == (VecSlice { pos: old(dst)@.len() as usize, len: range.len }),
        r.of(final(dst)@) == range.of(src@),
{
    let entries = range.get_slice(src);
    let start = dst.len();
    let mut i: usize = 0;
    while i < entries.len()
        invariant
            i <= entries@.len(),
            entries@ == range.of(src@),
            start == old(dst)@.len(),
            dst@ == old(dst)@ + entries@.take(i as int),
        decreases entries@.len() - i,
    {
        dst.push(entries[i]);
        proof {
            assert(entries@.take(i + 1) =~= entries@.take(i as int).push(entries@[i as int]));
        }
        i += 1;
    }
    let _n = dst.len();
    proof {
        assert(entries@.take(i as int) =~= entries@);
        assert(VecSlice { pos: start, len: range.len }.of(dst@) =~= entries@);
    }
    VecSlice::new(start, range.len())
}

/// The links at the two ends of a chain fragment.
#[derive(Clone, Copy, Debug)]
pub struct DoubleMaximalUnitigLinks(pub [MaximalUnitigLink; 2]);

impl DoubleMaximalUnitigLinks {
    pub open spec fn fits(&self, backing: Seq<MaximalUnitigIndex>) -> bool {
        self.0@[0].entries.fits(backing) && self.0@[1].entries.fits(backing)
    }

    /// Both ends with id 0 and no neighbours.
    pub fn empty() -> (r: Self)
        ensures
            r.0@[0].index == 0 && r.0@[0].entries.len == 0,
            r.0@[1].index == 0 && r.0@[1].entries.len == 0,
    {
        Self([MaximalUnitigLink::new(0, VecSlice::new(0, 0)), MaximalUnitigLink::new(0, VecSlice::new(0, 0))])
    }

    pub fn new_temp_buffer() -> (r: Vec<MaximalUnitigIndex>)
        ensures
            r@.len() == 0,
    {
        Vec::new()
    }

    pub fn clear_temp_buffer(buffer: &mut Vec<MaximalUnitigIndex>)
        ensures
            final(buffer)@.len() == 0,
    {
        buffer.clear();
    }

    pub fn copy_temp_buffer(dest: &mut Vec<MaximalUnitigIndex>, src: &Vec<MaximalUnitigIndex>)
        ensures
            final(dest)@ == src@,
    {
        dest.clear();
        let _r = copy_range(VecSlice::new(0, src.len()), src, dest);
        proof {
            assert(VecSlice { pos: 0, len: src@.len() as usize }.of(src@) =~= src@);
            assert(Seq::<MaximalUnitigIndex>::empty() + src@ =~= src@);
        }
    }

    /// Moves the neighbours of `extra` from `src` to the end of `dst`, first
    /// end first, and gives the links with their ranges in `dst`.
    pub fn copy_extra_from(extra: Self, src: &Vec<MaximalUnitigIndex>, dst: &mut Vec<MaximalUnitigIndex>) -> (r: Self)
        requires
            extra.fits(src@),
        ensures
            final(dst)@ == old(dst)@ + extra.0@[0].entries.of(src@) + extra.0@[1].entries.of(src@),
            r.fits(final(dst)@),
            r.0@[0].index == extra.0@[0].index,
            r.0@[1].index == extra.0@[1].index,
            r.0@[0].entries.of(final(dst)@) == extra.0@[0].entries.of(src@),
            r.0@[1].entries.of(final(dst)@) == extra.0@[1].entries.of(src@),
    {
        let first = extra.0[0];
        let second = extra.0[1];
        let ghost mid_start = old(dst)@;
        let a = copy_range(first.entries, src, dst);
        let ghost mid = dst@;
        let b = copy_range(second.entries, src, dst);
        proof {
            assert(a.of(dst@) =~= a.of(mid));
        }
        Self([MaximalUnitigLink::new(first.index, a), MaximalUnitigLink::new(second.index, b)])
    }

    /// Appends the text of every neighbour of both ends, in order, as
    /// ` L:<s>:<id>:<o>` items.
    pub fn write_as_ident(&self, out: &mut Vec<u8>, extra_buffer: &Vec<MaximalUnitigIndex>)
        requires
            self.fits(extra_buffer@),
        ensures
            final(out)@ == old(out)@ + ident_bytes(self.0@[0].entries.of(extra_buffer@))
                + ident_bytes(self.0@[1].entries.of(extra_buffer@)),
    {
        let first = self.0[0].entries.get_slice(extra_buffer);
        write_ident_entries(out, first);
        let second = self.0[1].entries.get_slice(extra_buffer);
        write_ident_entries(out, second);
    }
}

/// A decoded link record: its id and its entries.
pub type LinkRecord = (u64, Seq<MaximalUnitigIndex>);

/// Records written one after the other.
pub open spec fn records_bytes(rs: Seq<LinkRecord>) -> Seq<u8>
    decreases rs.len(),
{
    if rs.len() == 0 {
        Seq::empty()
    } else {
        link_bytes(rs[0].0, rs[0].1) + records_bytes(rs.drop_first())
    }
}

/// What replaying a whole buffer yields: every record up to its end, or
/// `None` where a record is malformed or cut short.
pub open spec fn records_read(s: Seq<u8>) -> Option<Seq<LinkRecord>>
    decreases s.len(),
{
    if s.len() == 0 {
        Some(Seq::empty())
    } else {
        match link_read(s) {
            Some((index, es, n)) => if 0 < n <= s.len() {
                match records_read(s.skip(n as int)) {
                    Some(rest) => Some(seq![(index, es)] + rest),
                    None => None,
                }
            } else {
                None
            },
            None => None,
        }
    }
}

/// Records replayed from a buffer come back as they were written, in order.
pub proof fn lemma_records_round_trip(rs: Seq<LinkRecord>)
    requires
        forall|i: int| 0 <= i < rs.len() ==> (#[trigger] rs[i]).1.len() <= u64::MAX,
    ensures
        records_read(records_bytes(rs)) == Some(rs),
    decreases rs.len(),
{
    if rs.len() > 0 {
        let first = link_bytes(rs[0].0, rs[0].1);
        let rest = records_bytes(rs.drop_first());
        assert(rs[0].1.len() <= u64::MAX);
        lemma_link_round_trip(rs[0].0, rs[0].1, rest);
        crate::varint::lemma_varint_len_u64(rs[0].0);
        let s = first + rest;
        assert(s.skip(first.len() as int) =~= rest);
        assert forall|i: int| 0 <= i < rs.drop_first().len() implies (#[trigger] rs.drop_first()[i]).1.len() <= u64::MAX by {
            assert(rs.drop_first()[i] == rs[i + 1]);
        }
        lemma_records_round_trip(rs.drop_first());
        assert(seq![(rs[0].0, rs[0].1)] + rs.drop_first() =~= rs);
    }
}

/// The records that `links` describe, their entries taken from `backing`.
pub open spec fn records_of(links: Seq<MaximalUnitigLink>, backing: Seq<MaximalUnitigIndex>) -> Seq<LinkRecord> {
    links.map_values(|l: MaximalUnitigLink| (l.index, l.entries.of(backing)))
}

pub open spec fn prepend(done: Seq<LinkRecord>, rest: Option<Seq<LinkRecord>>) -> Option<Seq<LinkRecord>> {
    match rest {
        Some(r) => Some(done + r),
        None => None,
    }
}

/// Replays every record of `buf`, their entries gathered in one backing
/// vector that the records' ranges index.
pub fn read_links(buf: &[u8]) -> (r: Option<(Vec<MaximalUnitigLink>, Vec<MaximalUnitigIndex>)>)
    ensures
        r is None <==> records_read(buf@) is None,
        r matches Some((links, backing)) ==> records_read(buf@) == Some(records_of(links@, backing@))
            && forall|i: int| 0 <= i < links@.len() ==> (#[trigger] links@[i]).entries.fits(backing@),
{
    let mut links: Vec<MaximalUnitigLink> = Vec::new();
    let mut backing: Vec<MaximalUnitigIndex> = Vec::new();
    let mut pos: usize = 0;
    proof {
        assert(buf@.skip(0) =~= buf@);
        assert(records_of(links@, backing@) =~= Seq::<LinkRecord>::empty());
        match records_read(buf@) {
            Some(x) => { assert(Seq::<LinkRecord>::empty() + x =~= x); },
            None => {},
        }
    }
    while pos < buf.len()
        invariant
            pos <= buf@.len(),
            records_read(buf@) == prepend(records_of(links@, backing@), records_read(buf@.skip(pos as int))),
            forall|i: int| 0 <= i < links@.len() ==> (#[trigger] links@[i]).entries.fits(backing@),
        decreases buf@.len() - pos,
    {
        let ghost s = buf@.skip(pos as int);
        let ghost old_backing = backing@;
        let ghost done = records_of(links@, backing@);
        match MaximalUnitigLink::read_from(buf, pos, &mut backing) {
            Some((link, n)) => {
                proof {
                    assert(s.len() > 0);
                    assert(buf@.skip(pos + n) =~= s.skip(n as int));
                    assert forall|i: int| 0 <= i < links@.len() implies (#[trigger] links@[i]).entries.of(backing@) == links@[i].entries.of(old_backing) by {
                        assert(links@[i].entries.fits(old_backing));
                        assert(links@[i].entries.of(backing@) =~= links@[i].entries.of(old_backing));
                    }
                }
                links.push(link);
                proof {
                    let (index, es, m) = link_read(s)->Some_0;
                    assert(records_of(links@, backing@) =~= done.push((index, es)));
                    match records_read(s.skip(n as int)) {
                        Some(x) => {
                            assert(done.push((index, es)) + x =~= done + (seq![(index, es)] + x));
                        },
                        None => {},
                    }
                    assert forall|i: int| 0 <= i < links@.len() implies (#[trigger] links@[i]).entries.fits(backing@) by {
                        if i < links@.len() - 1 {
                            assert(links@[i].entries.fits(old_backing));
                        }
                    }
                }
                pos = pos + n;
            },
            None => {
                return None;
            },
        }
    }
    proof {
        assert(buf@.skip(pos as int) =~= Seq::<u8>::empty());
        assert(records_of(links@, backing@) + Seq::<LinkRecord>::empty() =~= records_of(links@, backing@));
    }
    Some((links, backing))
}

proof fn lemma_records_bytes_push(rs: Seq<LinkRecord>, x: LinkRecord)
    ensures
        records_bytes(rs.push(x)) == records_bytes(rs) + link_bytes(x.0, x.1),
    decreases rs.len(),
{
    if rs.len() == 0 {
        assert(rs.push(x).drop_first() =~= Seq::<LinkRecord>::empty());
        assert(rs.push(x)[0] == x);
        assert(records_bytes(Seq::<LinkRecord>::empty()) =~= Seq::<u8>::empty());
        assert(records_bytes(rs.push(x)) =~= link_bytes(x.0, x.1) + Seq::<u8>::empty());
        assert(records_bytes(rs) =~= Seq::<u8>::empty());
    } else {
        assert(rs.push(x).drop_first() =~= rs.drop_first().push(x));
        assert(rs.push(x)[0] == rs[0]);
        lemma_records_bytes_push(rs.drop_first(), x);
        assert(records_bytes(rs.push(x)) =~= records_bytes(rs) + link_bytes(x.0, x.1));
    }
}

/// Writes every record of `links`, in order, their entries taken from `backing`.
pub fn write_links(links: &Vec<MaximalUnitigLink>, backing: &Vec<MaximalUnitigIndex>) -> (r: Vec<u8>)
    requires
        forall|i: int| 0 <= i < links@.len() ==> (#[trigger] links@[i]).entries.fits(backing@),
    ensures
        r@ == records_bytes(records_of(links@, backing@)),
{
    let ghost rs = records_of(links@, backing@);
    let mut out: Vec<u8> = Vec::new();
    let mut i: usize = 0;
    proof {
        assert(rs.take(0) =~= Seq::<LinkRecord>::empty());
    }
    while i < links.len()
        invariant
            i <= links@.len(),
            rs == records_of(links@, backing@),
            forall|j: int| 0 <= j < links@.len() ==> (#[trigger] links@[j]).entries.fits(backing@),
            out@ == records_bytes(rs.take(i as int)),
        decreases links@.len() - i,
    {
        let link = &links[i];
        link.write_to(&mut out, backing);
        proof {
            assert(rs.take(i + 1) =~= rs.take(i as int).push(rs[i as int]));
            lemma_records_bytes_push(rs.take(i as int), rs[i as int]);
        }
        i += 1;
    }
    proof {
        assert(rs.take(i as int) =~= rs);
    }
    out
}

} // verus!
