use assembler::maximal_unitig_index::{
    read_links, write_links, DoubleMaximalUnitigLinks, MaximalUnitigFlags, MaximalUnitigIndex,
    MaximalUnitigLink,
};
use assembler::varint::{decode_varint, encode_varint, VARINT_MAX_SIZE};
use assembler::vec_slice::VecSlice;

#[test]
fn varint_encodes_seven_bits_at_a_time() {
    let mut out = Vec::new();
    encode_varint(&mut out, 300);
    assert_eq!(out, vec![0xAC, 0x02]);
    let mut small = Vec::new();
    encode_varint(&mut small, 5);
    assert_eq!(small, vec![5]);
}

#[test]
fn varint_round_trips_extremes() {
    for v in [0u64, 1, 127, 128, 16383, 16384, u64::MAX] {
        let mut out = vec![9u8];
        encode_varint(&mut out, v);
        assert!(out.len() - 1 <= VARINT_MAX_SIZE);
        assert_eq!(decode_varint(&out, 1), Some((v, out.len() - 1)));
    }
}

#[test]
fn varint_rejects_truncated_and_oversized() {
    assert_eq!(decode_varint(&[0x80, 0x80], 0), None);
    assert_eq!(decode_varint(&[], 0), None);
    let too_big = vec![0xFF; 9].into_iter().chain([0x02]).collect::<Vec<u8>>();
    assert_eq!(decode_varint(&too_big, 0), None);
    let eleven = vec![0x80; 10].into_iter().chain([0x00]).collect::<Vec<u8>>();
    assert_eq!(decode_varint(&eleven, 0), None);
}

#[test]
fn flags_keep_both_directions() {
    for (c, o) in [(false, false), (true, false), (false, true), (true, true)] {
        let f = MaximalUnitigFlags::new_direction(c, o);
        assert_eq!(f.flip_current(), c);
        assert_eq!(f.flip_other(), o);
    }
    assert_eq!(MaximalUnitigFlags::new_direction(true, true).0, 3);
}

#[test]
fn index_equality_ignores_flags() {
    let a = MaximalUnitigIndex::new(7, MaximalUnitigFlags::new_direction(true, false));
    let b = MaximalUnitigIndex::new(7, MaximalUnitigFlags::new_direction(false, true));
    let c = MaximalUnitigIndex::new(8, MaximalUnitigFlags::new_direction(true, false));
    assert!(a == b);
    assert!(a != c);
    assert_eq!(a.index(), 7);
}

#[test]
fn index_encoding_round_trips() {
    let e = MaximalUnitigIndex::new(1000, MaximalUnitigFlags(2));
    let mut out = Vec::new();
    e.encode_extended(&mut out);
    assert_eq!(out, vec![0xE8, 0x07, 2]);
    let (d, n) = MaximalUnitigIndex::decode_extended(&out, 0).unwrap();
    assert_eq!(n, 3);
    assert_eq!(d.index(), 1000);
    assert_eq!(d.flags, MaximalUnitigFlags(2));
    assert!(MaximalUnitigIndex::decode_extended(&out[..2], 0).is_none());
}

#[test]
fn link_record_round_trips() {
    let backing = vec![
        MaximalUnitigIndex::new(3, MaximalUnitigFlags(1)),
        MaximalUnitigIndex::new(200, MaximalUnitigFlags(2)),
    ];
    let link = MaximalUnitigLink::new(42, VecSlice::new(0, 2));
    let mut out = Vec::new();
    link.write_to(&mut out, &backing);
    assert_eq!(out, vec![42, 2, 3, 1, 0xC8, 0x01, 2]);
    let mut rb = vec![MaximalUnitigIndex::new(9, MaximalUnitigFlags(0))];
    let (l, n) = MaximalUnitigLink::read_from(&out, 0, &mut rb).unwrap();
    assert_eq!(n, out.len());
    assert_eq!(l.index(), 42);
    assert_eq!(l.entries, VecSlice::new(1, 2));
    assert_eq!(rb.len(), 3);
    assert_eq!(rb[2].index(), 200);
    assert_eq!(rb[2].flags, MaximalUnitigFlags(2));
    assert!(MaximalUnitigLink::read_from(&out[..5], 0, &mut rb).is_none());
}

#[test]
fn many_records_replay_in_order() {
    let backing = vec![
        MaximalUnitigIndex::new(1, MaximalUnitigFlags(0)),
        MaximalUnitigIndex::new(2, MaximalUnitigFlags(3)),
        MaximalUnitigIndex::new(300, MaximalUnitigFlags(1)),
    ];
    let links = vec![
        MaximalUnitigLink::new(10, VecSlice::new(0, 1)),
        MaximalUnitigLink::new(11, VecSlice::new(0, 0)),
        MaximalUnitigLink::new(12, VecSlice::new(1, 2)),
    ];
    let bytes = write_links(&links, &backing);
    let (read, rb) = read_links(&bytes).unwrap();
    assert_eq!(read.len(), 3);
    for (orig, got) in links.iter().zip(read.iter()) {
        assert_eq!(orig.index(), got.index());
        let a = orig.entries.get_slice(&backing);
        let b = got.entries.get_slice(&rb);
        assert_eq!(a.len(), b.len());
        for (x, y) in a.iter().zip(b.iter()) {
            assert_eq!(x.index(), y.index());
            assert_eq!(x.flags, y.flags);
        }
    }
    assert!(read_links(&bytes[..bytes.len() - 1]).is_none());
    assert_eq!(read_links(&[]).unwrap().0.len(), 0);
}

#[test]
fn ident_lists_both_ends() {
    let backing = vec![
        MaximalUnitigIndex::new(5, MaximalUnitigFlags::new_direction(false, true)),
        MaximalUnitigIndex::new(17, MaximalUnitigFlags::new_direction(true, false)),
    ];
    let links = DoubleMaximalUnitigLinks([
        MaximalUnitigLink::new(0, VecSlice::new(0, 1)),
        MaximalUnitigLink::new(1, VecSlice::new(1, 1)),
    ]);
    let mut out = Vec::new();
    links.write_as_ident(&mut out, &backing);
    assert_eq!(String::from_utf8(out).unwrap(), " L:+:5:- L:-:17:+");
}

#[test]
fn copy_extra_moves_ranges() {
    let src = vec![
        MaximalUnitigIndex::new(1, MaximalUnitigFlags(0)),
        MaximalUnitigIndex::new(2, MaximalUnitigFlags(0)),
        MaximalUnitigIndex::new(3, MaximalUnitigFlags(0)),
    ];
    let extra = DoubleMaximalUnitigLinks([
        MaximalUnitigLink::new(7, VecSlice::new(1, 2)),
        MaximalUnitigLink::new(8, VecSlice::new(0, 1)),
    ]);
    let mut dst = vec![MaximalUnitigIndex::new(99, MaximalUnitigFlags(0))];
    let r = DoubleMaximalUnitigLinks::copy_extra_from(extra, &src, &mut dst);
    let ids: Vec<u64> = dst.iter().map(|e| e.index()).collect();
    assert_eq!(ids, vec![99, 2, 3, 1]);
    assert_eq!(r.0[0].entries, VecSlice::new(1, 2));
    assert_eq!(r.0[1].entries, VecSlice::new(3, 1));
    assert_eq!(r.0[1].index(), 8);
    let mut copy = vec![];
    DoubleMaximalUnitigLinks::copy_temp_buffer(&mut copy, &src);
    assert_eq!(copy.len(), 3);
    DoubleMaximalUnitigLinks::clear_temp_buffer(&mut copy);
    assert!(copy.is_empty());
    let e = DoubleMaximalUnitigLinks::empty();
    assert_eq!(e.0[0].entries.len(), 0);
    assert_eq!(MaximalUnitigIndex::new(1, MaximalUnitigFlags(0)).max_size(), 2 * VARINT_MAX_SIZE);
    assert_eq!(MaximalUnitigLink::new(1, VecSlice::new(0, 2)).get_size(), 16 + 2 * (VARINT_MAX_SIZE + 1));
}
