use assembler::build_unitigs::{
    assemble_chains, build_chain_map, build_unitigs, place_fragments, AssemblyError, ChainPart,
    FinalUnitigInfo, Fragment, UnitigFlags, UnitigIndex, UnitigLink,
};
use assembler::vec_slice::VecSlice;

fn frag(bucket: u16, index: u64, rc: bool, bases: &str) -> Fragment {
    Fragment {
        key: UnitigIndex::new(bucket, index, rc),
        bases: bases.as_bytes().to_vec(),
    }
}

fn link(entry: u64, forward: bool, rc: bool, pos: usize, len: usize) -> UnitigLink {
    UnitigLink {
        entry,
        flags: UnitigFlags::new_direction(forward, rc),
        entries: VecSlice::new(pos, len),
    }
}

fn text(v: &[u8]) -> String {
    String::from_utf8(v.to_vec()).unwrap()
}

#[test]
fn linear_chain_joins_without_overlaps() {
    let backing = vec![UnitigIndex::new(0, 1, false), UnitigIndex::new(0, 2, false)];
    let links = vec![link(0, true, false, 0, 2)];
    let frags = vec![
        frag(0, 2, false, "GGATTT"),
        frag(0, 0, false, "ACGTAC"),
        frag(0, 1, false, "TACGGA"),
    ];
    let out = build_unitigs(0, &links, &backing, frags, 3).unwrap();
    assert_eq!(out.len(), 1);
    assert_eq!(text(&out[0]), "ACGTACGGATTT");
}

#[test]
fn reverse_flag_reads_second_fragment_reverse_complemented() {
    // the second fragment, read on the other strand, is CGTTA: it shares CG
    let backing = vec![UnitigIndex::new(0, 1, true)];
    let links = vec![link(0, true, false, 0, 1)];
    let frags = vec![frag(0, 0, false, "AACCG"), frag(0, 1, true, "TAACG")];
    let out = build_unitigs(0, &links, &backing, frags, 2).unwrap();
    assert_eq!(text(&out[0]), "AACCGTTA");
}

#[test]
fn backward_chain_reads_fragments_in_reverse() {
    let backing = vec![UnitigIndex::new(0, 1, false)];
    let links = vec![link(0, false, false, 0, 1)];
    let frags = vec![frag(0, 0, false, "GGATTT"), frag(0, 1, false, "ACGGGA")];
    let out = build_unitigs(0, &links, &backing, frags, 3).unwrap();
    assert_eq!(text(&out[0]), "ACGGGATTT");
}

#[test]
fn circular_chain_loses_one_unit() {
    let backing = vec![UnitigIndex::new(0, 1, false), UnitigIndex::new(0, 0, false)];
    let links = vec![link(0, true, false, 0, 2)];
    let frags = vec![frag(0, 0, false, "ACGTAC"), frag(0, 1, false, "TACGGA")];
    let out = build_unitigs(0, &links, &backing, frags, 3).unwrap();
    let naive = "ACGTAC".len() + "GGA".len();
    assert_eq!(out[0].len(), naive - 1);
    assert_eq!(text(&out[0]), "ACGTACGG");
}

#[test]
fn too_short_fragment_drops_only_its_chain() {
    let backing = vec![UnitigIndex::new(0, 1, false)];
    let links = vec![link(0, true, false, 0, 1), link(2, true, false, 0, 0)];
    let frags = vec![
        frag(0, 0, false, "ACGT"),
        frag(0, 1, false, "GT"),
        frag(0, 2, false, "CCCC"),
    ];
    let out = build_unitigs(0, &links, &backing, frags, 2).unwrap();
    assert_eq!(out.len(), 1);
    assert_eq!(text(&out[0]), "CCCC");
}

#[test]
fn duplicate_fragment_in_map_is_an_error() {
    let backing = vec![UnitigIndex::new(0, 1, false)];
    let links = vec![link(0, true, false, 0, 1), link(1, true, false, 0, 0)];
    let r = build_chain_map(0, &links, &backing);
    assert!(matches!(r, Err(AssemblyError::DuplicateKey)));
    let r2 = build_unitigs(0, &links, &backing, vec![], 2);
    assert!(matches!(r2, Err(AssemblyError::DuplicateKey)));
}

#[test]
fn unknown_and_missing_fragments_are_errors() {
    let backing: Vec<UnitigIndex> = vec![];
    let links = vec![link(0, true, false, 0, 0), link(1, true, false, 0, 0)];
    let unknown = build_unitigs(0, &links, &backing, vec![frag(0, 5, false, "A")], 1);
    assert!(matches!(unknown, Err(AssemblyError::UnknownFragment)));
    let missing = build_unitigs(0, &links, &backing, vec![frag(0, 0, false, "A")], 1);
    assert!(matches!(missing, Err(AssemblyError::MissingFragment)));
}

#[test]
fn map_positions_follow_chain_order() {
    let backing = vec![UnitigIndex::new(0, 4, true), UnitigIndex::new(0, 2, false)];
    let links = vec![link(3, true, false, 0, 2), link(9, true, false, 0, 0)];
    let map = build_chain_map(0, &links, &backing).unwrap();
    assert_eq!(map.infos.len(), 4);
    assert!(map.infos[0].is_start);
    assert!(!map.infos[1].is_start);
    assert!(map.infos[1].flags.reverse_complemented);
    assert!(map.infos[3].is_start);
    let parts = place_fragments(
        &map,
        vec![
            frag(0, 9, false, "T"),
            frag(0, 2, false, "GG"),
            frag(0, 3, false, "A"),
            frag(0, 4, true, "C"),
            frag(0, 4, true, "CC"),
        ],
    )
    .unwrap();
    let bases: Vec<String> = parts.iter().map(|p| text(&p.bases)).collect();
    assert_eq!(bases, vec!["A", "CC", "GG", "T"]);
}

#[test]
fn slots_split_at_chain_starts() {
    let start = FinalUnitigInfo {
        is_start: true,
        is_circular: false,
        flags: UnitigFlags::new_direction(true, false),
    };
    let inner = FinalUnitigInfo { is_start: false, ..start };
    let slots = vec![
        ChainPart { bases: b"AAAC".to_vec(), info: start },
        ChainPart { bases: b"ACGG".to_vec(), info: inner },
        ChainPart { bases: b"TTT".to_vec(), info: start },
    ];
    let out = assemble_chains(&slots, 2);
    assert_eq!(out.len(), 2);
    assert_eq!(text(&out[0]), "AAACGG");
    assert_eq!(text(&out[1]), "TTT");
    assert!(assemble_chains(&vec![], 2).is_empty());
}

#[test]
fn four_partitions_end_to_end() {
    // partition 0: A -> B -> C; partition 1: D closing on itself;
    // partition 2: E alone; partition 3: nothing
    let mut outputs: Vec<(Vec<u8>, bool, usize)> = Vec::new();

    let b0 = vec![UnitigIndex::new(0, 1, false), UnitigIndex::new(0, 2, false)];
    let l0 = vec![link(0, true, false, 0, 2)];
    let f0 = vec![
        frag(0, 0, false, "ACGTAC"),
        frag(0, 1, false, "TACGGA"),
        frag(0, 2, false, "GGATTT"),
    ];
    for s in build_unitigs(0, &l0, &b0, f0, 3).unwrap() {
        outputs.push((s, false, 3));
    }

    let b1 = vec![UnitigIndex::new(1, 0, false)];
    let l1 = vec![link(0, true, false, 0, 1)];
    let f1 = vec![frag(1, 0, false, "CATCAT")];
    for s in build_unitigs(1, &l1, &b1, f1, 3).unwrap() {
        outputs.push((s, true, 1));
    }

    let b2: Vec<UnitigIndex> = vec![];
    let l2 = vec![link(0, true, false, 0, 0)];
    let f2 = vec![frag(2, 0, false, "GATTACA")];
    for s in build_unitigs(2, &l2, &b2, f2, 3).unwrap() {
        outputs.push((s, false, 1));
    }

    let empty: Vec<UnitigLink> = vec![];
    assert!(build_unitigs(3, &empty, &vec![], vec![], 3).unwrap().is_empty());

    assert_eq!(outputs.len(), 3);
    let circular: Vec<_> = outputs.iter().filter(|o| o.1).collect();
    let linear: Vec<_> = outputs.iter().filter(|o| !o.1).collect();
    assert_eq!(circular.len(), 1);
    assert_eq!(linear.len(), 2);
    assert_eq!(text(&outputs[0].0), "ACGTACGGATTT");
    assert_eq!(text(&outputs[1].0), "CATCA");
    assert_eq!(outputs[1].0.len(), "CATCAT".len() - 1);
    assert_eq!(text(&outputs[2].0), "GATTACA");
}
