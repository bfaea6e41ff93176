use assembler::pipeline::{
    buckets_count, compaction_step, generate_bucket_names, output_format, phase_action,
    AssemblerStartingStep, CompactionStep, OutputFormat, PhaseAction,
};

#[test]
fn phases_run_from_the_starting_step() {
    assert_eq!(phase_action(AssemblerStartingStep::MinimizerBucketing, AssemblerStartingStep::MaximalUnitigsLinks, AssemblerStartingStep::KmersMerge), PhaseAction::Run);
    assert_eq!(phase_action(AssemblerStartingStep::LinksCompaction, AssemblerStartingStep::MaximalUnitigsLinks, AssemblerStartingStep::KmersMerge), PhaseAction::Reuse);
    assert_eq!(phase_action(AssemblerStartingStep::MinimizerBucketing, AssemblerStartingStep::KmersMerge, AssemblerStartingStep::HashesSorting), PhaseAction::Stop);
    assert_eq!(phase_action(AssemblerStartingStep::BuildUnitigs, AssemblerStartingStep::BuildUnitigs, AssemblerStartingStep::BuildUnitigs), PhaseAction::Run);
    assert!(AssemblerStartingStep::KmersMerge.is_at_most(&AssemblerStartingStep::LinksCompaction));
    assert!(!AssemblerStartingStep::BuildUnitigs.is_at_most(&AssemblerStartingStep::ReorganizeReads));
    assert_eq!(AssemblerStartingStep::MaximalUnitigsLinks.rank(), 6);
}

#[test]
fn compaction_stops_when_nothing_remains() {
    assert_eq!(compaction_step(4, 0), CompactionStep::Finished);
    assert_eq!(compaction_step(4, 17), CompactionStep::NextRound(5));
    assert_eq!(compaction_step(u64::MAX, 1), CompactionStep::RoundLimit);
}

#[test]
fn output_format_follows_extension() {
    assert_eq!(output_format(Some(b"lz4")), OutputFormat::Lz4);
    assert_eq!(output_format(Some(b"gz")), OutputFormat::Gzip);
    assert_eq!(output_format(Some(b"fa")), OutputFormat::Plain);
    assert_eq!(output_format(None), OutputFormat::Plain);
}

#[test]
fn bucket_count_is_a_power_of_two() {
    assert_eq!(buckets_count(0), Some(1));
    assert_eq!(buckets_count(9), Some(512));
    assert_eq!(buckets_count(63), Some(1u64 << 63));
    assert_eq!(buckets_count(64), None);
}

#[test]
fn bucket_names_carry_index_and_extension() {
    let names = generate_bucket_names(b"tmp/links", 3, None);
    let names: Vec<String> = names.into_iter().map(|n| String::from_utf8(n).unwrap()).collect();
    assert_eq!(names, vec!["tmp/links.0", "tmp/links.1", "tmp/links.2"]);
    let with_ext = generate_bucket_names(b"reads_bucket", 11, Some(b"tmp"));
    assert_eq!(String::from_utf8(with_ext[10].clone()).unwrap(), "reads_bucket.10.tmp");
}

#[test]
fn bucket_index_read_from_file_name() {
    assert_eq!(assembler::pipeline::Utils::get_bucket_index(b"tmp/unitigs_map.17"), Some(17));
    assert_eq!(assembler::pipeline::Utils::get_bucket_index(b"tmp/links.0"), Some(0));
    assert_eq!(assembler::pipeline::Utils::get_bucket_index(b"no_dot"), None);
    assert_eq!(assembler::pipeline::Utils::get_bucket_index(b"x."), None);
    assert_eq!(assembler::pipeline::Utils::get_bucket_index(b"x.1a"), None);
    assert_eq!(assembler::pipeline::Utils::get_bucket_index(b"x.99999999999999999999"), None);
    assert_eq!(
        assembler::pipeline::Utils::get_bucket_index(b"x.18446744073709551615"),
        Some(u64::MAX)
    );
    let name = assembler::pipeline::bucket_name(b"a.b/c", 123, None);
    assert_eq!(assembler::pipeline::Utils::get_bucket_index(&name), Some(123));
}
