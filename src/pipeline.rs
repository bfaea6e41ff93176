use crate::maximal_unitig_index::{decimal_bytes, write_decimal};
use vstd::prelude::*;

verus! {

/// The phases of an assembly run, in the order in which they run.
#[derive(Clone, Copy, Debug, PartialEq, Eq, Structural)]
pub enum AssemblerStartingStep {
    MinimizerBucketing,
    KmersMerge,
    HashesSorting,
    LinksCompaction,
    ReorganizeReads,
    BuildUnitigs,
    MaximalUnitigsLinks,
}

pub open spec fn step_rank(s: AssemblerStartingStep) -> nat {
    match s {
        AssemblerStartingStep::MinimizerBucketing => 0,
        AssemblerStartingStep::KmersMerge => 1,
        AssemblerStartingStep::HashesSorting => 2,
        AssemblerStartingStep::LinksCompaction => 3,
        AssemblerStartingStep::ReorganizeReads => 4,
        AssemblerStartingStep::BuildUnitigs => 5,
        AssemblerStartingStep::MaximalUnitigsLinks => 6,
    }
}

impl AssemblerStartingStep {
    /// The position of the phase in the run.
    pub fn rank(&self) -> (r: u8)
        ensures
            r == step_rank(*self),
    {
        match self {
            AssemblerStartingStep::MinimizerBucketing => 0,
            AssemblerStartingStep::KmersMerge => 1,
            AssemblerStartingStep::HashesSorting => 2,
            AssemblerStartingStep::LinksCompaction => 3,
            AssemblerStartingStep::ReorganizeReads => 4,
            AssemblerStartingStep::BuildUnitigs => 5,
            AssemblerStartingStep::MaximalUnitigsLinks => 6,
        }
    }

    /// The phase comes no later than `other`.
    pub fn is_at_most(&self, other: &AssemblerStartingStep) -> (r: bool)
        ensures
            r == (step_rank(*self) <= step_rank(*other)),
    {
        self.rank() <= other.rank()
    }
}

/// What a run started at `step` and stopped after `last_step` does with `phase`.
#[derive(Clone, Copy, Debug, PartialEq, Eq, Structural)]
pub enum PhaseAction {
    /// Run the phase.
    Run,
    /// Take its output from the files that an earlier run left.
    Reuse,
    /// The run ended before this phase.
    Stop,
}

/// A phase runs when the run starts at it or before it; the run ends once the
/// last phase asked for is done.
pub open spec fn spec_phase_action(step: AssemblerStartingStep, last_step: AssemblerStartingStep, phase: AssemblerStartingStep) -> PhaseAction {
    if step_rank(last_step) < step_rank(phase) {
        PhaseAction::Stop
    } else if step_rank(step) <= step_rank(phase) {
        PhaseAction::Run
    } else {
        PhaseAction::Reuse
    }
}

pub fn phase_action(step: AssemblerStartingStep, last_step: AssemblerStartingStep, phase: AssemblerStartingStep) -> (r: PhaseAction)
    ensures
        r == spec_phase_action(step, last_step, phase),
{
    if last_step.rank() < phase.rank() {
        PhaseAction::Stop
    } else if step.is_at_most(&phase) {
        PhaseAction::Run
    } else {
        PhaseAction::Reuse
    }
}

/// What the compaction loop does after a round.
#[derive(Clone, Copy, Debug, PartialEq, Eq, Structural)]
pub enum CompactionStep {
    /// No record is left to resolve: the final maps are complete.
    Finished,
    /// Run another round, with this index.
    NextRound(u64),
    /// The round counter cannot go on.
    RoundLimit,
}

/// Decides, after round `round` left `remaining` records unresolved, whether
/// compaction is done.
pub fn compaction_step(round: u64, remaining: u64) -> (r: CompactionStep)
    ensures
        remaining == 0 <==> r == CompactionStep::Finished,
        remaining != 0 && round < u64::MAX <==> r == CompactionStep::NextRound((round + 1) as u64),
        remaining != 0 && round == u64::MAX <==> r == CompactionStep::RoundLimit,
{
    if remaining == 0 {
        CompactionStep::Finished
    } else if round == u64::MAX {
        CompactionStep::RoundLimit
    } else {
        CompactionStep::NextRound(round + 1)
    }
}

/// How the final sequences are written.
#[derive(Clone, Copy, Debug, PartialEq, Eq, Structural)]
pub enum OutputFormat {
    Plain,
    Lz4,
    Gzip,
}

/// `lz4` and `gz` name compressed output; any other extension, or none,
/// plain text.
pub open spec fn spec_output_format(ext: Option<Seq<u8>>) -> OutputFormat {
    match ext {
        Some(e) => if e == seq![108u8, 122u8, 52u8] {
            OutputFormat::Lz4
        } else if e == seq![103u8, 122u8] {
            OutputFormat::Gzip
        } else {
            OutputFormat::Plain
        },
        None => OutputFormat::Plain,
    }
}

fn bytes_equal(a: &[u8], b: &[u8]) -> (r: bool)
    ensures
        r == (a@ == b@),
{
    if a.len() != b.len() {
        return false;
    }
    let mut i: usize = 0;
    while i < a.len()
        invariant
            a@.len() == b@.len(),
            i <= a@.len(),
            forall|j: int| 0 <= j < i ==> a@[j] == b@[j],
        decreases a@.len() - i,
    {
        if a[i] != b[i] {
            return false;
        }
        i += 1;
    }
    proof {
        assert(a@ =~= b@);
    }
    true
}

pub fn output_format(ext: Option<&[u8]>) -> (r: OutputFormat)
    ensures
        r == spec_output_format(match ext {
            Some(e) => Some(e@),
            None => None,
        }),
{
    match ext {
        Some(e) => {
            let lz4: [u8; 3] = [108u8, 122u8, 52u8];
            let gz: [u8; 2] = [103u8, 122u8];
            proof {
                assert(lz4@ =~= seq![108u8, 122u8, 52u8]);
                assert(gz@ =~= seq![103u8, 122u8]);
            }
            if bytes_equal(e, lz4.as_slice()) {
                OutputFormat::Lz4
            } else if bytes_equal(e, gz.as_slice()) {
                OutputFormat::Gzip
            } else {
                OutputFormat::Plain
            }
        },
        None => OutputFormat::Plain,
    }
}

/// Number of partitions for a given base-2 logarithm, where it fits.
pub fn buckets_count(log: u32) -> (r: Option<u64>)
    ensures
        log < 64 <==> r is Some,
        r matches Some(n) ==> n as nat == vstd::arithmetic::power2::pow2(log as nat),
{
    if log >= 64 {
        return None;
    }
    let mut n: u64 = 1;
    let mut i: u32 = 0;
    proof {
        vstd::arithmetic::power2::lemma2_to64();
    }
    while i < log
        invariant
            i <= log < 64,
            n as nat == vstd::arithmetic::power2::pow2(i as nat),
        decreases log - i,
    {
        proof {
            vstd::arithmetic::power2::lemma_pow2_unfold((i + 1) as nat);
            vstd::arithmetic::power2::lemma_pow2_strictly_increases((i + 1) as nat, 64);
            vstd::arithmetic::power2::lemma2_to64();
        }
        n = n * 2;
        i += 1;
    }
    Some(n)
}

/// The name `<prefix>.<index>`, followed by `.<ext>` where one is given.
pub open spec fn spec_bucket_name(prefix: Seq<u8>, index: nat, ext: Option<Seq<u8>>) -> Seq<u8> {
    prefix + seq![46u8] + decimal_bytes(index) + match ext {
        Some(e) => seq![46u8] + e,
        None => Seq::empty(),
    }
}

fn append_bytes(out: &mut Vec<u8>, s: &[u8])
    ensures
        final(out)@ == old(out)@ + s@,
{
    let ghost start = old(out)@;
    let mut i: usize = 0;
    while i < s.len()
        invariant
            i <= s@.len(),
            out@ == start + s@.take(i as int),
        decreases s@.len() - i,
    {
        out.push(s[i]);
        proof {
            assert(s@.take(i + 1) =~= s@.take(i as int).push(s@[i as int]));
        }
        i += 1;
    }
    proof {
        assert(s@.take(i as int) =~= s@);
    }
}

/// The file name of partition `index` of a bucket set.
pub fn bucket_name(prefix: &[u8], index: u64, ext: Option<&[u8]>) -> (r: Vec<u8>)
    ensures
        r@ == spec_bucket_name(prefix@, index as nat, match ext {
            Some(e) => Some(e@),
            None => None,
        }),
{
    let mut out: Vec<u8> = Vec::new();
    append_bytes(&mut out, prefix);
    out.push(46u8);
    write_decimal(&mut out, index);
    match ext {
        Some(e) => {
            out.push(46u8);
            append_bytes(&mut out, e);
        },
        None => {},
    }
    proof {
        let x = match ext { Some(e) => Some(e@), None => None::<Seq<u8>> };
        match ext {
            Some(e) => {
                assert(out@ =~= spec_bucket_name(prefix@, index as nat, x));
            },
            None => {
                assert(out@ =~= spec_bucket_name(prefix@, index as nat, x));
            },
        }
    }
    out
}

/// The file names of all `count` partitions of a bucket set, by index.
pub fn generate_bucket_names(prefix: &[u8], count: u64, ext: Option<&[u8]>) -> (r: Vec<Vec<u8>>)
    ensures
        r@.len() == count,
        forall|i: int| 0 <= i < count ==> (#[trigger] r@[i])@ == spec_bucket_name(prefix@, i as nat, match ext {
            Some(e) => Some(e@),
            None => None,
        }),
{
    let mut names: Vec<Vec<u8>> = Vec::new();
    let mut i: u64 = 0;
    while i < count
        invariant
            i <= count,
            names@.len() == i,
            forall|j: int| 0 <= j < i ==> (#[trigger] names@[j])@ == spec_bucket_name(prefix@, j as nat, match ext {
                Some(e) => Some(e@),
                None => None,
            }),
        decreases count - i,
    {
        names.push(bucket_name(prefix, i, ext));
        i += 1;
    }
    names
}

/// The files that the merge phase leaves: one of sequences and one of hashes
/// per partition.
pub struct RetType {
    pub sequences: Vec<Vec<u8>>,
    pub hashes: Vec<Vec<u8>>,
}

/// Position of the last `.` of `s`, or -1.
pub open spec fn last_dot(s: Seq<u8>) -> int
    decreases s.len(),
{
    if s.len() == 0 {
        -1
    } else if s.last() == 46u8 {
        s.len() - 1
    } else {
        last_dot(s.drop_last())
    }
}

pub open spec fn all_digits(d: Seq<u8>) -> bool {
    forall|i: int| 0 <= i < d.len() ==> 48 <= #[trigger] d[i] <= 57
}

/// The number that decimal digits stand for.
pub open spec fn digits_value(d: Seq<u8>) -> nat
    decreases d.len(),
{
    if d.len() == 0 {
        0
    } else {
        digits_value(d.drop_last()) * 10 + (d.last() - 48) as nat
    }
}

/// The partition index that a file name ends with: the decimal digits after
/// its last `.`.
pub open spec fn spec_get_bucket_index(name: Seq<u8>) -> Option<u64> {
    let i = last_dot(name);
    let d = name.skip(i + 1);
    if i < 0 || d.len() == 0 || !all_digits(d) || digits_value(d) > u64::MAX {
        None
    } else {
        Some(digits_value(d) as u64)
    }
}

proof fn lemma_decimal(v: nat)
    ensures
        all_digits(decimal_bytes(v)),
        decimal_bytes(v).len() > 0,
        digits_value(decimal_bytes(v)) == v,
    decreases v,
{
    if v >= 10 {
        lemma_decimal(v / 10);
        let d = decimal_bytes(v);
        assert(d.drop_last() == decimal_bytes(v / 10));
        assert(d.last() == (48 + v % 10) as u8);
        assert(((48 + v % 10) as u8) as int == 48 + v % 10);
        assert(v == (v / 10) * 10 + v % 10);
        assert((d.last() - 48) as nat == v % 10);
        assert(digits_value(d) == digits_value(d.drop_last()) * 10 + (d.last() - 48) as nat);
        assert(digits_value(d.drop_last()) == v / 10);
    } else {
        let d = decimal_bytes(v);
        assert(d.drop_last() =~= Seq::<u8>::empty());
        assert(((48 + v) as u8) as int == 48 + v);
        assert(d.last() == (48 + v) as u8);
        assert(digits_value(d) == digits_value(d.drop_last()) * 10 + (d.last() - 48) as nat);
        assert(digits_value(d.drop_last()) == 0);
    }
}

proof fn lemma_last_dot(p: Seq<u8>, d: Seq<u8>)
    requires
        all_digits(d),
    ensures
        last_dot(p.push(46u8) + d) == p.len(),
    decreases d.len(),
{
    if d.len() == 0 {
        assert(p.push(46u8) + d =~= p.push(46u8));
    } else {
        assert((p.push(46u8) + d).drop_last() =~= p.push(46u8) + d.drop_last());
        assert((p.push(46u8) + d).last() == d.last());
        assert(48 <= d[d.len() - 1] <= 57);
        lemma_last_dot(p, d.drop_last());
    }
}

/// The index that a bucket file name was given is read back from it.
pub proof fn lemma_bucket_name_index(prefix: Seq<u8>, index: u64)
    ensures
        spec_get_bucket_index(spec_bucket_name(prefix, index as nat, None)) == Some(index),
{
    let d = decimal_bytes(index as nat);
    lemma_decimal(index as nat);
    let name = spec_bucket_name(prefix, index as nat, None);
    assert(name =~= prefix.push(46u8) + d);
    lemma_last_dot(prefix, d);
    assert(name.skip((prefix.len() + 1) as int) =~= d);
}

/// Helpers shared by the phases.
pub struct Utils {}

impl Utils {
    /// The partition index that a bucket file name ends with, or `None` where
    /// it ends with no index.
    pub fn get_bucket_index(name: &[u8]) -> (r: Option<u64>)
        ensures
            r == spec_get_bucket_index(name@),
    {
        let n = name.len();
        let mut i: usize = n;
        proof {
            assert(name@.take(n as int) =~= name@);
        }
        while i > 0 && name[i - 1] != 46u8
            invariant
                i <= n,
                n == name@.len(),
                last_dot(name@) == last_dot(name@.take(i as int)),
            decreases i,
        {
            proof {
                assert(name@.take(i as int).drop_last() =~= name@.take(i - 1));
            }
            i -= 1;
        }
        if i == 0 {
            proof {
                assert(name@.take(0) =~= Seq::<u8>::empty());
            }
            return None;
        }
        proof {
            assert(last_dot(name@.take(i as int)) == i - 1);
        }
        let ghost d = name@.skip(i as int);
        if i == n {
            return None;
        }
        let mut value: u64 = 0;
        let mut j: usize = i;
        while j < n
            invariant
                1 <= i <= j <= n,
                i < n,
                n == name@.len(),
                last_dot(name@) == i - 1,
                d == name@.skip(i as int),
                all_digits(name@.subrange(i as int, j as int)),
                value == digits_value(name@.subrange(i as int, j as int)),
            decreases n - j,
        {
            let c = name[j];
            let ghost t = name@.subrange(i as int, j + 1);
            proof {
                assert(t.drop_last() =~= name@.subrange(i as int, j as int));
            }
            if c < 48 || c > 57 {
                proof {
                    assert(d[j - i] == c);
                    assert(!(48 <= d[j - i] <= 57));
                    assert(!all_digits(d));
                }
                return None;
            }
            let digit = (c - 48) as u64;
            if value > (u64::MAX - digit) / 10 {
                proof {
                    assert(t.last() == c);
                    assert(digits_value(t) == value * 10 + digit);
                    assert(value * 10 + digit > u64::MAX) by (nonlinear_arith)
                        requires
                            value > (u64::MAX - digit) / 10,
                            digit <= 9,
                    ;
                    assert(t =~= d.take((j + 1 - i) as int));
                    assert(all_digits(t)) by {
                        assert forall|q: int| 0 <= q < t.len() implies 48 <= #[trigger] t[q] <= 57 by {
                            if q < t.len() - 1 {
                                assert(t[q] == name@.subrange(i as int, j as int)[q]);
                            }
                        }
                    }
                    lemma_digits_prefix_le(d, (j + 1 - i) as int);
                }
                return None;
            }
            value = value * 10 + digit;
            j += 1;
        }
        proof {
            assert(name@.subrange(i as int, j as int) =~= d);
        }
        Some(value)
    }
}

proof fn lemma_digits_prefix_le(d: Seq<u8>, k: int)
    requires
        0 <= k <= d.len(),
        all_digits(d.take(k)),
    ensures
        all_digits(d) ==> digits_value(d.take(k)) <= digits_value(d),
    decreases d.len(),
{
    if k < d.len() && all_digits(d) {
        assert(d.drop_last().take(k) =~= d.take(k));
        lemma_digits_prefix_le(d.drop_last(), k);
    } else if k == d.len() {
        assert(d.take(k) =~= d);
    }
}

} // verus!
