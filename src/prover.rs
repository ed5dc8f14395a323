use vstd::prelude::*;

use crate::frame::{io_inputs, links, multiframe_inputs, padded_at, padded_len, Frame, MultiFrame};

verus! {

pub open spec fn is_pow2(n: int) -> bool
    decreases n,
{
    if n <= 0 {
        false
    } else if n == 1 {
        true
    } else {
        n % 2 == 0 && is_pow2(n / 2)
    }
}

/// The least power of two that is at least `n`, searching upward from `p`.
pub open spec fn pow2_from(n: int, p: int) -> int
    decreases (if p < n { n - p } else { 0 }),
{
    if p <= 0 || p >= n {
        p
    } else {
        pow2_from(n, 2 * p)
    }
}

/// The number of proofs the aggregator takes for `n` multi-frames: the least
/// power of two that is at least `n` and at least 2.
pub open spec fn aggregation_size(n: int) -> int {
    pow2_from(n, 2)
}

pub open spec fn ceil_div(a: int, b: int) -> int {
    (a + b - 1) / b
}

proof fn lemma_pow2_from(n: int, p: int)
    requires
        p >= 2,
        is_pow2(p),
    ensures
        is_pow2(pow2_from(n, p)),
        pow2_from(n, p) >= n,
        pow2_from(n, p) >= p,
        pow2_from(n, p) == p || pow2_from(n, p) / 2 < n,
    decreases (if p < n { n - p } else { 0 }),
{
    if p < n {
        assert((2 * p) / 2 == p);
        lemma_pow2_from(n, 2 * p);
    }
}

/// `aggregation_size(n)` is the least power of two that is at least `n` and 2.
pub proof fn lemma_aggregation_size(n: int)
    ensures
        is_pow2(aggregation_size(n)),
        aggregation_size(n) >= n,
        aggregation_size(n) >= 2,
        aggregation_size(n) == 2 || aggregation_size(n) / 2 < n,
{
    assert(is_pow2(1));
    assert(is_pow2(2));
    lemma_pow2_from(n, 2);
}

/// Whether `n` is a power of two.
pub fn is_power_of_two(n: usize) -> (r: bool)
    ensures
        r == is_pow2(n as int),
{
    let mut m = n;
    while m > 1 && m % 2 == 0
        invariant
            m <= n,
            is_pow2(n as int) == is_pow2(m as int),
        decreases m,
    {
        m = m / 2;
    }
    m == 1
}

/// The least power of two that is at least `n` and at least 2.
pub fn aggregation_size_of(n: usize) -> (r: usize)
    requires
        n <= usize::MAX / 2,
    ensures
        r == aggregation_size(n as int),
{
    let mut t: usize = 2;
    assert(is_pow2(1));
    while t < n
        invariant
            t >= 2,
            n <= usize::MAX / 2,
            pow2_from(n as int, t as int) == aggregation_size(n as int),
        decreases (if t < n { n - t } else { 0 }),
    {
        t = t * 2;
    }
    t
}

fn copy_inputs(v: &Vec<u64>) -> (r: Vec<u64>)
    ensures
        r@ == v@,
{
    let mut r: Vec<u64> = Vec::new();
    let mut k: usize = 0;
    while k < v.len()
        invariant
            k <= v@.len(),
            r@ == v@.subrange(0, k as int),
        decreases v@.len() - k,
    {
        r.push(v[k]);
        k += 1;
        assert(r@ =~= v@.subrange(0, k as int));
    }
    assert(v@.subrange(0, v@.len() as int) =~= v@);
    r
}

/// Appends copies of `dummy` until the number of statements is a power of
/// two and at least 2, as the aggregator requires.
pub fn pad_statements(statements: &mut Vec<Vec<u64>>, dummy: &Vec<u64>)
    requires
        old(statements)@.len() <= usize::MAX / 2,
    ensures
        final(statements)@.len() == aggregation_size(old(statements)@.len() as int),
        forall|j: int|
            0 <= j < old(statements)@.len() ==> #[trigger] final(statements)@[j] == old(statements)@[j],
        forall|j: int|
            old(statements)@.len() <= j < final(statements)@.len() ==> #[trigger] final(statements)@[j]@ == dummy@,
{
    let ghost n0 = statements@.len();
    let target = aggregation_size_of(statements.len());
    proof {
        lemma_aggregation_size(n0 as int);
    }
    while statements.len() < target
        invariant
            n0 <= statements@.len() <= target,
            target == aggregation_size(n0 as int),
            forall|j: int| 0 <= j < n0 ==> #[trigger] statements@[j] == old(statements)@[j],
            forall|j: int| n0 <= j < statements@.len() ==> #[trigger] statements@[j]@ == dummy@,
        decreases target - statements@.len(),
    {
        statements.push(copy_inputs(dummy));
    }
}

/// Whether each multi-frame ends where the next begins.
pub fn multiframes_chained(multiframes: &Vec<MultiFrame>) -> (r: bool)
    ensures
        r == forall|j: int| 0 <= j < multiframes@.len() - 1 ==> #[trigger] links(multiframes@, j),
{
    let n = multiframes.len();
    let mut j: usize = 0;
    while j + 1 < n
        invariant
            n == multiframes@.len(),
            j < n || j == 0,
            forall|m: int| 0 <= m < j ==> #[trigger] links(multiframes@, m),
        decreases n - j,
    {
        if !multiframes[j].precedes(&multiframes[j + 1]) {
            assert(!links(multiframes@, j as int));
            return false;
        }
        j += 1;
    }
    true
}

/// The statement of the dummy multi-frame that fills the proof vector.
pub open spec fn dummy_inputs(frames: Seq<Frame>, k: int) -> Seq<u64> {
    let last = padded_at(frames, padded_len(frames.len() as int, k) - 1);
    multiframe_inputs(frames[0].input, last.output, last.output, (last.i + 1) as usize)
}

/// The statement of multi-frame `j` of the chunking in groups of `k`.
pub open spec fn chunk_inputs(frames: Seq<Frame>, k: int, j: int) -> Seq<u64> {
    multiframe_inputs(
        frames[0].input,
        padded_at(frames, j * k).input,
        padded_at(frames, j * k + k - 1).output,
        padded_at(frames, j * k).i,
    )
}

/// The boundary of a proof does not depend on the chunk size: for any two
/// chunk sizes, the first statement's input state is the run's first input
/// and the last real statement's output state is the run's last output.
pub proof fn lemma_boundary_independent_of_chunk_size(frames: Seq<Frame>, k1: int, k2: int)
    requires
        frames.len() > 0,
        k1 > 0,
        k2 > 0,
    ensures
        chunk_inputs(frames, k1, 0).subrange(6, 12) == chunk_inputs(frames, k2, 0).subrange(6, 12),
        chunk_inputs(frames, k1, 0).subrange(6, 12) == io_inputs(frames[0].input),
        chunk_inputs(frames, k1, padded_len(frames.len() as int, k1) / k1 - 1).subrange(12, 18)
            == chunk_inputs(frames, k2, padded_len(frames.len() as int, k2) / k2 - 1).subrange(
            12,
            18,
        ),
        chunk_inputs(frames, k1, padded_len(frames.len() as int, k1) / k1 - 1).subrange(12, 18)
            == io_inputs(frames.last().output),
{
    lemma_last_chunk_output(frames, k1);
    lemma_last_chunk_output(frames, k2);
    lemma_first_chunk_input(frames, k1);
    lemma_first_chunk_input(frames, k2);
}

proof fn lemma_first_chunk_input(frames: Seq<Frame>, k: int)
    requires
        frames.len() > 0,
        k > 0,
    ensures
        chunk_inputs(frames, k, 0).subrange(6, 12) == io_inputs(frames[0].input),
{
    assert(0 * k == 0);
    assert(chunk_inputs(frames, k, 0).subrange(6, 12) =~= io_inputs(frames[0].input));
}

proof fn lemma_last_chunk_output(frames: Seq<Frame>, k: int)
    requires
        frames.len() > 0,
        k > 0,
    ensures
        chunk_inputs(frames, k, padded_len(frames.len() as int, k) / k - 1).subrange(12, 18)
            == io_inputs(frames.last().output),
{
    let n = frames.len() as int;
    let total = padded_len(n, k);
    let j = total / k - 1;
    crate::frame::lemma_padded_len(n, k);
    assert(j * k + k - 1 == total - 1) by (nonlinear_arith)
        requires
            total % k == 0,
            k > 0,
            j == total / k - 1,
    ;
    assert(padded_at(frames, total - 1).output == frames.last().output);
    assert(chunk_inputs(frames, k, j).subrange(12, 18) =~= io_inputs(frames.last().output));
}

/// Plans proofs with a fixed number of frames per circuit. Making,
/// aggregating and verifying the Groth16 proofs is left to the caller: that
/// needs the frame circuit's constraint system, which this library does not hold.
pub struct Groth16Prover {
    chunk_frame_count: usize,
}

impl Groth16Prover {
    pub closed spec fn spec_chunk_frame_count(&self) -> usize {
        self.chunk_frame_count
    }

    pub fn new(chunk_frame_count: usize) -> (r: Groth16Prover)
        requires
            chunk_frame_count > 0,
        ensures
            r.spec_chunk_frame_count() == chunk_frame_count,
    {
        Groth16Prover { chunk_frame_count }
    }

    pub fn chunk_frame_count(&self) -> (r: usize)
        ensures
            r == self.spec_chunk_frame_count(),
    {
        self.chunk_frame_count
    }

    /// How many frames are left over past the last full multi-frame.
    pub fn frame_padding_count(&self, total_frames: usize) -> (r: usize)
        requires
            self.spec_chunk_frame_count() > 0,
        ensures
            r == total_frames % self.spec_chunk_frame_count(),
    {
        total_frames % self.chunk_frame_count
    }

    pub fn needs_frame_padding(&self, total_frames: usize) -> (r: bool)
        requires
            self.spec_chunk_frame_count() > 0,
        ensures
            r == (total_frames % self.spec_chunk_frame_count() != 0),
    {
        self.frame_padding_count(total_frames) != 0
    }

    /// How many dummy multi-frames the aggregator needs on top of `raw`: it
    /// takes a power of two, and at least 2, so the padding fills up to the
    /// least such number rather than being zero.
    pub fn multiframe_padding_count(&self, raw_multiframe_count: usize) -> (r: usize)
        requires
            raw_multiframe_count <= usize::MAX / 2,
        ensures
            r == aggregation_size(raw_multiframe_count as int) - raw_multiframe_count,
    {
        proof {
            lemma_aggregation_size(raw_multiframe_count as int);
        }
        aggregation_size_of(raw_multiframe_count) - raw_multiframe_count
    }

    pub fn needs_multiframe_padding(&self, raw_multiframe_count: usize) -> (r: bool)
        requires
            raw_multiframe_count <= usize::MAX / 2,
        ensures
            r == (aggregation_size(raw_multiframe_count as int) != raw_multiframe_count),
    {
        self.multiframe_padding_count(raw_multiframe_count) != 0
    }

    /// The number of multi-frames proved for a run of `raw_iterations`
    /// steps: the frames (one more than the steps) in groups, then the
    /// dummies the aggregator needs.
    pub fn expected_total_iterations(&self, raw_iterations: usize) -> (r: usize)
        requires
            self.spec_chunk_frame_count() > 0,
            raw_iterations < usize::MAX / 2,
        ensures
            r == aggregation_size(
                ceil_div(raw_iterations + 1, self.spec_chunk_frame_count() as int),
            ),
    {
        let raw_iterations = raw_iterations + 1;
        let cfc = self.chunk_frame_count;
        let full_multiframe_count = raw_iterations / cfc;
        let unfull_multiframe_frame_count = raw_iterations % cfc;
        let raw_multiframe_count = if unfull_multiframe_frame_count != 0 {
            full_multiframe_count + 1
        } else {
            full_multiframe_count
        };
        proof {
            let a = raw_iterations as int;
            let b = cfc as int;
            assert(raw_multiframe_count == (a + b - 1) / b) by (nonlinear_arith)
                requires
                    b > 0,
                    a >= 0,
                    full_multiframe_count == a / b,
                    unfull_multiframe_frame_count == a % b,
                    raw_multiframe_count == if a % b != 0 {
                        a / b + 1
                    } else {
                        a / b
                    },
            ;
            assert(raw_multiframe_count <= a) by (nonlinear_arith)
                requires
                    b > 0,
                    a >= 1,
                    raw_multiframe_count == (a + b - 1) / b,
            ;
        }
        proof {
            lemma_aggregation_size(raw_multiframe_count as int);
        }
        raw_multiframe_count + self.multiframe_padding_count(raw_multiframe_count)
    }

    /// The statements handed to the aggregator for a run of `frames`: the
    /// public inputs of each multi-frame, then those of the dummy multi-frame
    /// until their number is a power of two and at least 2.
    pub fn aggregation_statements(&self, frames: &Vec<Frame>) -> (r: Vec<Vec<u64>>)
        requires
            self.spec_chunk_frame_count() > 0,
            frames@.len() > 0,
            frames@.len() + self.spec_chunk_frame_count() <= usize::MAX / 2,
            frames@.last().i + 2 * self.spec_chunk_frame_count() < usize::MAX,
            frames@.last().output.cont.tag.spec_is_terminal(),
        ensures
            ({
                let k = self.spec_chunk_frame_count() as int;
                let count = padded_len(frames@.len() as int, k) / k;
                &&& r@.len() == aggregation_size(count)
                &&& forall|j: int| 0 <= j < count ==> (#[trigger] r@[j])@ == chunk_inputs(frames@, k, j)
                &&& forall|j: int| count <= j < r@.len() ==> (#[trigger] r@[j])@ == dummy_inputs(frames@, k)
            }),
    {
        let k = self.chunk_frame_count;
        let ghost n = frames@.len() as int;
        let multiframes = MultiFrame::from_frames(k, frames);
        let ghost count = multiframes@.len() as int;
        proof {
            assert(count * k == padded_len(n, k as int));
            assert(count == padded_len(n, k as int) / (k as int)) by (nonlinear_arith)
                requires
                    count * k == padded_len(n, k as int),
                    k > 0,
            ;
            assert(count <= n) by (nonlinear_arith)
                requires
                    count * k == padded_len(n, k as int),
                    k > 0,
                    padded_len(n, k as int) < n + k,
                    n > 0,
            ;
            assert(count >= 1) by (nonlinear_arith)
                requires
                    count * k == padded_len(n, k as int),
                    k > 0,
                    padded_len(n, k as int) >= n,
                    n > 0,
            ;
        }
        let mut statements: Vec<Vec<u64>> = Vec::new();
        let mut j: usize = 0;
        while j < multiframes.len()
            invariant
                j <= multiframes@.len(),
                statements@.len() == j,
                forall|m: int|
                    0 <= m < multiframes@.len() ==> crate::frame::is_chunk(
                        &#[trigger] multiframes@[m],
                        frames@,
                        k as int,
                        m,
                    ),
                forall|m: int| 0 <= m < j ==> (#[trigger] statements@[m])@ == chunk_inputs(frames@, k as int, m),
            decreases multiframes@.len() - j,
        {
            statements.push(multiframes[j].public_inputs());
            j += 1;
        }
        let last_mf = &multiframes[multiframes.len() - 1];
        let last = match &last_mf.frames {
            Some(v) => v[k - 1],
            None => frames[frames.len() - 1],
        };
        proof {
            let c = count - 1;
            assert(crate::frame::is_chunk(&multiframes@[c], frames@, k as int, c));
            assert(c * k + k - 1 == padded_len(n, k as int) - 1) by (nonlinear_arith)
                requires
                    count * k == padded_len(n, k as int),
                    c == count - 1,
            ;
            assert(last == padded_at(frames@, padded_len(n, k as int) - 1));
            crate::frame::lemma_padded_len(n, k as int);
        }
        let dummy = MultiFrame::make_dummy(k, frames[0].input, last);
        let dummy_statement = dummy.public_inputs();
        pad_statements(&mut statements, &dummy_statement);
        statements
    }
}

} // verus!
