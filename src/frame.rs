use vstd::prelude::*;

use crate::term::{Pool, Ptr};

verus! {

/// Kinds of continuation.
#[derive(Clone, Copy, PartialEq, Eq, Debug, Structural)]
pub enum ContTag {
    Outermost,
    Call,
    Call2,
    Tail,
    Binop,
    Binop2,
    Relop,
    Relop2,
    If,
    Let,
    LetRec,
    Dummy,
    Terminal,
    Error,
}

impl ContTag {
    /// The fixed integer constant that stands for the tag in public inputs.
    pub open spec fn spec_code(self) -> u64 {
        match self {
            ContTag::Outermost => 0,
            ContTag::Call => 1,
            ContTag::Call2 => 2,
            ContTag::Tail => 3,
            ContTag::Binop => 4,
            ContTag::Binop2 => 5,
            ContTag::Relop => 6,
            ContTag::Relop2 => 7,
            ContTag::If => 8,
            ContTag::Let => 9,
            ContTag::LetRec => 10,
            ContTag::Dummy => 11,
            ContTag::Terminal => 12,
            ContTag::Error => 13,
        }
    }

    pub fn code(&self) -> (r: u64)
        ensures
            r == self.spec_code(),
    {
        match self {
            ContTag::Outermost => 0,
            ContTag::Call => 1,
            ContTag::Call2 => 2,
            ContTag::Tail => 3,
            ContTag::Binop => 4,
            ContTag::Binop2 => 5,
            ContTag::Relop => 6,
            ContTag::Relop2 => 7,
            ContTag::If => 8,
            ContTag::Let => 9,
            ContTag::LetRec => 10,
            ContTag::Dummy => 11,
            ContTag::Terminal => 12,
            ContTag::Error => 13,
        }
    }

    /// `Terminal` and `Error` absorb: only stutter steps follow them.
    pub open spec fn spec_is_terminal(self) -> bool {
        self == ContTag::Terminal || self == ContTag::Error
    }

    pub fn is_terminal(&self) -> (r: bool)
        ensures
            r == self.spec_is_terminal(),
    {
        *self == ContTag::Terminal || *self == ContTag::Error
    }
}

/// An interned continuation: its kind and its slot in the continuation store.
#[derive(Clone, Copy, PartialEq, Eq, Debug, Structural)]
pub struct ContPtr {
    pub tag: ContTag,
    pub idx: usize,
}

/// The observable machine state between two steps.
#[derive(Clone, Copy, PartialEq, Eq, Debug, Structural)]
pub struct IO {
    pub expr: Ptr,
    pub env: Ptr,
    pub cont: ContPtr,
}

/// The six public inputs of one state: tag and digest of each slot. The
/// digest of an expression or continuation is its slot in its store; it
/// stands in for an algebraic hash and identifies terms within one store
/// only, since slots follow the order of interning.
pub open spec fn io_inputs(io: IO) -> Seq<u64> {
    seq![
        io.expr.tag.spec_code(),
        io.expr.idx as u64,
        io.env.tag.spec_code(),
        io.env.idx as u64,
        io.cont.tag.spec_code(),
        io.cont.idx as u64,
    ]
}

impl IO {
    pub fn public_inputs(&self) -> (r: Vec<u64>)
        ensures
            r@ == io_inputs(*self),
    {
        let r: Vec<u64> = vec![
            self.expr.tag.code(),
            self.expr.idx as u64,
            self.env.tag.code(),
            self.env.idx as u64,
            self.cont.tag.code(),
            self.cont.idx as u64,
        ];
        assert(r@ =~= io_inputs(*self));
        r
    }
}

/// One small step: `i` is its zero-based index.
#[derive(Clone, Copy, PartialEq, Eq, Debug, Structural)]
pub struct Frame {
    pub input: IO,
    pub output: IO,
    pub i: usize,
}

/// `g` is the step right after `f`.
pub open spec fn spec_precedes(f: Frame, g: Frame) -> bool {
    f.output == g.input && g.i == f.i + 1
}

/// Frame `k + 1` is the step right after frame `k`.
pub open spec fn precedes_at(frames: Seq<Frame>, k: int) -> bool {
    spec_precedes(frames[k], frames[k + 1])
}

/// Every two neighbouring frames are chained.
pub open spec fn chained(frames: Seq<Frame>) -> bool {
    forall|k: int| 0 <= k < frames.len() - 1 ==> #[trigger] precedes_at(frames, k)
}

impl Frame {
    pub fn precedes(&self, next: &Frame) -> (r: bool)
        ensures
            r == spec_precedes(*self, *next),
    {
        self.output == next.input && self.i < usize::MAX && next.i == self.i + 1
    }
}

/// A padding step: it leaves an absorbing state unchanged.
pub open spec fn spec_is_stutter(f: Frame) -> bool {
    f.input == f.output && f.input.cont.tag.spec_is_terminal()
}

/// The number of frames before the trailing run of stutter steps.
pub open spec fn significant_count(frames: Seq<Frame>) -> nat
    decreases frames.len(),
{
    if frames.len() == 0 {
        0
    } else if spec_is_stutter(frames.last()) {
        significant_count(frames.drop_last())
    } else {
        frames.len()
    }
}

impl Frame {
    /// Whether this step is a stutter step the circuit admits as padding.
    pub fn is_stutter(&self) -> (r: bool)
        ensures
            r == spec_is_stutter(*self),
    {
        self.input == self.output && self.input.cont.tag.is_terminal()
    }

    /// The number of frames of a run, not counting the stutter steps at its end.
    pub fn significant_frame_count(frames: &Vec<Frame>) -> (r: usize)
        ensures
            r == significant_count(frames@),
    {
        let mut n = frames.len();
        assert(frames@.subrange(0, n as int) =~= frames@);
        while n > 0 && frames[n - 1].is_stutter()
            invariant
                n <= frames@.len(),
                significant_count(frames@) == significant_count(frames@.subrange(0, n as int)),
            decreases n,
        {
            assert(frames@.subrange(0, n as int).drop_last() =~= frames@.subrange(0, n - 1));
            n = n - 1;
        }
        proof {
            if n > 0 {
                assert(frames@.subrange(0, n as int).last() == frames@[n - 1]);
            }
        }
        n
    }
}

/// Whether a sequence of frames is chained.
pub fn frames_chained(frames: &Vec<Frame>) -> (r: bool)
    ensures
        r == chained(frames@),
{
    let n = frames.len();
    let mut k: usize = 0;
    while k + 1 < n
        invariant
            n == frames@.len(),
            forall|m: int| 0 <= m < k ==> #[trigger] precedes_at(frames@, m),
            k < n || k == 0,
        decreases frames@.len() - k,
    {
        if !frames[k].precedes(&frames[k + 1]) {
            assert(!precedes_at(frames@, k as int));
            return false;
        }
        k += 1;
    }
    true
}

/// The stutter step `t` places after `last`: it keeps `last`'s output.
pub open spec fn stutter(last: Frame, t: int) -> Frame {
    Frame { input: last.output, output: last.output, i: (last.i + t) as usize }
}

/// Position `idx` of `frames` padded on the right with stutter steps.
pub open spec fn padded_at(frames: Seq<Frame>, idx: int) -> Frame {
    if idx < frames.len() {
        frames[idx]
    } else {
        stutter(frames.last(), idx - frames.len() + 1)
    }
}

/// Padded position `idx + 1` is the step right after padded position `idx`.
pub open spec fn padded_precedes(frames: Seq<Frame>, idx: int) -> bool {
    spec_precedes(padded_at(frames, idx), padded_at(frames, idx + 1))
}

/// How many frames `n` raw frames fill in groups of `k`.
pub open spec fn padded_len(n: int, k: int) -> int {
    if n % k == 0 {
        n
    } else {
        n + (k - n % k)
    }
}

/// A batch of `chunk_size` consecutive frames, proved as one circuit.
pub struct MultiFrame {
    pub initial: IO,
    pub input: IO,
    pub output: IO,
    pub i: usize,
    pub frames: Option<Vec<Frame>>,
    pub chunk_size: usize,
}

/// Multi-frame `j` of the chunking of `frames` in groups of `k`.
pub open spec fn is_chunk(mf: &MultiFrame, frames: Seq<Frame>, k: int, j: int) -> bool {
    &&& mf.chunk_size == k
    &&& mf.initial == frames[0].input
    &&& mf.input == padded_at(frames, j * k).input
    &&& mf.output == padded_at(frames, j * k + k - 1).output
    &&& mf.i == padded_at(frames, j * k).i
    &&& mf.frames matches Some(v) && v@.len() == k && forall|m: int|
        0 <= m < k ==> #[trigger] v@[m] == padded_at(frames, j * k + m)
}

/// Multi-frame `j` ends where multi-frame `j + 1` begins.
pub open spec fn links(multiframes: Seq<MultiFrame>, j: int) -> bool {
    multiframes[j].output == multiframes[j + 1].input
}

/// The public inputs of a multi-frame: initial, input and output states,
/// then the index of its first step.
pub open spec fn multiframe_inputs(initial: IO, input: IO, output: IO, i: usize) -> Seq<u64> {
    io_inputs(initial) + io_inputs(input) + io_inputs(output) + seq![i as u64]
}

fn append_all(dst: &mut Vec<u64>, src: Vec<u64>)
    ensures
        final(dst)@ == old(dst)@ + src@,
{
    let mut k: usize = 0;
    while k < src.len()
        invariant
            k <= src@.len(),
            dst@ == old(dst)@ + src@.subrange(0, k as int),
        decreases src@.len() - k,
    {
        dst.push(src[k]);
        k += 1;
        assert(dst@ =~= old(dst)@ + src@.subrange(0, k as int));
    }
    assert(src@.subrange(0, src@.len() as int) =~= src@);
}

impl MultiFrame {
    /// Number of field elements in the public inputs of one multi-frame.
    pub fn public_input_size() -> (r: usize)
        ensures
            r == 19,
    {
        19
    }

    pub fn public_inputs(&self) -> (r: Vec<u64>)
        ensures
            r@ == multiframe_inputs(self.initial, self.input, self.output, self.i),
            r@.len() == 19,
    {
        let mut r: Vec<u64> = Vec::new();
        append_all(&mut r, self.initial.public_inputs());
        append_all(&mut r, self.input.public_inputs());
        append_all(&mut r, self.output.public_inputs());
        r.push(self.i as u64);
        assert(r@ =~= multiframe_inputs(self.initial, self.input, self.output, self.i));
        r
    }

    /// `self` ends where `next` begins.
    pub fn precedes(&self, next: &MultiFrame) -> (r: bool)
        ensures
            r == (self.output == next.input),
    {
        self.output == next.input
    }

    /// Groups `frames` into multi-frames of `chunk_size` frames each; the last
    /// group is filled up with stutter steps of the last frame's output.
    pub fn from_frames(chunk_size: usize, frames: &Vec<Frame>) -> (r: Vec<MultiFrame>)
        requires
            chunk_size > 0,
            frames@.len() > 0,
            frames@.len() + chunk_size <= usize::MAX,
            frames@.last().i + chunk_size <= usize::MAX,
            frames@.last().output.cont.tag.spec_is_terminal(),
        ensures
            r@.len() * chunk_size == padded_len(frames@.len() as int, chunk_size as int),
            forall|idx: int|
                frames@.len() <= idx < padded_len(frames@.len() as int, chunk_size as int)
                    ==> #[trigger] spec_is_stutter(padded_at(frames@, idx)),
            forall|j: int|
                0 <= j < r@.len() ==> is_chunk(
                    &#[trigger] r@[j],
                    frames@,
                    chunk_size as int,
                    j,
                ),
    {
        let n = frames.len();
        let k = chunk_size;
        let last = frames[n - 1];
        let mut result: Vec<MultiFrame> = Vec::new();
        let mut start: usize = 0;
        let ghost total = padded_len(n as int, k as int);
        proof {
            lemma_padded_len(n as int, k as int);
            assert(result@.len() * k == 0) by (nonlinear_arith)
                requires
                    result@.len() == 0,
            ;
        }
        while start < n
            invariant
                n == frames@.len(),
                k == chunk_size,
                k > 0,
                last == frames@.last(),
                n + k <= usize::MAX,
                last.i + k <= usize::MAX,
                total == padded_len(n as int, k as int),
                total % (k as int) == 0,
                n <= total < n + k,
                start % k == 0,
                start <= total,
                start < n || start == total,
                result@.len() * k == start,
                forall|j: int|
                    0 <= j < result@.len() ==> is_chunk(&#[trigger] result@[j], frames@, k as int, j),
            decreases total - start,
        {
            proof {
                lemma_step_multiple(start as int, k as int, n as int, total);
            }
            let mut group: Vec<Frame> = Vec::new();
            let mut m: usize = 0;
            while m < k
                invariant
                    n == frames@.len(),
                    n + k <= usize::MAX,
                    last == frames@.last(),
                    start < n,
                    m <= k,
                    start + k <= total,
                    total < n + k,
                    last.i + k <= usize::MAX,
                    group@.len() == m,
                    forall|t: int| 0 <= t < m ==> #[trigger] group@[t] == padded_at(frames@, start + t),
                decreases k - m,
            {
                let idx = start + m;
                let f = if idx < n {
                    frames[idx]
                } else {
                    let t = idx - n + 1;
                    Frame { input: last.output, output: last.output, i: last.i + t }
                };
                group.push(f);
                m += 1;
            }
            let j = result.len();
            let mf = MultiFrame {
                initial: frames[0].input,
                input: group[0].input,
                output: group[k - 1].output,
                i: group[0].i,
                frames: Some(group),
                chunk_size: k,
            };
            proof {
                assert(j * k == start);
                assert((j as int) * (k as int) + (k as int) - 1 == start + k - 1);
            }
            result.push(mf);
            proof {
                assert(is_chunk(&result@[j as int], frames@, k as int, j as int));
                assert((j + 1) * k == j * k + k) by (nonlinear_arith);
            }
            start = start + k;
        }
        result
    }

    /// A multi-frame of stutter steps on the terminal state `last.output`,
    /// used to fill the proof vector up to a power of two.
    pub fn make_dummy(chunk_size: usize, initial: IO, last: Frame) -> (r: MultiFrame)
        requires
            chunk_size > 0,
            last.i + chunk_size <= usize::MAX,
            last.output.cont.tag.spec_is_terminal(),
        ensures
            r.chunk_size == chunk_size,
            r.initial == initial,
            r.input == last.output,
            r.output == last.output,
            r.i == last.i + 1,
            r.frames matches Some(v) && v@.len() == chunk_size && forall|m: int|
                0 <= m < chunk_size ==> #[trigger] v@[m] == stutter(last, m + 1) && spec_is_stutter(
                    v@[m],
                ),
    {
        let mut group: Vec<Frame> = Vec::new();
        let mut m: usize = 0;
        while m < chunk_size
            invariant
                m <= chunk_size,
                last.i + chunk_size <= usize::MAX,
                group@.len() == m,
                forall|t: int| 0 <= t < m ==> #[trigger] group@[t] == stutter(last, t + 1),
            decreases chunk_size - m,
        {
            group.push(Frame { input: last.output, output: last.output, i: last.i + m + 1 });
            m += 1;
        }
        MultiFrame {
            initial,
            input: last.output,
            output: last.output,
            i: last.i + 1,
            frames: Some(group),
            chunk_size,
        }
    }
}

pub proof fn lemma_padded_len(n: int, k: int)
    requires
        n >= 0,
        k > 0,
    ensures
        padded_len(n, k) % k == 0,
        n <= padded_len(n, k) < n + k,
{
    assert(n % k < k) by (nonlinear_arith)
        requires
            n >= 0,
            k > 0,
    ;
    if n % k != 0 {
        assert((n + (k - n % k)) % k == 0) by (nonlinear_arith)
            requires
                n >= 0,
                k > 0,
        ;
    }
}

proof fn lemma_step_multiple(start: int, k: int, n: int, total: int)
    requires
        k > 0,
        start >= 0,
        start % k == 0,
        total % k == 0,
        start < n,
        n <= total < n + k,
    ensures
        (start + k) % k == 0,
        start + k <= total,
        start + k < n || start + k == total,
{
    assert(start + k < n || start + k == total) by (nonlinear_arith)
        requires
            k > 0,
            start % k == 0,
            total % k == 0,
            start < n,
            n <= total < n + k,
            start >= 0,
    ;
    assert((start + k) % k == 0) by (nonlinear_arith)
        requires
            k > 0,
            start % k == 0,
            start >= 0,
    ;
    assert(start + k <= total) by (nonlinear_arith)
        requires
            k > 0,
            start % k == 0,
            total % k == 0,
            start < n,
            n <= total,
            start >= 0,
    ;
}

/// Padding keeps a chained run chained: the padded sequence is chained up to
/// any length `total`, and every stutter step leaves the state unchanged,
/// terminal if the run ended in a terminal state.
pub proof fn lemma_padding_keeps_chain(frames: Seq<Frame>, total: int)
    requires
        frames.len() > 0,
        chained(frames),
        frames.last().i + total - frames.len() <= usize::MAX,
    ensures
        forall|idx: int| 0 <= idx < total - 1 ==> #[trigger] padded_precedes(frames, idx),
        forall|idx: int|
            frames.len() <= idx < total ==> (#[trigger] padded_at(frames, idx)).input == padded_at(
                frames,
                idx,
            ).output,
        forall|idx: int|
            frames.len() <= idx < total && frames.last().output.cont.tag.spec_is_terminal()
                ==> (#[trigger] padded_at(frames, idx)).input.cont.tag.spec_is_terminal(),
{
    let n = frames.len() as int;
    assert forall|idx: int| 0 <= idx < total - 1 implies #[trigger] padded_precedes(frames, idx) by {
        if idx < n - 1 {
            assert(precedes_at(frames, idx));
        }
    }
}

/// Chunking a chained run gives chained multi-frames: each ends where the
/// next begins.
pub proof fn lemma_multiframes_chained(frames: Seq<Frame>, k: int, mfs: Seq<MultiFrame>)
    requires
        frames.len() > 0,
        k > 0,
        chained(frames),
        mfs.len() * k == padded_len(frames.len() as int, k),
        frames.last().i + k <= usize::MAX,
        forall|j: int| 0 <= j < mfs.len() ==> is_chunk(&#[trigger] mfs[j], frames, k, j),
    ensures
        forall|j: int| 0 <= j < mfs.len() - 1 ==> #[trigger] links(mfs, j),
{
    let n = frames.len() as int;
    let total = padded_len(n, k);
    lemma_padded_len(n, k);
    lemma_padding_keeps_chain(frames, total);
    assert forall|j: int| 0 <= j < mfs.len() - 1 implies #[trigger] links(mfs, j) by {
        assert(is_chunk(&mfs[j], frames, k, j));
        assert(is_chunk(&mfs[j + 1], frames, k, j + 1));
        assert((j + 1) * k == j * k + k) by (nonlinear_arith);
        assert(j * k + k - 1 < total - 1) by (nonlinear_arith)
            requires
                j < mfs.len() - 1,
                mfs.len() * k == total,
                k > 0,
        ;
        assert(0 <= j * k) by (nonlinear_arith)
            requires
                j >= 0,
                k > 0,
        ;
        assert(padded_precedes(frames, j * k + k - 1));
    }
}

/// The output of the last multi-frame is the output of the last frame,
/// whatever the chunk size: padding does not change the public outputs.
pub proof fn lemma_output_independent_of_chunk_size(
    frames: Seq<Frame>,
    k1: int,
    j1: int,
    mf1: &MultiFrame,
    k2: int,
    j2: int,
    mf2: &MultiFrame,
)
    requires
        frames.len() > 0,
        k1 > 0,
        k2 > 0,
        (j1 + 1) * k1 == padded_len(frames.len() as int, k1),
        (j2 + 1) * k2 == padded_len(frames.len() as int, k2),
        is_chunk(mf1, frames, k1, j1),
        is_chunk(mf2, frames, k2, j2),
    ensures
        mf1.output == frames.last().output,
        mf2.output == mf1.output,
{
    lemma_padded_len(frames.len() as int, k1);
    lemma_padded_len(frames.len() as int, k2);
    assert(j1 * k1 + k1 - 1 == padded_len(frames.len() as int, k1) - 1) by (nonlinear_arith)
        requires
            (j1 + 1) * k1 == padded_len(frames.len() as int, k1),
    ;
    assert(j2 * k2 + k2 - 1 == padded_len(frames.len() as int, k2) - 1) by (nonlinear_arith)
        requires
            (j2 + 1) * k2 == padded_len(frames.len() as int, k2),
    ;
}

/// The public inputs of a state that may be absent.
pub open spec fn opt_io_inputs(io: Option<IO>) -> Seq<u64> {
    match io {
        Some(x) => io_inputs(x),
        None => Seq::empty(),
    }
}

/// The frame-level circuit: each part is absent in the blank frame that
/// parameter generation synthesizes.
pub struct CircuitFrame<'a> {
    pub store: &'a Pool,
    pub input: Option<IO>,
    pub output: Option<IO>,
    pub initial: Option<IO>,
    pub i: Option<usize>,
}

impl<'a> CircuitFrame<'a> {
    pub fn blank(store: &'a Pool) -> (r: CircuitFrame<'a>)
        ensures
            r.store == store,
            r.input is None,
            r.output is None,
            r.initial is None,
            r.i is None,
    {
        CircuitFrame { store, input: None, output: None, initial: None, i: None }
    }

    /// The public inputs of the parts that are present, in the order
    /// initial, input, output, index.
    pub fn public_inputs(&self) -> (r: Vec<u64>)
        ensures
            r@ == opt_io_inputs(self.initial) + opt_io_inputs(self.input) + opt_io_inputs(
                self.output,
            ) + match self.i {
                Some(i) => seq![i as u64],
                None => Seq::<u64>::empty(),
            },
    {
        let mut inputs: Vec<u64> = Vec::new();
        if let Some(initial) = &self.initial {
            append_all(&mut inputs, initial.public_inputs());
        }
        let ghost a = inputs@;
        if let Some(input) = &self.input {
            append_all(&mut inputs, input.public_inputs());
        }
        let ghost b = inputs@;
        if let Some(output) = &self.output {
            append_all(&mut inputs, output.public_inputs());
        }
        let ghost c = inputs@;
        if let Some(i) = self.i {
            inputs.push(i as u64);
        }
        assert(a =~= opt_io_inputs(self.initial));
        assert(b =~= a + opt_io_inputs(self.input));
        assert(c =~= b + opt_io_inputs(self.output));
        assert(inputs@ =~= c + match self.i {
            Some(i) => seq![i as u64],
            None => Seq::<u64>::empty(),
        });
        inputs
    }
}

} // verus!
