//! Where the model runs, and in which pieces it reads a prompt.
use vstd::prelude::*;

verus! {

/// A device for tensors.
#[derive(Debug, Clone, Copy, PartialEq, Eq, Structural)]
pub enum DeviceKind {
    Cpu,
    /// The first CUDA device.
    Cuda,
}

/// A number format for tensors.
#[derive(Debug, Clone, Copy, PartialEq, Eq, Structural)]
pub enum DTypeKind {
    F16,
    BF16,
    F32,
}

/// The device to run on: CUDA where the program was built with it, unless the CPU is forced.
pub fn select_device(force_cpu: bool, built_with_cuda: bool) -> (r: DeviceKind)
    ensures
        r == (if force_cpu || !built_with_cuda {
            DeviceKind::Cpu
        } else {
            DeviceKind::Cuda
        }),
{
    if force_cpu {
        return DeviceKind::Cpu;
    }
    if built_with_cuda {
        DeviceKind::Cuda
    } else {
        DeviceKind::Cpu
    }
}

/// The number format in which dense weights are loaded.
pub fn preferred_dtype(device: DeviceKind) -> (r: DTypeKind)
    ensures
        r == (match device {
            DeviceKind::Cpu => DTypeKind::F32,
            DeviceKind::Cuda => DTypeKind::BF16,
        }),
{
    match device {
        DeviceKind::Cpu => DTypeKind::F32,
        DeviceKind::Cuda => DTypeKind::BF16,
    }
}

/// A piece of a prompt that the model reads at once: `len` tokens from `start` on, the first of
/// them at `position` of the context.
#[derive(Debug, Clone, Copy, PartialEq, Eq, Structural)]
pub struct PromptPiece {
    pub start: usize,
    pub len: usize,
    pub position: usize,
}

/// The pieces in which a model reads a prompt of `count` tokens from `position` on.
///
/// A quantized model with context reads one token at a time; otherwise the prompt is read whole.
pub open spec fn prompt_pieces(quantized: bool, count: nat, position: nat) -> Seq<PromptPiece> {
    if quantized && position > 0 && count > 1 {
        Seq::new(
            count,
            |i: int|
                PromptPiece { start: i as usize, len: 1, position: (position + i) as usize },
        )
    } else {
        seq![PromptPiece { start: 0, len: count as usize, position: position as usize }]
    }
}

/// The pieces in which a model reads a prompt.
pub fn forward_prompt(quantized: bool, count: usize, position: usize) -> (r: Vec<PromptPiece>)
    requires
        position + count <= usize::MAX,
    ensures
        r@ == prompt_pieces(quantized, count as nat, position as nat),
{
    let mut pieces: Vec<PromptPiece> = Vec::new();
    if !quantized || position == 0 || count <= 1 {
        pieces.push(PromptPiece { start: 0, len: count, position });
        assert(pieces@ =~= prompt_pieces(quantized, count as nat, position as nat));
        return pieces;
    }
    let mut i: usize = 0;
    while i < count
        invariant
            quantized && position > 0 && count > 1,
            position + count <= usize::MAX,
            0 <= i <= count,
            pieces@ == prompt_pieces(quantized, count as nat, position as nat).take(i as int),
        decreases count - i,
    {
        pieces.push(PromptPiece { start: i, len: 1, position: position + i });
        assert(pieces@ =~= prompt_pieces(quantized, count as nat, position as nat).take(i + 1));
        i = i + 1;
    }
    assert(pieces@ =~= prompt_pieces(quantized, count as nat, position as nat));
    pieces
}

/// The pieces of a prompt follow one another without a gap, cover the prompt exactly, and each
/// token is read at the position that it has in the context.
pub proof fn pieces_cover_the_prompt(quantized: bool, count: usize, position: usize)
    requires
        position + count <= usize::MAX,
    ensures
        ({
            let pieces = prompt_pieces(quantized, count as nat, position as nat);
            &&& pieces.len() > 0
            &&& pieces[0].start == 0
            &&& pieces.last().start + pieces.last().len == count
            &&& forall|i: int|
                0 <= i < pieces.len() ==> (#[trigger] pieces[i]).position == position
                    + pieces[i].start
            &&& forall|i: int, j: int|
                0 <= i < pieces.len() && j == i + 1 && j < pieces.len() ==> (
                #[trigger] pieces[j]).start == (#[trigger] pieces[i]).start + pieces[i].len
        }),
{
}

/// A dense model, and one without context, reads a prompt at once. A quantized model with context
/// reads every token by itself.
pub proof fn only_a_quantized_model_with_context_reads_in_pieces(
    quantized: bool,
    count: usize,
    position: usize,
    i: int,
)
    requires
        position + count <= usize::MAX,
        count > 0,
    ensures
        !quantized || position == 0 ==> prompt_pieces(
            quantized,
            count as nat,
            position as nat,
        ).len() == 1,
        quantized && position > 0 && 0 <= i < prompt_pieces(
            quantized,
            count as nat,
            position as nat,
        ).len() ==> prompt_pieces(quantized, count as nat, position as nat)[i].len == 1,
{
}

}
