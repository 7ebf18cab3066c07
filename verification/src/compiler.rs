//! Compilation from source text to the optimized instruction sequence.

use vstd::prelude::*;
use crate::filter::{lemma_minify_shorter, minify, minify_spec};
use crate::lower::{
    brackets_nest,
    count,
    count_in,
    lemma_lowered_is_balanced,
    lemma_lowered_is_well_formed,
    lemma_lowered_length,
    lemma_lowering_reports_the_side,
    lower,
    lower_spec,
    prefixes_open,
    slots_from,
};
use crate::opcode::{
    jumps_in_range,
    lemma_linked_in_range,
    nested,
    no_zero_delta,
    well_linked,
    OpCode,
};
use crate::optimizer::{
    lemma_optimize_keeps_links,
    lemma_optimize_no_zero,
    lemma_optimize_stable,
    optimize,
    optimize_spec,
};

verus! {

/// Why a source text was rejected.
#[derive(Debug, Clone, Copy, PartialEq, Eq, Structural)]
pub enum CompileError {
    /// A loop-close symbol with no open loop; the position counts symbols of
    /// the filtered stream.
    UnmatchedClose(usize),
    /// The text ended inside a loop; the index is the instruction slot of the
    /// innermost loop that was never closed.
    UnmatchedOpen(usize),
    /// A run of arithmetic symbols whose net effect does not fit a signed
    /// 16-bit delta; the position is that of the run's first symbol.
    DeltaOutOfRange(usize),
}

/// What a source text compiles to: the filtered text, lowered, then rewritten
/// by the peephole pass.
pub open spec fn compile_spec(source: Seq<char>) -> Result<Seq<OpCode>, CompileError> {
    match lower_spec(minify_spec(source)) {
        Ok(code) => Ok(optimize_spec(code)),
        Err(e) => Err(e),
    }
}

/// Compiles a source text to the optimized instruction sequence.
///
/// The text is rejected where a loop-close symbol has no open loop, a loop is
/// left open at the end, or a run does not fit a 16-bit delta; the first of
/// these in reading order is reported. On success the loop symbols of the
/// filtered text balance, every jump left by the peephole pass is linked with
/// its partner inside the sequence, and no delta is zero.
pub fn compile(source: &String) -> (r: Result<Vec<OpCode>, CompileError>)
    ensures
        match r {
            Ok(code) => compile_spec(source@) == Ok::<Seq<OpCode>, CompileError>(code@),
            Err(e) => compile_spec(source@) == Err::<Seq<OpCode>, CompileError>(e),
        },
        r is Ok ==> count(minify_spec(source@), '[') == count(minify_spec(source@), ']'),
        count(minify_spec(source@), '[') != count(minify_spec(source@), ']') ==> r is Err,
        r matches Ok(code) ==> well_linked(code@) && nested(code@) && jumps_in_range(code@)
            && no_zero_delta(code@) && code@.len() <= source@.len(),
{
    let tokens = minify(source.as_str());
    proof {
        lemma_minify_shorter(source@);
    }
    match lower(&tokens) {
        Ok(code) => {
            proof {
                lemma_linked_in_range(code@);
            }
            Ok(optimize(code))
        },
        Err(e) => Err(e),
    }
}

/// A text that compiles has as many loop-open as loop-close symbols in its
/// filtered stream; a text in which the two numbers differ is rejected.
pub proof fn lemma_accepted_is_balanced(source: Seq<char>)
    ensures
        compile_spec(source) is Ok ==> count(minify_spec(source), '[') == count(
            minify_spec(source),
            ']',
        ),
        count(minify_spec(source), '[') != count(minify_spec(source), ']') ==> compile_spec(
            source,
        ) is Err,
{
    lemma_lowered_is_balanced(minify_spec(source));
}

/// Compiling keeps the length that lowering gave: the peephole pass neither
/// inserts nor removes a slot.
pub proof fn lemma_compile_keeps_length(source: Seq<char>)
    ensures
        compile_spec(source) matches Ok(code) ==> code.len() == lower_spec(
            minify_spec(source),
        )->Ok_0.len(),
{
    if lower_spec(minify_spec(source)) is Ok {
        lemma_optimize_stable(lower_spec(minify_spec(source))->Ok_0, 0);
    }
}

/// Whatever a text compiles to is well formed: every jump is linked with its
/// partner, loops nest, every jump stores an index inside the sequence, and
/// no arithmetic instruction has a delta of zero.
pub proof fn lemma_compiled_is_well_formed(source: Seq<char>)
    requires
        source.len() <= usize::MAX,
    ensures
        compile_spec(source) matches Ok(code) ==> well_linked(code) && nested(code)
            && jumps_in_range(code) && no_zero_delta(code),
{
    let t = minify_spec(source);
    lemma_minify_shorter(source);
    lemma_lowered_is_well_formed(t);
    if lower_spec(t) is Ok {
        let lowered = lower_spec(t)->Ok_0;
        lemma_optimize_keeps_links(lowered, 0);
        lemma_optimize_no_zero(lowered, 0);
        lemma_linked_in_range(optimize_spec(lowered));
    }
}

/// Which texts compile, and which side is reported, over the filtered text.
/// A text that compiles has nesting loop symbols, and a text whose loop
/// symbols nest compiles unless one of its runs does not fit a 16-bit delta.
/// An unmatched loop-close is reported at the first position where a prefix
/// holds more loop-close than loop-open symbols; an unmatched loop-open where
/// no prefix does but the text holds more loop-open symbols.
pub proof fn lemma_compile_reports_the_side(source: Seq<char>)
    requires
        source.len() <= usize::MAX,
    ensures
        compile_spec(source) is Ok ==> brackets_nest(minify_spec(source)),
        brackets_nest(minify_spec(source)) ==> compile_spec(source) is Ok || compile_spec(
            source,
        ) matches Err(CompileError::DeltaOutOfRange(_)),
        compile_spec(source) matches Err(CompileError::UnmatchedClose(p)) ==> p < minify_spec(
            source,
        ).len() && prefixes_open(minify_spec(source), p as int) && count_in(
            minify_spec(source),
            ']',
            p + 1,
        ) > count_in(minify_spec(source), '[', p + 1),
        compile_spec(source) matches Err(CompileError::UnmatchedOpen(_)) ==> prefixes_open(
            minify_spec(source),
            minify_spec(source).len() as int,
        ) && count(minify_spec(source), '[') > count(minify_spec(source), ']'),
{
    lemma_minify_shorter(source);
    lemma_lowering_reports_the_side(minify_spec(source));
}

/// What a text compiles to has one slot for each run of the filtered text
/// with a net delta that is not zero and one for each output, loop-open and
/// loop-close symbol: the peephole pass neither inserts nor removes a slot.
pub proof fn lemma_compiled_length(source: Seq<char>)
    requires
        source.len() <= usize::MAX,
    ensures
        compile_spec(source) matches Ok(code) ==> code.len() == slots_from(
            minify_spec(source),
            0,
        ),
{
    lemma_minify_shorter(source);
    lemma_lowered_length(minify_spec(source));
    lemma_compile_keeps_length(source);
}

} // verus!
