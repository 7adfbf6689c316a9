use crate::cfg_gen::dasm::{is_valid_jumpdest, MAX_CODE_LEN};
use crate::error::AnalysisError;
use revm_interpreter::analysis::to_analysed;
use revm_primitives::{Bytecode, Bytes};
use std::collections::HashSet;
use vstd::prelude::*;

verus! {

/// Whether the code starts with `0xEF00` or `0xEF01`, the markers of the
/// container formats, which hold no legacy jump table.
pub open spec fn has_format_prefix(code: Seq<u8>) -> bool {
    code.len() >= 2 && code[0] == 0xef && (code[1] == 0x00 || code[1] == 0x01)
}

/// Bit `pc` of a jump table, which numbers the bits of each byte from the
/// least significant one.
pub open spec fn jump_bit(table: Seq<u8>, pc: int) -> bool {
    table[pc / 8] & (1u8 << ((pc % 8) as u8)) != 0
}

/// `revm_interpreter::analysis::to_analysed` on
/// `revm_primitives::Bytecode::new_raw`, then `Bytecode::legacy_jump_table`
/// and `JumpTable::as_slice`. For code without a format marker the analysis
/// yields a table with a bit for every byte of the code, and the bit is
/// set exactly at the `JUMPDEST` bytes that its scan, which skips push
/// immediates, comes by. Code with a marker is left out: `new_raw`
/// panics where the container does not decode.
#[verifier::external_body]
fn analysed_jump_table(code: &Vec<u8>) -> (table: Option<Vec<u8>>)
    requires
        !has_format_prefix(code@),
    ensures
        table is Some,
        table->0.len() * 8 >= code.len(),
        forall|pc: int|
            0 <= pc < code.len() ==> #[trigger] jump_bit(table->0@, pc) == is_valid_jumpdest(
                code@,
                pc,
            ),
{
    let analysed = to_analysed(Bytecode::new_raw(Bytes::from(code.clone())));
    analysed.legacy_jump_table().map(|jumps| jumps.as_slice().to_vec())
}

/// Whether the code carries a format marker.
pub fn starts_with_format_prefix(code: &Vec<u8>) -> (marked: bool)
    ensures
        marked == has_format_prefix(code@),
{
    code.len() >= 2 && code[0] == 0xef && (code[1] == 0x00 || code[1] == 0x01)
}

/// The program counters of the valid jump destinations of `code`. Fails
/// for code that is longer than the space of program counters and for
/// code that starts with a format marker.
pub fn valid_jumpdests(code: &Vec<u8>) -> (found: Result<HashSet<u16>, AnalysisError>)
    ensures
        found is Ok <==> code.len() <= MAX_CODE_LEN && !has_format_prefix(code@),
        found matches Ok(set) ==> forall|pc: u16|
            set@.contains(pc) <==> is_valid_jumpdest(code@, pc as int),
        found matches Err(e) ==> e == AnalysisError::BytecodeAnalysis,
{
    broadcast use vstd::std_specs::hash::group_hash_axioms;

    if code.len() > MAX_CODE_LEN || starts_with_format_prefix(code) {
        return Err(AnalysisError::BytecodeAnalysis);
    }
    let table = match analysed_jump_table(code) {
        Some(table) => table,
        None => {
            return Err(AnalysisError::BytecodeAnalysis);
        },
    };
    let mut set: HashSet<u16> = HashSet::new();
    let mut pc: usize = 0;
    while pc < code.len()
        invariant
            pc <= code.len() <= MAX_CODE_LEN,
            table.len() * 8 >= code.len(),
            forall|p: int|
                0 <= p < code.len() ==> #[trigger] jump_bit(table@, p) == is_valid_jumpdest(
                    code@,
                    p,
                ),
            forall|p: u16| set@.contains(p) <==> p < pc && is_valid_jumpdest(code@, p as int),
        decreases code.len() - pc,
    {
        let byte = table[pc / 8];
        let mask: u8 = 1u8 << ((pc % 8) as u8);
        if byte & mask != 0 {
            assert(jump_bit(table@, pc as int));
            set.insert(pc as u16);
        } else {
            assert(!jump_bit(table@, pc as int));
        }
        pc = pc + 1;
    }
    Ok(set)
}

} // verus!
