use vstd::prelude::*;

verus! {

/// `STOP`: halts execution.
pub const STOP: u8 = 0x00;

/// `SLOAD`: reads a word of persistent storage.
pub const SLOAD: u8 = 0x54;

/// `SSTORE`: writes a word of persistent storage.
pub const SSTORE: u8 = 0x55;

/// `CALLDATALOAD`: reads a word of the call data.
pub const CALLDATALOAD: u8 = 0x35;

/// `POP`: removes the top of the stack.
pub const POP: u8 = 0x50;

/// `JUMP`: unconditional jump to the address on top of the stack.
pub const JUMP: u8 = 0x56;

/// `JUMPI`: conditional jump to the address on top of the stack.
pub const JUMPI: u8 = 0x57;

/// `JUMPDEST`: the only valid target of a jump.
pub const JUMPDEST: u8 = 0x5b;

/// `PUSH0`: pushes the constant zero, without an immediate.
pub const PUSH0: u8 = 0x5f;

/// `RETURN`: halts execution and returns data.
pub const RETURN: u8 = 0xf3;

/// `REVERT`: halts execution and reverts state changes.
pub const REVERT: u8 = 0xfd;

/// `INVALID`: the designated invalid instruction.
pub const INVALID: u8 = 0xfe;

/// `SELFDESTRUCT`: halts execution and schedules the account for deletion.
pub const SELFDESTRUCT: u8 = 0xff;

/// Static metadata of one opcode byte.
#[derive(Clone, Copy, Debug)]
pub struct OpcodeInfo {
    pub byte: u8,
    pub name: &'static str,
    pub stack_in: u8,
    pub stack_out: u8,
    pub immediate_size: u8,
    pub is_block_ender: bool,
}

/// Whether `byte` is one of `PUSH1..PUSH32`.
pub open spec fn is_push(byte: u8) -> bool {
    0x60 <= byte <= 0x7f
}

/// Whether `byte` is one of `DUP1..DUP16`.
pub open spec fn is_dup(byte: u8) -> bool {
    0x80 <= byte <= 0x8f
}

/// Whether `byte` is one of `SWAP1..SWAP16`.
pub open spec fn is_swap(byte: u8) -> bool {
    0x90 <= byte <= 0x9f
}

/// Number of immediate bytes that follow the opcode `byte` in the code.
pub open spec fn immediate_size(byte: u8) -> int {
    if is_push(byte) {
        byte - 0x5f
    } else {
        0
    }
}

/// Whether `byte` is assigned to an instruction.
pub open spec fn is_known(byte: u8) -> bool {
    ||| byte <= 0x0b
    ||| 0x10 <= byte <= 0x1d
    ||| byte == 0x20
    ||| 0x30 <= byte <= 0x4a
    ||| 0x50 <= byte <= 0xa4
    ||| 0xf0 <= byte <= 0xf5
    ||| byte == 0xfa
    ||| byte >= 0xfd
}

/// Whether an instruction with this opcode ends a basic block by itself:
/// the halting instructions, the two jumps, and every unassigned byte.
pub open spec fn is_block_ender(byte: u8) -> bool {
    ||| byte == STOP
    ||| byte == JUMP
    ||| byte == JUMPI
    ||| byte == RETURN
    ||| byte == REVERT
    ||| byte == INVALID
    ||| byte == SELFDESTRUCT
    ||| !is_known(byte)
}

/// Number of stack words that the instruction `byte` takes.
pub open spec fn stack_in(byte: u8) -> int {
    if is_dup(byte) {
        byte - 0x7f
    } else if is_swap(byte) {
        byte - 0x8e
    } else if 0xa0 <= byte <= 0xa4 {
        byte - 0x9e
    } else if {
        ||| byte == 0x15
        ||| byte == 0x19
        ||| byte == 0x31
        ||| byte == 0x35
        ||| byte == 0x3b
        ||| 0x3f <= byte <= 0x40
        ||| byte == 0x49
        ||| 0x50 <= byte <= 0x51
        ||| byte == 0x54
        ||| byte == 0x56
        ||| byte == 0x5c
        ||| byte == 0xff
    } {
        1
    } else if {
        ||| 0x01 <= byte <= 0x07
        ||| 0x0a <= byte <= 0x0b
        ||| 0x10 <= byte <= 0x14
        ||| 0x16 <= byte <= 0x18
        ||| 0x1a <= byte <= 0x1d
        ||| byte == 0x20
        ||| 0x52 <= byte <= 0x53
        ||| byte == 0x55
        ||| byte == 0x57
        ||| byte == 0x5d
        ||| byte == 0xf3
        ||| byte == 0xfd
    } {
        2
    } else if {
        ||| 0x08 <= byte <= 0x09
        ||| byte == 0x37
        ||| byte == 0x39
        ||| byte == 0x3e
        ||| byte == 0x5e
        ||| byte == 0xf0
    } {
        3
    } else if {
        ||| byte == 0x3c
        ||| byte == 0xf5
    } {
        4
    } else if {
        ||| byte == 0xf4
        ||| byte == 0xfa
    } {
        6
    } else if {
        ||| 0xf1 <= byte <= 0xf2
    } {
        7
    } else {
        0
    }
}

/// Number of stack words that the instruction `byte` leaves in their place.
pub open spec fn stack_out(byte: u8) -> int {
    if is_dup(byte) {
        byte - 0x7e
    } else if is_swap(byte) {
        byte - 0x8e
    } else if {
        ||| 0x01 <= byte <= 0x0b
        ||| 0x10 <= byte <= 0x1d
        ||| byte == 0x20
        ||| 0x30 <= byte <= 0x36
        ||| byte == 0x38
        ||| 0x3a <= byte <= 0x3b
        ||| byte == 0x3d
        ||| 0x3f <= byte <= 0x4a
        ||| byte == 0x51
        ||| byte == 0x54
        ||| 0x58 <= byte <= 0x5a
        ||| byte == 0x5c
        ||| 0x5f <= byte <= 0x7f
        ||| 0xf0 <= byte <= 0xf2
        ||| 0xf4 <= byte <= 0xf5
        ||| byte == 0xfa
    } {
        1
    } else {
        0
    }
}

/// The mnemonic of `byte`; `unknown` for an unassigned byte.
pub open spec fn mnemonic(byte: u8) -> Seq<char> {
    if byte == 0x00 {
        "STOP"@
    } else if byte == 0x01 {
        "ADD"@
    } else if byte == 0x02 {
        "MUL"@
    } else if byte == 0x03 {
        "SUB"@
    } else if byte == 0x04 {
        "DIV"@
    } else if byte == 0x05 {
        "SDIV"@
    } else if byte == 0x06 {
        "MOD"@
    } else if byte == 0x07 {
        "SMOD"@
    } else if byte == 0x08 {
        "ADDMOD"@
    } else if byte == 0x09 {
        "MULMOD"@
    } else if byte == 0x0a {
        "EXP"@
    } else if byte == 0x0b {
        "SIGNEXTEND"@
    } else if byte == 0x10 {
        "LT"@
    } else if byte == 0x11 {
        "GT"@
    } else if byte == 0x12 {
        "SLT"@
    } else if byte == 0x13 {
        "SGT"@
    } else if byte == 0x14 {
        "EQ"@
    } else if byte == 0x15 {
        "ISZERO"@
    } else if byte == 0x16 {
        "AND"@
    } else if byte == 0x17 {
        "OR"@
    } else if byte == 0x18 {
        "XOR"@
    } else if byte == 0x19 {
        "NOT"@
    } else if byte == 0x1a {
        "BYTE"@
    } else if byte == 0x1b {
        "SHL"@
    } else if byte == 0x1c {
        "SHR"@
    } else if byte == 0x1d {
        "SAR"@
    } else if byte == 0x20 {
        "KECCAK256"@
    } else if byte == 0x30 {
        "ADDRESS"@
    } else if byte == 0x31 {
        "BALANCE"@
    } else if byte == 0x32 {
        "ORIGIN"@
    } else if byte == 0x33 {
        "CALLER"@
    } else if byte == 0x34 {
        "CALLVALUE"@
    } else if byte == 0x35 {
        "CALLDATALOAD"@
    } else if byte == 0x36 {
        "CALLDATASIZE"@
    } else if byte == 0x37 {
        "CALLDATACOPY"@
    } else if byte == 0x38 {
        "CODESIZE"@
    } else if byte == 0x39 {
        "CODECOPY"@
    } else if byte == 0x3a {
        "GASPRICE"@
    } else if byte == 0x3b {
        "EXTCODESIZE"@
    } else if byte == 0x3c {
        "EXTCODECOPY"@
    } else if byte == 0x3d {
        "RETURNDATASIZE"@
    } else if byte == 0x3e {
        "RETURNDATACOPY"@
    } else if byte == 0x3f {
        "EXTCODEHASH"@
    } else if byte == 0x40 {
        "BLOCKHASH"@
    } else if byte == 0x41 {
        "COINBASE"@
    } else if byte == 0x42 {
        "TIMESTAMP"@
    } else if byte == 0x43 {
        "NUMBER"@
    } else if byte == 0x44 {
        "PREVRANDAO"@
    } else if byte == 0x45 {
        "GASLIMIT"@
    } else if byte == 0x46 {
        "CHAINID"@
    } else if byte == 0x47 {
        "SELFBALANCE"@
    } else if byte == 0x48 {
        "BASEFEE"@
    } else if byte == 0x49 {
        "BLOBHASH"@
    } else if byte == 0x4a {
        "BLOBBASEFEE"@
    } else if byte == 0x50 {
        "POP"@
    } else if byte == 0x51 {
        "MLOAD"@
    } else if byte == 0x52 {
        "MSTORE"@
    } else if byte == 0x53 {
        "MSTORE8"@
    } else if byte == 0x54 {
        "SLOAD"@
    } else if byte == 0x55 {
        "SSTORE"@
    } else if byte == 0x56 {
        "JUMP"@
    } else if byte == 0x57 {
        "JUMPI"@
    } else if byte == 0x58 {
        "PC"@
    } else if byte == 0x59 {
        "MSIZE"@
    } else if byte == 0x5a {
        "GAS"@
    } else if byte == 0x5b {
        "JUMPDEST"@
    } else if byte == 0x5c {
        "TLOAD"@
    } else if byte == 0x5d {
        "TSTORE"@
    } else if byte == 0x5e {
        "MCOPY"@
    } else if byte == 0x5f {
        "PUSH0"@
    } else if byte == 0x60 {
        "PUSH1"@
    } else if byte == 0x61 {
        "PUSH2"@
    } else if byte == 0x62 {
        "PUSH3"@
    } else if byte == 0x63 {
        "PUSH4"@
    } else if byte == 0x64 {
        "PUSH5"@
    } else if byte == 0x65 {
        "PUSH6"@
    } else if byte == 0x66 {
        "PUSH7"@
    } else if byte == 0x67 {
        "PUSH8"@
    } else if byte == 0x68 {
        "PUSH9"@
    } else if byte == 0x69 {
        "PUSH10"@
    } else if byte == 0x6a {
        "PUSH11"@
    } else if byte == 0x6b {
        "PUSH12"@
    } else if byte == 0x6c {
        "PUSH13"@
    } else if byte == 0x6d {
        "PUSH14"@
    } else if byte == 0x6e {
        "PUSH15"@
    } else if byte == 0x6f {
        "PUSH16"@
    } else if byte == 0x70 {
        "PUSH17"@
    } else if byte == 0x71 {
        "PUSH18"@
    } else if byte == 0x72 {
        "PUSH19"@
    } else if byte == 0x73 {
        "PUSH20"@
    } else if byte == 0x74 {
        "PUSH21"@
    } else if byte == 0x75 {
        "PUSH22"@
    } else if byte == 0x76 {
        "PUSH23"@
    } else if byte == 0x77 {
        "PUSH24"@
    } else if byte == 0x78 {
        "PUSH25"@
    } else if byte == 0x79 {
        "PUSH26"@
    } else if byte == 0x7a {
        "PUSH27"@
    } else if byte == 0x7b {
        "PUSH28"@
    } else if byte == 0x7c {
        "PUSH29"@
    } else if byte == 0x7d {
        "PUSH30"@
    } else if byte == 0x7e {
        "PUSH31"@
    } else if byte == 0x7f {
        "PUSH32"@
    } else if byte == 0x80 {
        "DUP1"@
    } else if byte == 0x81 {
        "DUP2"@
    } else if byte == 0x82 {
        "DUP3"@
    } else if byte == 0x83 {
        "DUP4"@
    } else if byte == 0x84 {
        "DUP5"@
    } else if byte == 0x85 {
        "DUP6"@
    } else if byte == 0x86 {
        "DUP7"@
    } else if byte == 0x87 {
        "DUP8"@
    } else if byte == 0x88 {
        "DUP9"@
    } else if byte == 0x89 {
        "DUP10"@
    } else if byte == 0x8a {
        "DUP11"@
    } else if byte == 0x8b {
        "DUP12"@
    } else if byte == 0x8c {
        "DUP13"@
    } else if byte == 0x8d {
        "DUP14"@
    } else if byte == 0x8e {
        "DUP15"@
    } else if byte == 0x8f {
        "DUP16"@
    } else if byte == 0x90 {
        "SWAP1"@
    } else if byte == 0x91 {
        "SWAP2"@
    } else if byte == 0x92 {
        "SWAP3"@
    } else if byte == 0x93 {
        "SWAP4"@
    } else if byte == 0x94 {
        "SWAP5"@
    } else if byte == 0x95 {
        "SWAP6"@
    } else if byte == 0x96 {
        "SWAP7"@
    } else if byte == 0x97 {
        "SWAP8"@
    } else if byte == 0x98 {
        "SWAP9"@
    } else if byte == 0x99 {
        "SWAP10"@
    } else if byte == 0x9a {
        "SWAP11"@
    } else if byte == 0x9b {
        "SWAP12"@
    } else if byte == 0x9c {
        "SWAP13"@
    } else if byte == 0x9d {
        "SWAP14"@
    } else if byte == 0x9e {
        "SWAP15"@
    } else if byte == 0x9f {
        "SWAP16"@
    } else if byte == 0xa0 {
        "LOG0"@
    } else if byte == 0xa1 {
        "LOG1"@
    } else if byte == 0xa2 {
        "LOG2"@
    } else if byte == 0xa3 {
        "LOG3"@
    } else if byte == 0xa4 {
        "LOG4"@
    } else if byte == 0xf0 {
        "CREATE"@
    } else if byte == 0xf1 {
        "CALL"@
    } else if byte == 0xf2 {
        "CALLCODE"@
    } else if byte == 0xf3 {
        "RETURN"@
    } else if byte == 0xf4 {
        "DELEGATECALL"@
    } else if byte == 0xf5 {
        "CREATE2"@
    } else if byte == 0xfa {
        "STATICCALL"@
    } else if byte == 0xfd {
        "REVERT"@
    } else if byte == 0xfe {
        "INVALID"@
    } else if byte == 0xff {
        "SELFDESTRUCT"@
    } else {
        "unknown"@
    }
}

/// The mnemonic of `byte` as a string slice.
pub fn opcode_name(byte: u8) -> (name: &'static str)
    ensures
        name@ == mnemonic(byte),
{
    match byte {
        0x00 => "STOP",
        0x01 => "ADD",
        0x02 => "MUL",
        0x03 => "SUB",
        0x04 => "DIV",
        0x05 => "SDIV",
        0x06 => "MOD",
        0x07 => "SMOD",
        0x08 => "ADDMOD",
        0x09 => "MULMOD",
        0x0a => "EXP",
        0x0b => "SIGNEXTEND",
        0x10 => "LT",
        0x11 => "GT",
        0x12 => "SLT",
        0x13 => "SGT",
        0x14 => "EQ",
        0x15 => "ISZERO",
        0x16 => "AND",
        0x17 => "OR",
        0x18 => "XOR",
        0x19 => "NOT",
        0x1a => "BYTE",
        0x1b => "SHL",
        0x1c => "SHR",
        0x1d => "SAR",
        0x20 => "KECCAK256",
        0x30 => "ADDRESS",
        0x31 => "BALANCE",
        0x32 => "ORIGIN",
        0x33 => "CALLER",
        0x34 => "CALLVALUE",
        0x35 => "CALLDATALOAD",
        0x36 => "CALLDATASIZE",
        0x37 => "CALLDATACOPY",
        0x38 => "CODESIZE",
        0x39 => "CODECOPY",
        0x3a => "GASPRICE",
        0x3b => "EXTCODESIZE",
        0x3c => "EXTCODECOPY",
        0x3d => "RETURNDATASIZE",
        0x3e => "RETURNDATACOPY",
        0x3f => "EXTCODEHASH",
        0x40 => "BLOCKHASH",
        0x41 => "COINBASE",
        0x42 => "TIMESTAMP",
        0x43 => "NUMBER",
        0x44 => "PREVRANDAO",
        0x45 => "GASLIMIT",
        0x46 => "CHAINID",
        0x47 => "SELFBALANCE",
        0x48 => "BASEFEE",
        0x49 => "BLOBHASH",
        0x4a => "BLOBBASEFEE",
        0x50 => "POP",
        0x51 => "MLOAD",
        0x52 => "MSTORE",
        0x53 => "MSTORE8",
        0x54 => "SLOAD",
        0x55 => "SSTORE",
        0x56 => "JUMP",
        0x57 => "JUMPI",
        0x58 => "PC",
        0x59 => "MSIZE",
        0x5a => "GAS",
        0x5b => "JUMPDEST",
        0x5c => "TLOAD",
        0x5d => "TSTORE",
        0x5e => "MCOPY",
        0x5f => "PUSH0",
        0x60 => "PUSH1",
        0x61 => "PUSH2",
        0x62 => "PUSH3",
        0x63 => "PUSH4",
        0x64 => "PUSH5",
        0x65 => "PUSH6",
        0x66 => "PUSH7",
        0x67 => "PUSH8",
        0x68 => "PUSH9",
        0x69 => "PUSH10",
        0x6a => "PUSH11",
        0x6b => "PUSH12",
        0x6c => "PUSH13",
        0x6d => "PUSH14",
        0x6e => "PUSH15",
        0x6f => "PUSH16",
        0x70 => "PUSH17",
        0x71 => "PUSH18",
        0x72 => "PUSH19",
        0x73 => "PUSH20",
        0x74 => "PUSH21",
        0x75 => "PUSH22",
        0x76 => "PUSH23",
        0x77 => "PUSH24",
        0x78 => "PUSH25",
        0x79 => "PUSH26",
        0x7a => "PUSH27",
        0x7b => "PUSH28",
        0x7c => "PUSH29",
        0x7d => "PUSH30",
        0x7e => "PUSH31",
        0x7f => "PUSH32",
        0x80 => "DUP1",
        0x81 => "DUP2",
        0x82 => "DUP3",
        0x83 => "DUP4",
        0x84 => "DUP5",
        0x85 => "DUP6",
        0x86 => "DUP7",
        0x87 => "DUP8",
        0x88 => "DUP9",
        0x89 => "DUP10",
        0x8a => "DUP11",
        0x8b => "DUP12",
        0x8c => "DUP13",
        0x8d => "DUP14",
        0x8e => "DUP15",
        0x8f => "DUP16",
        0x90 => "SWAP1",
        0x91 => "SWAP2",
        0x92 => "SWAP3",
        0x93 => "SWAP4",
        0x94 => "SWAP5",
        0x95 => "SWAP6",
        0x96 => "SWAP7",
        0x97 => "SWAP8",
        0x98 => "SWAP9",
        0x99 => "SWAP10",
        0x9a => "SWAP11",
        0x9b => "SWAP12",
        0x9c => "SWAP13",
        0x9d => "SWAP14",
        0x9e => "SWAP15",
        0x9f => "SWAP16",
        0xa0 => "LOG0",
        0xa1 => "LOG1",
        0xa2 => "LOG2",
        0xa3 => "LOG3",
        0xa4 => "LOG4",
        0xf0 => "CREATE",
        0xf1 => "CALL",
        0xf2 => "CALLCODE",
        0xf3 => "RETURN",
        0xf4 => "DELEGATECALL",
        0xf5 => "CREATE2",
        0xfa => "STATICCALL",
        0xfd => "REVERT",
        0xfe => "INVALID",
        0xff => "SELFDESTRUCT",
        _ => "unknown",
    }
}

/// Number of stack words that the instruction `byte` takes.
pub fn opcode_stack_in(byte: u8) -> (n: u8)
    ensures
        n == stack_in(byte),
        n <= 17,
{
    match byte {
        0x15 | 0x19 | 0x31 | 0x35 | 0x3b | 0x3f..=0x40 | 0x49 | 0x50..=0x51 | 0x54 | 0x56
        | 0x5c | 0x80 | 0xff => 1,
        0x01..=0x07 | 0x0a..=0x0b | 0x10..=0x14 | 0x16..=0x18 | 0x1a..=0x1d | 0x20
        | 0x52..=0x53 | 0x55 | 0x57 | 0x5d | 0x81 | 0x90 | 0xa0 | 0xf3 | 0xfd => 2,
        0x08..=0x09 | 0x37 | 0x39 | 0x3e | 0x5e | 0x82 | 0x91 | 0xa1 | 0xf0 => 3,
        0x3c | 0x83 | 0x92 | 0xa2 | 0xf5 => 4,
        0x84 | 0x93 | 0xa3 => 5,
        0x85 | 0x94 | 0xa4 | 0xf4 | 0xfa => 6,
        0x86 | 0x95 | 0xf1..=0xf2 => 7,
        0x87 | 0x96 => 8,
        0x88 | 0x97 => 9,
        0x89 | 0x98 => 10,
        0x8a | 0x99 => 11,
        0x8b | 0x9a => 12,
        0x8c | 0x9b => 13,
        0x8d | 0x9c => 14,
        0x8e | 0x9d => 15,
        0x8f | 0x9e => 16,
        0x9f => 17,
        _ => 0,
    }
}

/// Number of stack words that the instruction `byte` leaves in their place.
pub fn opcode_stack_out(byte: u8) -> (n: u8)
    ensures
        n == stack_out(byte),
        n <= 17,
{
    match byte {
        0x01..=0x0b | 0x10..=0x1d | 0x20 | 0x30..=0x36 | 0x38 | 0x3a..=0x3b | 0x3d
        | 0x3f..=0x4a | 0x51 | 0x54 | 0x58..=0x5a | 0x5c | 0x5f..=0x7f | 0xf0..=0xf2
        | 0xf4..=0xf5 | 0xfa => 1,
        0x80 | 0x90 => 2,
        0x81 | 0x91 => 3,
        0x82 | 0x92 => 4,
        0x83 | 0x93 => 5,
        0x84 | 0x94 => 6,
        0x85 | 0x95 => 7,
        0x86 | 0x96 => 8,
        0x87 | 0x97 => 9,
        0x88 | 0x98 => 10,
        0x89 | 0x99 => 11,
        0x8a | 0x9a => 12,
        0x8b | 0x9b => 13,
        0x8c | 0x9c => 14,
        0x8d | 0x9d => 15,
        0x8e | 0x9e => 16,
        0x8f | 0x9f => 17,
        _ => 0,
    }
}

/// Number of immediate bytes that follow the opcode `byte`.
pub fn opcode_immediate_size(byte: u8) -> (n: u8)
    ensures
        n == immediate_size(byte),
        n <= 32,
{
    if 0x60 <= byte && byte <= 0x7f {
        byte - 0x5f
    } else {
        0
    }
}

/// Whether `byte` is assigned to an instruction.
pub fn opcode_is_known(byte: u8) -> (known: bool)
    ensures
        known == is_known(byte),
{
    byte <= 0x0b || (0x10 <= byte && byte <= 0x1d) || byte == 0x20 || (0x30 <= byte && byte
        <= 0x4a) || (0x50 <= byte && byte <= 0xa4) || (0xf0 <= byte && byte <= 0xf5) || byte
        == 0xfa || byte >= 0xfd
}

/// Whether an instruction with this opcode ends a basic block by itself.
pub fn opcode_is_block_ender(byte: u8) -> (ender: bool)
    ensures
        ender == is_block_ender(byte),
{
    byte == STOP || byte == JUMP || byte == JUMPI || byte == RETURN || byte == REVERT || byte
        == INVALID || byte == SELFDESTRUCT || !opcode_is_known(byte)
}

/// Looks up the metadata of `byte`. Every byte has an entry; an unassigned
/// byte is named `unknown`, moves no stack words and ends its block.
pub fn opcode(byte: u8) -> (info: OpcodeInfo)
    ensures
        info.byte == byte,
        info.name@ == mnemonic(byte),
        info.stack_in == stack_in(byte),
        info.stack_out == stack_out(byte),
        info.immediate_size == immediate_size(byte),
        info.is_block_ender == is_block_ender(byte),
{
    OpcodeInfo {
        byte,
        name: opcode_name(byte),
        stack_in: opcode_stack_in(byte),
        stack_out: opcode_stack_out(byte),
        immediate_size: opcode_immediate_size(byte),
        is_block_ender: opcode_is_block_ender(byte),
    }
}

} // verus!
