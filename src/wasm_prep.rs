//! Preparation of guest modules: their parsing, and the settings under which
//! they are instrumented with gas metering, an external memory and a stack
//! limit.
use vstd::prelude::*;

verus! {

/// The number of 64 KiB pages of a module's memory.
pub const MEM_PAGES: u32 = 64;

/// `parity_wasm::elements::Module`, a parsed Wasm module, carried through as
/// an opaque value.
#[verifier::external_type_specification]
#[verifier::external_body]
pub struct ExModule(parity_wasm::elements::Module);

/// `parity_wasm::elements::Error`, why a module did not parse, carried
/// through as an opaque value.
#[verifier::external_type_specification]
#[verifier::external_body]
pub struct ExWasmError(parity_wasm::elements::Error);

/// The four bytes that open every Wasm module.
pub open spec fn wasm_magic() -> Seq<u8> {
    seq![0x00u8, 0x61, 0x73, 0x6d]
}

/// Whether bytes open as a Wasm module of version 1 does.
pub open spec fn has_module_header(b: Seq<u8>) -> bool {
    b.len() >= 8 && b.subrange(0, 4) == wasm_magic() && b.subrange(4, 8) == seq![1u8, 0, 0, 0]
}

/// Whether bytes are a whole module that parses.
pub uninterp spec fn module_parses(b: Seq<u8>) -> bool;

/// Relies on `parity_wasm::deserialize_buffer`, which parses a whole module
/// and fails on input that does not open with the magic number and version 1;
/// whether it parses depends on the bytes alone.
#[verifier::external_body]
fn parse_module(bytes: &[u8]) -> (r: Result<parity_wasm::elements::Module, parity_wasm::elements::Error>)
    ensures
        r is Ok <==> module_parses(bytes@),
        !has_module_header(bytes@) ==> r is Err,
{
    parity_wasm::deserialize_buffer::<parity_wasm::elements::Module>(bytes)
}

/// Relies on the `Display` impl of `parity_wasm::elements::Error`, which
/// describes the error.
#[verifier::external_body]
fn describe_wasm_error(e: &parity_wasm::elements::Error) -> String {
    e.to_string()
}

/// Why a module could not be prepared.
#[derive(Debug, Clone)]
pub enum PreprocessingError {
    Deserialize(String),
    OperationForbiddenByGasRules,
    StackLimiter,
}

/// The gas costs of Wasm instructions, and the limits of a module.
#[derive(Clone, Copy, Debug, PartialEq, Eq, Structural)]
pub struct WasmCosts {
    /// Default cost of an instruction.
    pub regular: u32,
    /// Cost of a division.
    pub div: u32,
    /// Cost of a multiplication.
    pub mul: u32,
    /// Cost of a memory access.
    pub mem: u32,
    /// Cost of each initial memory page.
    pub initial_mem: u32,
    /// Cost of growing memory by a page.
    pub grow_mem: u32,
    /// Cost of copying a byte of memory.
    pub memcpy: u32,
    /// Greatest stack height of a module.
    pub max_stack_height: u32,
    /// Multiplier of instruction costs.
    pub opcodes_mul: u32,
    /// Divisor of instruction costs.
    pub opcodes_div: u32,
}

/// Prepares modules for execution.
pub struct Preprocessor {
    pub wasm_costs: WasmCosts,
    pub mem_pages: u32,
}

impl Preprocessor {
    /// A preprocessor with the given costs and memory of `MEM_PAGES` pages.
    pub fn new(wasm_costs: WasmCosts) -> (r: Preprocessor)
        ensures
            r.wasm_costs == wasm_costs,
            r.mem_pages == MEM_PAGES,
    {
        Preprocessor { wasm_costs, mem_pages: MEM_PAGES }
    }
}

/// Parses a module without instrumenting it. Bytes that do not open with the
/// Wasm header are refused.
pub fn deserialize(module_bytes: &[u8]) -> (r: Result<parity_wasm::elements::Module, PreprocessingError>)
    ensures
        r is Ok || r matches Err(PreprocessingError::Deserialize(_)),
        r is Ok <==> module_parses(module_bytes@),
        !has_module_header(module_bytes@) ==> r is Err,
{
    match parse_module(module_bytes) {
        Ok(m) => Ok(m),
        Err(e) => Err(PreprocessingError::Deserialize(describe_wasm_error(&e))),
    }
}

} // verus!
