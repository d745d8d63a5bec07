use execution_engine::socket::Socket;
use execution_engine::wasm_prep::{deserialize, PreprocessingError, Preprocessor, WasmCosts, MEM_PAGES};

fn costs() -> WasmCosts {
    WasmCosts {
        regular: 1,
        div: 16,
        mul: 4,
        mem: 2,
        initial_mem: 4096,
        grow_mem: 8192,
        memcpy: 1,
        max_stack_height: 65536,
        opcodes_mul: 3,
        opcodes_div: 8,
    }
}

#[test]
fn preprocessor_uses_the_fixed_page_count() {
    let p = Preprocessor::new(costs());
    assert_eq!(p.mem_pages, MEM_PAGES);
    assert_eq!(p.mem_pages, 64);
    assert_eq!(p.wasm_costs, costs());
}

#[test]
fn bytes_without_a_wasm_header_do_not_parse() {
    match deserialize(&[1, 2, 3]) {
        Err(PreprocessingError::Deserialize(_)) => {}
        _ => panic!("should fail to deserialize"),
    }
    match deserialize(&[]) {
        Err(PreprocessingError::Deserialize(_)) => {}
        _ => panic!("should fail to deserialize"),
    }
}

#[test]
fn an_empty_module_parses() {
    assert!(deserialize(&[0x00, 0x61, 0x73, 0x6d, 1, 0, 0, 0]).is_ok());
}

#[test]
fn socket_keeps_its_path() {
    let s = Socket::new("/tmp/engine.sock".to_string());
    assert_eq!(s.value(), "/tmp/engine.sock");
    assert_eq!(s.as_str(), "/tmp/engine.sock");
}
