use hotswap::artifact::{copy_name, decimal_string, dylib_name, Platform};
use hotswap::codegen::{arg, comma_separated_tokens, crate_name, crate_type, fn_body, HotswapFnInfo};

fn strings(v: &[&str]) -> Vec<String> {
    v.iter().map(|s| s.to_string()).collect()
}

#[test]
fn comma_separated_joins_entries() {
    assert_eq!(comma_separated_tokens(&strings(&["a", "b", "c"])), "a, b, c");
    assert_eq!(comma_separated_tokens(&strings(&["x"])), "x");
    assert_eq!(comma_separated_tokens(&Vec::new()), "");
}

#[test]
fn fn_body_calls_through_current_token() {
    let info = HotswapFnInfo {
        name: "add".to_string(),
        input_types: strings(&["i32", "i32"]),
        input_idents: strings(&["a", "b"]),
        output_type: "i32".to_string(),
    };
    assert_eq!(
        fn_body(&info),
        "{ let func = ::_HOTSWAP_RUNTIME::RELOADER.lookup::<fn(i32, i32) -> i32>(\"add\"); (func.get())(a, b) }"
    );
}

#[test]
fn fn_body_without_arguments() {
    let info = HotswapFnInfo {
        name: "tick".to_string(),
        input_types: Vec::new(),
        input_idents: Vec::new(),
        output_type: "()".to_string(),
    };
    assert_eq!(
        fn_body(&info),
        "{ let func = ::_HOTSWAP_RUNTIME::RELOADER.lookup::<fn() -> ()>(\"tick\"); (func.get())() }"
    );
}

#[test]
fn arg_takes_word_after_first_occurrence() {
    let args = strings(&["rustc", "--crate-name", "demo", "--crate-type", "bin", "--crate-type", "dylib"]);
    assert_eq!(arg(&args, &"--crate-name".to_string()), Some("demo".to_string()));
    assert_eq!(crate_type(&args), Some("bin".to_string()));
    assert_eq!(crate_name(&args), Some("demo".to_string()));
    assert_eq!(arg(&args, &"--edition".to_string()), None);
}

#[test]
fn arg_at_end_has_no_value() {
    let args = strings(&["rustc", "--crate-type"]);
    assert_eq!(crate_type(&args), None);
    assert_eq!(crate_name(&args), None);
}

#[test]
fn module_file_names_per_platform() {
    let n = "demo".to_string();
    assert_eq!(dylib_name(Platform::Linux, &n), "libdemo.so");
    assert_eq!(dylib_name(Platform::MacOs, &n), "demo.dylib");
    assert_eq!(dylib_name(Platform::Windows, &n), "demo.dll");
    assert_eq!(copy_name(Platform::Linux, &n, 0), "libdemo0.so");
    assert_eq!(copy_name(Platform::MacOs, &n, 12), "demo12.dylib");
    assert_eq!(copy_name(Platform::Windows, &n, 305), "demo305.dll");
}

#[test]
fn decimal_of_numbers() {
    assert_eq!(decimal_string(0), "0");
    assert_eq!(decimal_string(9), "9");
    assert_eq!(decimal_string(10), "10");
    assert_eq!(decimal_string(1234567890), "1234567890");
    assert_eq!(decimal_string(u64::MAX), "18446744073709551615");
}
