use hotswap::codegen::HotswapFnInfo;
use hotswap::expand::{expand_bin_fn, expand_bin_mod, expand_lib_attrs, expand_lib_fn, expand_lib_mod};
use hotswap::syntax::{FnArg, FnDecl, Item, ItemKind, Module, Pat};

fn strings(v: &[&str]) -> Vec<String> {
    v.iter().map(|s| s.to_string()).collect()
}

fn add_fn(name: &str, attrs: &[&str]) -> Item {
    Item {
        ident: name.to_string(),
        attrs: strings(attrs),
        public: false,
        kind: ItemKind::Fn(
            FnDecl {
                inputs: vec![
                    FnArg { pat: Pat::Ident("a".to_string()), ty: "i32".to_string() },
                    FnArg { pat: Pat::Ident("b".to_string()), ty: "i32".to_string() },
                ],
                output: Some("i32".to_string()),
            },
            "{ a + b }".to_string(),
        ),
    }
}

fn other(name: &str, attrs: &[&str]) -> Item {
    Item { ident: name.to_string(), attrs: strings(attrs), public: false, kind: ItemKind::Other }
}

fn body(item: &Item) -> &str {
    match &item.kind {
        ItemKind::Fn(_, b) => b,
        _ => panic!("not a function"),
    }
}

#[test]
fn lib_attrs_silence_unused_warnings() {
    let r = expand_lib_attrs(strings(&["feature(x)"]));
    assert_eq!(
        r,
        strings(&["allow(unused_features)", "allow(dead_code)", "allow(unused_imports)", "feature(x)"])
    );
}

#[test]
fn lib_fn_is_exported() {
    let r = expand_lib_fn(add_fn("add", &["hotswap"]));
    assert!(r.public);
    assert_eq!(r.attrs, strings(&["hotswap", "no_mangle"]));
    assert_eq!(body(&r), "{ a + b }");
    let o = expand_lib_fn(other("X", &["hotswap"]));
    assert!(!o.public);
    assert_eq!(o.attrs, strings(&["hotswap"]));
}

#[test]
fn lib_mod_exports_tagged_functions_at_any_depth() {
    let inner = Module { items: vec![add_fn("deep", &["hotswap"]), add_fn("plain", &[])] };
    let m = Module {
        items: vec![
            add_fn("add", &["hotswap"]),
            Item { ident: "inner".to_string(), attrs: Vec::new(), public: false, kind: ItemKind::Mod(inner) },
        ],
    };
    let r = expand_lib_mod(m);
    assert_eq!(r.items[0].attrs, strings(&["hotswap", "no_mangle"]));
    assert!(r.items[1].public);
    match &r.items[1].kind {
        ItemKind::Mod(sub) => {
            assert!(sub.items[0].public);
            assert_eq!(sub.items[0].attrs, strings(&["hotswap", "no_mangle"]));
            assert!(!sub.items[1].public);
            assert!(sub.items[1].attrs.is_empty());
        }
        _ => panic!("nested module lost"),
    }
}

#[test]
fn bin_fn_calls_through_runtime_and_records_descriptor() {
    let mut fns: Vec<HotswapFnInfo> = Vec::new();
    let r = expand_bin_fn(add_fn("add", &["hotswap"]), &mut fns);
    assert_eq!(
        body(&r),
        "{ let func = ::_HOTSWAP_RUNTIME::RELOADER.lookup::<fn(i32, i32) -> i32>(\"add\"); (func.get())(a, b) }"
    );
    assert_eq!(r.attrs, strings(&["hotswap"]));
    assert_eq!(fns.len(), 1);
    assert_eq!(fns[0].name, "add");
    assert_eq!(fns[0].input_idents, strings(&["a", "b"]));
}

#[test]
fn bin_mod_collects_tagged_functions_in_order() {
    let inner = Module { items: vec![add_fn("second", &["hotswap"]), other("S", &["hotswap"])] };
    let m = Module {
        items: vec![
            add_fn("first", &["hotswap"]),
            add_fn("untouched", &[]),
            Item { ident: "inner".to_string(), attrs: Vec::new(), public: false, kind: ItemKind::Mod(inner) },
            add_fn("third", &["inline", "hotswap"]),
        ],
    };
    let mut fns: Vec<HotswapFnInfo> = Vec::new();
    let r = expand_bin_mod(m, &mut fns);
    let names: Vec<&str> = fns.iter().map(|f| f.name.as_str()).collect();
    assert_eq!(names, vec!["first", "second", "third"]);
    assert!(body(&r.items[0]).contains("lookup::<fn(i32, i32) -> i32>(\"first\")"));
    assert_eq!(body(&r.items[1]), "{ a + b }");
    assert!(r.items[2].public);
    assert!(body(&r.items[3]).contains("(\"third\")"));
}
