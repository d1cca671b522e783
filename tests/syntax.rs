use hotswap::syntax::{arg_idents, arg_types, get_fn_info, mod_walk, return_type, FnArg, FnDecl, Item, ItemKind, Module, Pat};

fn ident(s: &str) -> Pat {
    Pat::Ident(s.to_string())
}

fn arg(pat: Pat, ty: &str) -> FnArg {
    FnArg { pat, ty: ty.to_string() }
}

#[test]
fn descriptor_of_plain_function() {
    let item = Item {
        ident: "scale".to_string(),
        attrs: vec!["hotswap".to_string()],
        public: false,
        kind: ItemKind::Fn(
            FnDecl {
                inputs: vec![arg(ident("x"), "f64"), arg(ident("factor"), "u32")],
                output: Some("f64".to_string()),
            },
            "{ x * factor as f64 }".to_string(),
        ),
    };
    let info = get_fn_info(&item);
    assert_eq!(info.name, "scale");
    assert_eq!(info.input_types, vec!["f64".to_string(), "u32".to_string()]);
    assert_eq!(info.input_idents, vec!["x".to_string(), "factor".to_string()]);
    assert_eq!(info.output_type, "f64");
}

#[test]
fn missing_return_type_is_unit() {
    let decl = FnDecl { inputs: Vec::new(), output: None };
    assert_eq!(return_type(&decl), "()");
    assert!(arg_idents(&decl).is_empty());
    assert!(arg_types(&decl).is_empty());
}

#[test]
fn first_binding_of_nested_patterns() {
    let decl = FnDecl {
        inputs: vec![
            arg(Pat::Ref(Box::new(ident("r"))), "&u8"),
            arg(Pat::Wild, "u16"),
            arg(Pat::Tuple(vec![Pat::Wild, Pat::Tuple(vec![ident("a"), ident("b")]), ident("c")]), "(u8, (u8, u8), u8)"),
        ],
        output: Some("bool".to_string()),
    };
    assert_eq!(arg_idents(&decl), vec!["r".to_string(), "a".to_string()]);
    assert_eq!(
        arg_types(&decl),
        vec!["&u8".to_string(), "u16".to_string(), "(u8, (u8, u8), u8)".to_string()]
    );
}

fn item(name: &str, attrs: &[&str], kind: ItemKind) -> Item {
    Item {
        ident: name.to_string(),
        attrs: attrs.iter().map(|a| a.to_string()).collect(),
        public: false,
        kind,
    }
}

fn unit_fn() -> ItemKind {
    ItemKind::Fn(FnDecl { inputs: Vec::new(), output: None }, "{}".to_string())
}

#[test]
fn mod_walk_maps_items_and_opens_nested_modules() {
    let inner = Module { items: vec![item("deep", &["hotswap"], unit_fn()), item("CONST", &[], ItemKind::Other)] };
    let m = Module {
        items: vec![
            item("top", &["hotswap"], unit_fn()),
            item("plain", &[], unit_fn()),
            item("nested", &[], ItemKind::Mod(inner)),
        ],
    };
    let tag = |mut it: Item| {
        if it.attrs.iter().any(|a| a == "hotswap") {
            it.public = true;
            it.attrs.push("no_mangle".to_string());
        }
        it
    };
    let r = mod_walk(m, &tag);
    assert_eq!(r.items.len(), 3);
    assert!(r.items[0].public);
    assert_eq!(r.items[0].attrs, vec!["hotswap".to_string(), "no_mangle".to_string()]);
    assert!(!r.items[1].public);
    assert!(r.items[1].attrs.is_empty());
    assert!(r.items[2].public);
    match &r.items[2].kind {
        ItemKind::Mod(sub) => {
            assert_eq!(sub.items.len(), 2);
            assert_eq!(sub.items[0].ident, "deep");
            assert!(sub.items[0].public);
            assert!(!sub.items[1].public);
        }
        _ => panic!("nested module lost"),
    }
}

#[test]
fn mod_walk_of_empty_module() {
    let r = mod_walk(Module { items: Vec::new() }, &|it: Item| it);
    assert!(r.items.is_empty());
}
