//! How a crate's modules are rewritten for hot reloading: in the library
//! build the tagged functions are exported, in the binary build their bodies
//! call through the runtime and their descriptors are collected.
use vstd::prelude::*;

use crate::codegen::{fn_body, joined, trampoline, views, HotswapFnInfo};
use crate::syntax::{
    get_fn_info, idents_of, lemma_walked_weaken, mod_walk, output_of, types_of, walked_by, Item, ItemKind,
    Module,
};

verus! {

/// The item carries the `hotswap` attribute.
pub open spec fn is_hotswap(i: Item) -> bool {
    exists|k: int| 0 <= k < i.attrs@.len() && i.attrs@[k]@ == "hotswap"@
}

fn has_hotswap_attr(attrs: &Vec<String>) -> (r: bool)
    ensures
        r == exists|k: int| 0 <= k < attrs@.len() && attrs@[k]@ == "hotswap"@,
{
    let tag = String::from_str("hotswap");
    let mut k: usize = 0;
    while k < attrs.len()
        invariant
            k <= attrs@.len(),
            tag@ == "hotswap"@,
            forall|j: int| 0 <= j < k ==> attrs@[j]@ != "hotswap"@,
        decreases attrs@.len() - k,
    {
        if attrs[k] == tag {
            return true;
        }
        k = k + 1;
    }
    false
}

/// The attributes of the root module of the library build: warnings about
/// unused code are silenced, since much of a program goes unused there.
pub fn expand_lib_attrs(attrs: Vec<String>) -> (r: Vec<String>)
    ensures
        views(r@) == seq!["allow(unused_features)"@, "allow(dead_code)"@, "allow(unused_imports)"@] + views(attrs@),
{
    let mut attrs = attrs;
    let ghost orig = views(attrs@);
    attrs.insert(0, String::from_str("allow(unused_imports)"));
    attrs.insert(0, String::from_str("allow(dead_code)"));
    attrs.insert(0, String::from_str("allow(unused_features)"));
    assert(views(attrs@) =~= seq!["allow(unused_features)"@, "allow(dead_code)"@, "allow(unused_imports)"@] + orig);
    attrs
}

/// What the library build makes of function `i`: it becomes public and is
/// exported under its own name. Other items stay as they are.
pub open spec fn lib_fn(i: Item, o: Item) -> bool {
    if i.kind is Fn {
        &&& o.ident == i.ident
        &&& o.kind == i.kind
        &&& o.public
        &&& views(o.attrs@) == views(i.attrs@).push("no_mangle"@)
    } else {
        o == i
    }
}

/// The library build of `item`.
pub fn expand_lib_fn(item: Item) -> (r: Item)
    ensures
        lib_fn(item, r),
{
    let is_fn = match &item.kind {
        ItemKind::Fn(..) => true,
        _ => false,
    };
    if !is_fn {
        return item;
    }
    let Item { ident, attrs, public, kind } = item;
    let mut attrs = attrs;
    let ghost before = views(attrs@);
    attrs.push(String::from_str("no_mangle"));
    assert(views(attrs@) =~= before.push("no_mangle"@));
    Item { ident, attrs, public: true, kind }
}

/// What the library build makes of an item that is not a module.
pub open spec fn lib_item(i: Item, o: Item) -> bool {
    if is_hotswap(i) {
        lib_fn(i, o)
    } else {
        o == i
    }
}

fn expand_lib_item(item: Item) -> (r: Item)
    ensures
        lib_item(item, r),
{
    if has_hotswap_attr(&item.attrs) {
        expand_lib_fn(item)
    } else {
        item
    }
}

/// The library build of module `m`: every function tagged `hotswap`, at any
/// depth, is exported.
pub fn expand_lib_mod(m: Module) -> (r: Module)
    ensures
        walked_by(m, r, |i: Item, o: Item| lib_item(i, o)),
{
    let ghost m0 = m;
    let r = mod_walk(m, &expand_lib_item);
    proof {
        lemma_walked_weaken(
            m0,
            r,
            |i: Item, o: Item| expand_lib_item.ensures((i,), o),
            |i: Item, o: Item| lib_item(i, o),
        );
    }
    r
}

/// `info` is the descriptor of function item `i`.
pub open spec fn describes(info: HotswapFnInfo, i: Item) -> bool {
    &&& i.kind is Fn
    &&& info.name@ == i.ident@
    &&& views(info.input_types@) == types_of(i.kind->Fn_0.inputs@)
    &&& views(info.input_idents@) == idents_of(i.kind->Fn_0.inputs@)
    &&& info.output_type@ == output_of(i.kind->Fn_0.output)
}

/// What the binary build makes of function `i`: the same function, whose
/// body calls the current implementation through the runtime.
pub open spec fn bin_fn(i: Item, o: Item) -> bool {
    let decl = i.kind->Fn_0;
    &&& i.kind is Fn
    &&& o.ident == i.ident
    &&& o.attrs == i.attrs
    &&& o.public == i.public
    &&& o.kind is Fn
    &&& o.kind->Fn_0 == decl
    &&& o.kind->Fn_1@ == trampoline(
        i.ident@,
        joined(types_of(decl.inputs@)),
        output_of(decl.output),
        joined(idents_of(decl.inputs@)),
    )
}

/// The binary build of function `item`; its descriptor is appended to
/// `hotswap_fns`.
pub fn expand_bin_fn(item: Item, hotswap_fns: &mut Vec<HotswapFnInfo>) -> (r: Item)
    requires
        item.kind is Fn,
    ensures
        bin_fn(item, r),
        final(hotswap_fns)@.len() == old(hotswap_fns)@.len() + 1,
        final(hotswap_fns)@.subrange(0, old(hotswap_fns)@.len() as int) == old(hotswap_fns)@,
        describes(final(hotswap_fns)@.last(), item),
{
    let info = get_fn_info(&item);
    let body = fn_body(&info);
    let Item { ident, attrs, public, kind } = item;
    let r = match kind {
        ItemKind::Fn(decl, _) => Item { ident, attrs, public, kind: ItemKind::Fn(decl, body) },
        other => {
            proof {
                assert(false);
            }
            Item { ident, attrs, public, kind: other }
        },
    };
    let ghost pre = hotswap_fns@;
    hotswap_fns.push(info);
    assert(hotswap_fns@.subrange(0, pre.len() as int) =~= pre);
    r
}

/// What the binary build makes of an item that is not a module.
pub open spec fn bin_item(i: Item, o: Item) -> bool {
    if is_hotswap(i) && i.kind is Fn {
        bin_fn(i, o)
    } else {
        o == i
    }
}

/// The functions tagged `hotswap` in `m` and its nested modules, in order.
pub open spec fn hotswap_items(m: Module) -> Seq<Item>
    decreases m,
{
    hotswap_items_among(m.items@)
}

/// The functions tagged `hotswap` among `items` and in their nested modules.
pub open spec fn hotswap_items_among(items: Seq<Item>) -> Seq<Item>
    decreases items,
{
    if items.len() == 0 {
        Seq::empty()
    } else {
        let last = items[items.len() - 1];
        let here = match last.kind {
            ItemKind::Mod(sub) => hotswap_items(sub),
            ItemKind::Fn(..) => if is_hotswap(last) {
                seq![last]
            } else {
                Seq::empty()
            },
            ItemKind::Other => Seq::empty(),
        };
        hotswap_items_among(items.subrange(0, items.len() - 1)) + here
    }
}

/// `post` is `pre` followed by one descriptor for each of `items`, in order.
pub open spec fn appended(pre: Seq<HotswapFnInfo>, post: Seq<HotswapFnInfo>, items: Seq<Item>) -> bool {
    &&& post.len() == pre.len() + items.len()
    &&& post.subrange(0, pre.len() as int) == pre
    &&& forall|j: int| 0 <= j < items.len() ==> describes(#[trigger] post[pre.len() + j], items[j])
}

/// The binary build of module `m`: every function tagged `hotswap`, at any
/// depth, calls through the runtime, and the descriptors of those functions
/// are appended to `hotswap_fns` in the order they appear.
pub fn expand_bin_mod(m: Module, hotswap_fns: &mut Vec<HotswapFnInfo>) -> (r: Module)
    ensures
        walked_by(m, r, |i: Item, o: Item| bin_item(i, o)),
        appended(old(hotswap_fns)@, final(hotswap_fns)@, hotswap_items(m)),
    decreases m,
{
    let ghost orig = m.items@;
    let ghost fns0 = hotswap_fns@;
    let mut items = m.items;
    let mut out: Vec<Item> = Vec::new();
    assert(orig.subrange(0, orig.len() as int) =~= orig);
    assert(orig.subrange(0, 0) =~= Seq::<Item>::empty());
    assert(hotswap_fns@.subrange(0, fns0.len() as int) =~= fns0);
    while items.len() > 0
        invariant
            orig == m.items@,
            out@.len() + items@.len() == orig.len(),
            items@ == orig.subrange(out@.len() as int, orig.len() as int),
            forall|k: int|
                0 <= k < out@.len() ==> crate::syntax::item_walked_by(
                    #[trigger] orig[k],
                    out@[k],
                    |i: Item, o: Item| bin_item(i, o),
                ),
            appended(fns0, hotswap_fns@, hotswap_items_among(orig.subrange(0, out@.len() as int))),
        decreases items@.len(),
    {
        let ghost k = out@.len() as int;
        let ghost done = hotswap_items_among(orig.subrange(0, k));
        let ghost mid = hotswap_fns@;
        let item = items.remove(0);
        assert(item == orig[k]);
        proof {
            let s = orig.subrange(0, k + 1);
            assert(s.subrange(0, s.len() - 1) =~= orig.subrange(0, k));
            assert(s[s.len() - 1] == orig[k]);
        }
        let is_fn = match &item.kind {
            ItemKind::Fn(..) => true,
            _ => false,
        };
        let walked_item = if is_fn {
            if has_hotswap_attr(&item.attrs) {
                let e = expand_bin_fn(item, hotswap_fns);
                proof {
                    let here = seq![orig[k]];
                    assert(hotswap_items_among(orig.subrange(0, k + 1)) == done + here);
                    let post = hotswap_fns@;
                    assert(post.subrange(0, fns0.len() as int) =~= fns0) by {
                        assert(post.subrange(0, mid.len() as int) == mid);
                        assert(mid.subrange(0, fns0.len() as int) == fns0);
                        assert forall|j: int| 0 <= j < fns0.len() implies post.subrange(0, fns0.len() as int)[j]
                            == fns0[j] by {
                            assert(post[j] == mid[j]);
                        }
                    }
                    assert forall|j: int| 0 <= j < (done + here).len() implies describes(
                        #[trigger] post[fns0.len() + j],
                        (done + here)[j],
                    ) by {
                        if j < done.len() {
                            assert(post[fns0.len() + j] == mid[fns0.len() + j]);
                        }
                    }
                }
                e
            } else {
                proof {
                    assert(hotswap_items_among(orig.subrange(0, k + 1)) =~= done);
                }
                item
            }
        } else {
            let Item { ident, attrs, public, kind } = item;
            match kind {
                ItemKind::Mod(sub) => {
                    assert(decreases_to!(m => sub)) by {
                        assert(decreases_to!(m => m.items));
                        assert(decreases_to!(m.items => m.items@));
                        assert(decreases_to!(m.items@ => m.items@[k]));
                        assert(decreases_to!(m.items@[k] => m.items@[k].kind));
                    }
                    let ghost sub0 = sub;
                    let inner = expand_bin_mod(sub, hotswap_fns);
                    proof {
                        let here = hotswap_items(sub0);
                        assert(hotswap_items_among(orig.subrange(0, k + 1)) == done + here);
                        let post = hotswap_fns@;
                        assert(post.subrange(0, fns0.len() as int) =~= fns0) by {
                            assert forall|j: int| 0 <= j < fns0.len() implies post.subrange(
                                0,
                                fns0.len() as int,
                            )[j] == fns0[j] by {
                                assert(post.subrange(0, mid.len() as int)[j] == mid[j]);
                                assert(mid.subrange(0, fns0.len() as int)[j] == fns0[j]);
                            }
                        }
                        assert forall|j: int| 0 <= j < (done + here).len() implies describes(
                            #[trigger] post[fns0.len() + j],
                            (done + here)[j],
                        ) by {
                            if j < done.len() {
                                assert(post.subrange(0, mid.len() as int)[fns0.len() + j] == mid[fns0.len() + j]);
                            } else {
                                let j2 = j - done.len();
                                assert(describes(post[mid.len() + j2], here[j2]));
                            }
                        }
                    }
                    Item { ident, attrs, public: true, kind: ItemKind::Mod(inner) }
                },
                other => {
                    proof {
                        assert(hotswap_items_among(orig.subrange(0, k + 1)) =~= done);
                    }
                    Item { ident, attrs, public, kind: other }
                },
            }
        };
        out.push(walked_item);
        assert(items@ =~= orig.subrange(out@.len() as int, orig.len() as int));
    }
    Module { items: out }
}

} // verus!
