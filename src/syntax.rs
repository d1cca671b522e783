//! A plain model of a crate's module tree: items, function declarations and
//! parameter patterns; how a function's descriptor is read off them, and how
//! a module tree is walked.
use vstd::prelude::*;

use crate::codegen::{views, HotswapFnInfo};

verus! {

/// The binding pattern of a function parameter.
pub enum Pat {
    /// A plain binding, `x` or `mut x`.
    Ident(String),
    /// `_`
    Wild,
    /// `&p`
    Ref(Box<Pat>),
    /// `(p, q, ...)`
    Tuple(Vec<Pat>),
}

/// One parameter: its pattern and the source text of its type.
pub struct FnArg {
    pub pat: Pat,
    pub ty: String,
}

/// A function's parameters and, unless it returns `()`, its return type.
pub struct FnDecl {
    pub inputs: Vec<FnArg>,
    pub output: Option<String>,
}

/// What an item of a module is.
pub enum ItemKind {
    /// A nested module.
    Mod(Module),
    /// A function: its declaration and the source text of its body.
    Fn(FnDecl, String),
    /// Anything else.
    Other,
}

/// An item of a module: its name, the names of its attributes, whether it
/// is public, and what it is.
pub struct Item {
    pub ident: String,
    pub attrs: Vec<String>,
    pub public: bool,
    pub kind: ItemKind,
}

/// A module: its items, in order.
pub struct Module {
    pub items: Vec<Item>,
}

/// `r` is `m` with every nested module made public and walked in turn, and
/// every other item `i` replaced by an item `o` with `rel(i, o)`.
pub open spec fn walked_by(m: Module, r: Module, rel: spec_fn(Item, Item) -> bool) -> bool
    decreases m,
{
    &&& r.items@.len() == m.items@.len()
    &&& forall|k: int| 0 <= k < m.items@.len() ==> item_walked_by(#[trigger] m.items@[k], r.items@[k], rel)
}

/// `o` is what walking a module makes of its item `i`.
pub open spec fn item_walked_by(i: Item, o: Item, rel: spec_fn(Item, Item) -> bool) -> bool
    decreases i,
{
    match i.kind {
        ItemKind::Mod(sub) => {
            &&& o.ident == i.ident
            &&& o.attrs == i.attrs
            &&& o.public
            &&& match o.kind {
                ItemKind::Mod(osub) => walked_by(sub, osub, rel),
                _ => false,
            }
        },
        _ => rel(i, o),
    }
}

/// A walk by `rel1` is a walk by any `rel2` that `rel1` implies.
pub proof fn lemma_walked_weaken(
    m: Module,
    r: Module,
    rel1: spec_fn(Item, Item) -> bool,
    rel2: spec_fn(Item, Item) -> bool,
)
    requires
        walked_by(m, r, rel1),
        forall|i: Item, o: Item| #[trigger] rel1(i, o) ==> rel2(i, o),
    ensures
        walked_by(m, r, rel2),
    decreases m,
{
    assert forall|k: int| 0 <= k < m.items@.len() implies item_walked_by(#[trigger] m.items@[k], r.items@[k], rel2) by {
        let i = m.items@[k];
        let o = r.items@[k];
        assert(item_walked_by(i, o, rel1));
        match i.kind {
            ItemKind::Mod(sub) => {
                assert(decreases_to!(m => sub)) by {
                    assert(decreases_to!(m => m.items));
                    assert(decreases_to!(m.items => m.items@));
                    assert(decreases_to!(m.items@ => m.items@[k]));
                    assert(decreases_to!(m.items@[k] => m.items@[k].kind));
                }
                match o.kind {
                    ItemKind::Mod(osub) => {
                        lemma_walked_weaken(sub, osub, rel1, rel2);
                    },
                    _ => {},
                }
            },
            _ => {},
        }
    }
}

pub open spec fn opt_view(o: Option<String>) -> Option<Seq<char>> {
    match o {
        Some(s) => Some(s@),
        None => None,
    }
}

/// The first name a pattern binds, walking it in order.
pub open spec fn first_ident(p: Pat) -> Option<Seq<char>>
    decreases p,
{
    match p {
        Pat::Ident(s) => Some(s@),
        Pat::Wild => None,
        Pat::Ref(inner) => first_ident(*inner),
        Pat::Tuple(ps) => first_ident_among(ps@),
    }
}

/// The first name any of `ps` binds, walking them in order.
pub open spec fn first_ident_among(ps: Seq<Pat>) -> Option<Seq<char>>
    decreases ps,
{
    if ps.len() == 0 {
        None
    } else {
        match first_ident(ps[0]) {
            Some(s) => Some(s),
            None => first_ident_among(ps.subrange(1, ps.len() as int)),
        }
    }
}

/// The names the parameters bind, one for each parameter that binds any.
pub open spec fn idents_of(args: Seq<FnArg>) -> Seq<Seq<char>>
    decreases args.len(),
{
    if args.len() == 0 {
        Seq::empty()
    } else {
        let prev = idents_of(args.drop_last());
        match first_ident(args.last().pat) {
            Some(s) => prev.push(s),
            None => prev,
        }
    }
}

/// The source text of the parameters' types.
pub open spec fn types_of(args: Seq<FnArg>) -> Seq<Seq<char>> {
    args.map_values(|a: FnArg| a.ty@)
}

/// The source text of the return type; `()` where none is written.
pub open spec fn output_of(output: Option<String>) -> Seq<char> {
    match output {
        Some(t) => t@,
        None => "()"@,
    }
}

fn pat_ident(p: &Pat) -> (r: Option<String>)
    ensures
        opt_view(r) == first_ident(*p),
    decreases p,
{
    match p {
        Pat::Ident(s) => Some(s.clone()),
        Pat::Wild => None,
        Pat::Ref(inner) => pat_ident(inner),
        Pat::Tuple(ps) => pats_ident(ps),
    }
}

fn pats_ident(ps: &Vec<Pat>) -> (r: Option<String>)
    ensures
        opt_view(r) == first_ident_among(ps@),
    decreases ps,
{
    let mut i: usize = 0;
    assert(ps@.subrange(0, ps@.len() as int) =~= ps@);
    while i < ps.len()
        invariant
            i <= ps@.len(),
            first_ident_among(ps@) == first_ident_among(ps@.subrange(i as int, ps@.len() as int)),
        decreases ps@.len() - i,
    {
        let ghost rest = ps@.subrange(i as int, ps@.len() as int);
        assert(rest[0] == ps@[i as int]);
        assert(rest.subrange(1, rest.len() as int) =~= ps@.subrange(i as int + 1, ps@.len() as int));
        match pat_ident(&ps[i]) {
            Some(s) => {
                return Some(s);
            },
            None => {},
        }
        i = i + 1;
    }
    None
}

/// The names the parameters of `decl` bind, in order.
pub fn arg_idents(decl: &FnDecl) -> (r: Vec<String>)
    ensures
        views(r@) == idents_of(decl.inputs@),
{
    let mut r: Vec<String> = Vec::new();
    let mut i: usize = 0;
    while i < decl.inputs.len()
        invariant
            i <= decl.inputs@.len(),
            views(r@) == idents_of(decl.inputs@.subrange(0, i as int)),
        decreases decl.inputs@.len() - i,
    {
        let ghost s = decl.inputs@.subrange(0, i as int + 1);
        assert(s.drop_last() =~= decl.inputs@.subrange(0, i as int));
        assert(s.last() == decl.inputs@[i as int]);
        let ghost before = r@;
        match pat_ident(&decl.inputs[i].pat) {
            Some(name) => {
                r.push(name);
                assert(views(r@) =~= views(before).push(r@.last()@));
            },
            None => {},
        }
        i = i + 1;
    }
    assert(decl.inputs@.subrange(0, decl.inputs@.len() as int) =~= decl.inputs@);
    r
}

/// The source text of the parameter types of `decl`, in order.
pub fn arg_types(decl: &FnDecl) -> (r: Vec<String>)
    ensures
        views(r@) == types_of(decl.inputs@),
{
    let mut r: Vec<String> = Vec::new();
    let mut i: usize = 0;
    while i < decl.inputs.len()
        invariant
            i <= decl.inputs@.len(),
            views(r@) =~= types_of(decl.inputs@.subrange(0, i as int)),
        decreases decl.inputs@.len() - i,
    {
        let ghost before = r@;
        r.push(decl.inputs[i].ty.clone());
        assert(views(r@) =~= views(before).push(decl.inputs@[i as int].ty@));
        assert(types_of(decl.inputs@.subrange(0, i as int + 1)) =~= types_of(decl.inputs@.subrange(0, i as int)).push(
            decl.inputs@[i as int].ty@,
        ));
        i = i + 1;
    }
    assert(decl.inputs@.subrange(0, decl.inputs@.len() as int) =~= decl.inputs@);
    r
}

/// The source text of the return type of `decl`.
pub fn return_type(decl: &FnDecl) -> (r: String)
    ensures
        r@ == output_of(decl.output),
{
    match &decl.output {
        Some(t) => t.clone(),
        None => String::from_str("()"),
    }
}

/// The descriptor of the hot-reloadable function `item`.
pub fn get_fn_info(item: &Item) -> (r: HotswapFnInfo)
    requires
        item.kind is Fn,
    ensures
        r.name@ == item.ident@,
        views(r.input_types@) == types_of(item.kind->Fn_0.inputs@),
        views(r.input_idents@) == idents_of(item.kind->Fn_0.inputs@),
        r.output_type@ == output_of(item.kind->Fn_0.output),
{
    match &item.kind {
        ItemKind::Fn(decl, _) => HotswapFnInfo {
            name: item.ident.clone(),
            input_types: arg_types(decl),
            input_idents: arg_idents(decl),
            output_type: return_type(decl),
        },
        _ => {
            proof {
                assert(false);
            }
            HotswapFnInfo {
                name: String::new(),
                input_types: Vec::new(),
                input_idents: Vec::new(),
                output_type: String::new(),
            }
        },
    }
}

/// Walks `m` and its nested modules: each nested module is made public and
/// walked in turn, every other item is replaced by `item_map` of it.
pub fn mod_walk<F: Fn(Item) -> Item>(m: Module, item_map: &F) -> (r: Module)
    requires
        forall|i: Item| item_map.requires((i,)),
    ensures
        walked_by(m, r, |i: Item, o: Item| item_map.ensures((i,), o)),
    decreases m,
{
    let ghost orig = m.items@;
    let mut items = m.items;
    let mut out: Vec<Item> = Vec::new();
    assert(orig.subrange(0, orig.len() as int) =~= orig);
    while items.len() > 0
        invariant
            orig == m.items@,
            out@.len() + items@.len() == orig.len(),
            items@ == orig.subrange(out@.len() as int, orig.len() as int),
            forall|k: int|
                0 <= k < out@.len() ==> item_walked_by(
                    #[trigger] orig[k],
                    out@[k],
                    |i: Item, o: Item| item_map.ensures((i,), o),
                ),
            forall|i: Item| item_map.requires((i,)),
        decreases items@.len(),
    {
        let ghost k = out@.len() as int;
        let item = items.remove(0);
        assert(item == orig[k]);
        let Item { ident, attrs, public, kind } = item;
        let walked_item = match kind {
            ItemKind::Mod(sub) => {
                assert(decreases_to!(m => sub)) by {
                    assert(decreases_to!(m => m.items));
                    assert(decreases_to!(m.items => m.items@));
                    assert(decreases_to!(m.items@ => m.items@[k]));
                    assert(decreases_to!(m.items@[k] => m.items@[k].kind));
                }
                let inner = mod_walk(sub, item_map);
                Item { ident, attrs, public: true, kind: ItemKind::Mod(inner) }
            },
            other => item_map(Item { ident, attrs, public, kind: other }),
        };
        out.push(walked_item);
        assert(items@ =~= orig.subrange(out@.len() as int, orig.len() as int));
    }
    Module { items: out }
}

} // verus!
