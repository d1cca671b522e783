//! Source text for the call sites of hot-reloadable functions, and the names
//! of the module files the runtime loads.
use vstd::prelude::*;

verus! {

/// What the call site of a hot-reloadable function needs to know about it:
/// its exported name, the source text of its parameter types and names, and
/// that of its return type.
pub struct HotswapFnInfo {
    pub name: String,
    pub input_types: Vec<String>,
    pub input_idents: Vec<String>,
    pub output_type: String,
}

/// The views of a list of strings.
pub open spec fn views(v: Seq<String>) -> Seq<Seq<char>> {
    v.map_values(|s: String| s@)
}

/// `parts` joined by `", "`.
pub open spec fn joined(parts: Seq<Seq<char>>) -> Seq<char>
    decreases parts.len(),
{
    if parts.len() == 0 {
        Seq::empty()
    } else if parts.len() == 1 {
        parts[0]
    } else {
        joined(parts.drop_last()) + ", "@ + parts.last()
    }
}

/// The entries as one comma separated list.
pub fn comma_separated_tokens(entries: &Vec<String>) -> (r: String)
    ensures
        r@ == joined(views(entries@)),
{
    let mut r = String::new();
    let mut i: usize = 0;
    while i < entries.len()
        invariant
            i <= entries@.len(),
            r@ == joined(views(entries@.subrange(0, i as int))),
        decreases entries@.len() - i,
    {
        let ghost before = r@;
        let ghost pre = views(entries@.subrange(0, i as int));
        let ghost now = views(entries@.subrange(0, i as int + 1));
        assert(now.drop_last() =~= pre);
        assert(now.last() == entries@[i as int]@);
        if i > 0 {
            r.append(", ");
        }
        r.append(entries[i].as_str());
        if i == 0 {
            assert(before =~= Seq::<char>::empty());
            assert(r@ =~= now[0]);
        }
        i = i + 1;
    }
    assert(entries@.subrange(0, entries@.len() as int) =~= entries@);
    r
}

/// The source text of the body of a hot-reloadable function with the given
/// name, parameter types, return type and argument list: it takes the current
/// token for `name`, calls through it with the arguments, and gives the
/// token back when the call returns.
pub open spec fn trampoline(name: Seq<char>, types: Seq<char>, output: Seq<char>, args: Seq<char>) -> Seq<char> {
    "{ let func = ::_HOTSWAP_RUNTIME::RELOADER.lookup::<fn("@ + types + ") -> "@ + output + ">(\""@ + name
        + "\"); (func.get())("@ + args + ") }"@
}

/// The body that replaces that of the hot-reloadable function `fn_info`.
pub fn fn_body(fn_info: &HotswapFnInfo) -> (r: String)
    ensures
        r@ == trampoline(
            fn_info.name@,
            joined(views(fn_info.input_types@)),
            fn_info.output_type@,
            joined(views(fn_info.input_idents@)),
        ),
{
    let types = comma_separated_tokens(&fn_info.input_types);
    let args = comma_separated_tokens(&fn_info.input_idents);
    let mut r = String::from_str("{ let func = ::_HOTSWAP_RUNTIME::RELOADER.lookup::<fn(");
    r.append(types.as_str());
    r.append(") -> ");
    r.append(fn_info.output_type.as_str());
    r.append(">(\"");
    r.append(fn_info.name.as_str());
    r.append("\"); (func.get())(");
    r.append(args.as_str());
    r.append(") }");
    r
}

/// The word after the first occurrence of `name` in `args`, if there is one.
pub open spec fn arg_value(args: Seq<Seq<char>>, name: Seq<char>) -> Option<Seq<char>>
    decreases args.len(),
{
    if args.len() == 0 {
        None
    } else if args[0] == name {
        if args.len() >= 2 {
            Some(args[1])
        } else {
            None
        }
    } else {
        arg_value(args.subrange(1, args.len() as int), name)
    }
}

/// The value given to the command line option `arg_name`: the argument
/// right after its first occurrence.
pub fn arg(args: &Vec<String>, arg_name: &String) -> (r: Option<String>)
    ensures
        match r {
            Some(s) => arg_value(views(args@), arg_name@) == Some(s@),
            None => arg_value(views(args@), arg_name@) is None,
        },
{
    let ghost all = views(args@);
    assert(all.subrange(0, all.len() as int) =~= all);
    let mut i: usize = 0;
    while i < args.len()
        invariant
            i <= args@.len(),
            all == views(args@),
            arg_value(all, arg_name@) == arg_value(all.subrange(i as int, all.len() as int), arg_name@),
        decreases args@.len() - i,
    {
        let ghost rest = all.subrange(i as int, all.len() as int);
        assert(rest[0] == args@[i as int]@);
        if args[i] == *arg_name {
            if i + 1 < args.len() {
                assert(rest[1] == args@[i as int + 1]@);
                return Some(args[i + 1].clone());
            }
            return None;
        }
        assert(rest.subrange(1, rest.len() as int) =~= all.subrange(i as int + 1, all.len() as int));
        i = i + 1;
    }
    None
}

/// The crate type the compiler was asked to build.
pub fn crate_type(args: &Vec<String>) -> (r: Option<String>)
    ensures
        match r {
            Some(s) => arg_value(views(args@), "--crate-type"@) == Some(s@),
            None => arg_value(views(args@), "--crate-type"@) is None,
        },
{
    arg(args, &String::from_str("--crate-type"))
}

/// The name of the crate the compiler was asked to build.
pub fn crate_name(args: &Vec<String>) -> (r: Option<String>)
    ensures
        match r {
            Some(s) => arg_value(views(args@), "--crate-name"@) == Some(s@),
            None => arg_value(views(args@), "--crate-name"@) is None,
        },
{
    arg(args, &String::from_str("--crate-name"))
}

} // verus!
