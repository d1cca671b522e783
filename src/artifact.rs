//! Names of the module file a build produces and of the numbered copies the
//! runtime loads from it.
use vstd::prelude::*;

verus! {

/// The operating system family, which decides how module files are named.
#[derive(Clone, Copy, Debug, PartialEq, Eq, Structural)]
pub enum Platform {
    Linux,
    MacOs,
    Windows,
}

/// The decimal digit `d`.
pub open spec fn digit_char(d: nat) -> char {
    if d == 0 {
        '0'
    } else if d == 1 {
        '1'
    } else if d == 2 {
        '2'
    } else if d == 3 {
        '3'
    } else if d == 4 {
        '4'
    } else if d == 5 {
        '5'
    } else if d == 6 {
        '6'
    } else if d == 7 {
        '7'
    } else if d == 8 {
        '8'
    } else {
        '9'
    }
}

/// `n` written in decimal, without leading zeros.
pub open spec fn decimal(n: nat) -> Seq<char>
    decreases n,
{
    if n < 10 {
        seq![digit_char(n)]
    } else {
        decimal(n / 10).push(digit_char(n % 10))
    }
}

/// The file name of the module built from crate `name`, with `tag` between
/// the crate name and the extension.
pub open spec fn module_file_name(p: Platform, name: Seq<char>, tag: Seq<char>) -> Seq<char> {
    match p {
        Platform::Linux => "lib"@ + name + tag + ".so"@,
        Platform::MacOs => name + tag + ".dylib"@,
        Platform::Windows => name + tag + ".dll"@,
    }
}

fn digit_str(d: u64) -> (r: &'static str)
    requires
        d < 10,
    ensures
        r@ == seq![digit_char(d as nat)],
{
    proof {
        reveal_strlit("0");
        reveal_strlit("1");
        reveal_strlit("2");
        reveal_strlit("3");
        reveal_strlit("4");
        reveal_strlit("5");
        reveal_strlit("6");
        reveal_strlit("7");
        reveal_strlit("8");
        reveal_strlit("9");
    }
    let r = if d == 0 {
        "0"
    } else if d == 1 {
        "1"
    } else if d == 2 {
        "2"
    } else if d == 3 {
        "3"
    } else if d == 4 {
        "4"
    } else if d == 5 {
        "5"
    } else if d == 6 {
        "6"
    } else if d == 7 {
        "7"
    } else if d == 8 {
        "8"
    } else {
        "9"
    };
    assert(r@ =~= seq![digit_char(d as nat)]);
    r
}

/// `n` in decimal.
pub fn decimal_string(n: u64) -> (r: String)
    ensures
        r@ == decimal(n as nat),
    decreases n,
{
    if n < 10 {
        String::from_str(digit_str(n))
    } else {
        let mut r = decimal_string(n / 10);
        r.append(digit_str(n % 10));
        assert(r@ =~= decimal((n / 10) as nat).push(digit_char((n % 10) as nat)));
        r
    }
}

fn file_name(p: Platform, name: &String, tag: &String) -> (r: String)
    ensures
        r@ == module_file_name(p, name@, tag@),
{
    match p {
        Platform::Linux => {
            let mut r = String::from_str("lib");
            r.append(name.as_str());
            r.append(tag.as_str());
            r.append(".so");
            r
        },
        Platform::MacOs => {
            let mut r = name.clone();
            r.append(tag.as_str());
            r.append(".dylib");
            r
        },
        Platform::Windows => {
            let mut r = name.clone();
            r.append(tag.as_str());
            r.append(".dll");
            r
        },
    }
}

/// The file a build of crate `name` produces: `lib<name>.so`, `<name>.dylib`
/// or `<name>.dll`.
pub fn dylib_name(p: Platform, name: &String) -> (r: String)
    ensures
        r@ == module_file_name(p, name@, Seq::empty()),
{
    file_name(p, name, &String::new())
}

/// The name of the copy numbered `n` of that file, such as `lib<name><n>.so`.
pub fn copy_name(p: Platform, name: &String, n: u64) -> (r: String)
    ensures
        r@ == module_file_name(p, name@, decimal(n as nat)),
{
    file_name(p, name, &decimal_string(n))
}

} // verus!
