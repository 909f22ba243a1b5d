//! Language-specific demangling of symbol names.

use vstd::prelude::*;

verus! {

/// What `rustc_demangle::try_demangle` makes of a name, if it is a Rust symbol.
pub uninterp spec fn rust_demangled(s: Seq<char>) -> Option<Seq<char>>;

/// What `cpp_demangle` makes of a name, if it is an Itanium C++ symbol.
pub uninterp spec fn cpp_demangled(s: Seq<char>) -> Option<Seq<char>>;

/// Relies on `rustc_demangle::try_demangle` and the `Display` of its result:
/// the demangled text, or nothing when the name is not a Rust symbol.
#[verifier::external_body]
pub fn demangle_rust(s: &String) -> (r: Option<String>)
    ensures
        match r {
            Some(d) => rust_demangled(s@) == Some(d@),
            None => rust_demangled(s@).is_none(),
        },
{
    rustc_demangle::try_demangle(s.as_str()).ok().map(|d| d.to_string())
}

/// Relies on `cpp_demangle::Symbol::new` and `Symbol::demangle`: the
/// demangled text, or nothing when parsing or demangling fails.
#[verifier::external_body]
pub fn demangle_cpp(s: &String) -> (r: Option<String>)
    ensures
        match r {
            Some(d) => cpp_demangled(s@) == Some(d@),
            None => cpp_demangled(s@).is_none(),
        },
{
    cpp_demangle::Symbol::new(s.as_bytes()).ok().and_then(|sym| sym.demangle().ok())
}

} // verus!
