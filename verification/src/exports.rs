use vstd::prelude::*;
use vstd::string::StrSliceExecFns;
use wasmparser::{BinaryReaderError, ComponentExternalKind, Parser, Payload};

verus! {

/// wasmparser's `BinaryReaderError`, why a binary could not be read.
#[verifier::external_type_specification]
#[verifier::external_body]
pub struct ExBinaryReaderError(BinaryReaderError);

/// The exports found in the component export sections of a component
/// binary, nested components included, in the order of the binary: each
/// export's name and whether it exports a function. `None` when the binary
/// cannot be read that far.
pub uninterp spec fn component_exports(component: Seq<u8>) -> Option<Seq<(Seq<char>, bool)>>;

/// Walks the payloads of a component binary with `wasmparser::Parser::parse_all`
/// and lists the items of every component export section, stopping at the
/// first error.
#[verifier::external_body]
fn parse_component_exports(component: &[u8]) -> (r: Result<Vec<(String, bool)>, BinaryReaderError>)
    ensures
        match r {
            Ok(exports) => component_exports(component@) == Some(
                exports@.map_values(|e: (String, bool)| (e.0@, e.1)),
            ),
            Err(_) => component_exports(component@) is None,
        },
{
    let mut exports = Vec::new();
    for payload in Parser::new(0).parse_all(component) {
        if let Payload::ComponentExportSection(reader) = payload? {
            for export in reader {
                let export = export?;
                exports.push((export.name.0.to_string(), export.kind == ComponentExternalKind::Func));
            }
        }
    }
    Ok(exports)
}

/// The prefix that names a guest's poll functions.
pub open spec fn poll_prefix() -> Seq<char> {
    seq!['i', 's', 'y', 's', 'w', 'a', 's', 'f', 'a', '-', 'p', 'o', 'l', 'l']
}

/// Whether a name starts with the poll prefix.
pub open spec fn has_poll_prefix(name: Seq<char>) -> bool {
    name.len() >= poll_prefix().len() && name.subrange(0, poll_prefix().len() as int) == poll_prefix()
}

/// Whether an export is a poll function: a function whose name starts
/// with the poll prefix.
pub open spec fn is_poll_export(e: (Seq<char>, bool)) -> bool {
    e.1 && has_poll_prefix(e.0)
}

/// The names of the function exports that start with the poll prefix, in
/// order.
pub open spec fn poll_names(exports: Seq<(Seq<char>, bool)>) -> Seq<Seq<char>>
    decreases exports.len(),
{
    if exports.len() == 0 {
        Seq::empty()
    } else {
        let rest = poll_names(exports.drop_last());
        let last = exports.last();
        if is_poll_export(last) {
            rest.push(last.0)
        } else {
            rest
        }
    }
}

/// Why a component's poll functions could not be found.
pub enum LoadError {
    /// The component binary could not be read.
    Parse(BinaryReaderError),
    /// The component exports no function whose name starts with the prefix.
    NoPollFunctions,
}

/// Whether `name` starts with the poll prefix.
pub fn is_poll_name(name: &str) -> (r: bool)
    ensures
        r == has_poll_prefix(name@),
{
    let prefix: [char; 14] = ['i', 's', 'y', 's', 'w', 'a', 's', 'f', 'a', '-', 'p', 'o', 'l', 'l'];
    assert(prefix@ =~= poll_prefix());
    if name.unicode_len() < 14 {
        return false;
    }
    let mut i: usize = 0;
    while i < 14
        invariant
            i <= 14,
            name@.len() >= 14,
            prefix@ == poll_prefix(),
            forall|j: int| 0 <= j < i ==> name@[j] == poll_prefix()[j],
        decreases 14 - i,
    {
        if name.get_char(i) != prefix[i] {
            assert(name@.subrange(0, 14)[i as int] != poll_prefix()[i as int]);
            return false;
        }
        i = i + 1;
    }
    assert(name@.subrange(0, 14) =~= poll_prefix());
    true
}

/// The names of the function exports that start with the poll prefix, in
/// the order of `exports`.
pub fn poll_export_names(exports: &Vec<(String, bool)>) -> (names: Vec<String>)
    ensures
        names@.map_values(|s: String| s@) == poll_names(
            exports@.map_values(|e: (String, bool)| (e.0@, e.1)),
        ),
{
    let ghost plain = exports@.map_values(|e: (String, bool)| (e.0@, e.1));
    let mut names: Vec<String> = Vec::new();
    let mut i: usize = 0;
    while i < exports.len()
        invariant
            i <= exports@.len(),
            plain == exports@.map_values(|e: (String, bool)| (e.0@, e.1)),
            names@.map_values(|s: String| s@) == poll_names(plain.take(i as int)),
        decreases exports@.len() - i,
    {
        assert(plain.take(i as int + 1).drop_last() =~= plain.take(i as int));
        let (name, is_func) = (&exports[i].0, exports[i].1);
        if is_func && is_poll_name(name.as_str()) {
            names.push(name.clone());
        }
        assert(names@.map_values(|s: String| s@) =~= poll_names(plain.take(i as int + 1)));
        i = i + 1;
    }
    assert(plain.take(exports@.len() as int) =~= plain);
    names
}

/// The names of a component's poll functions: its function exports whose
/// names start with `isyswasfa-poll`, in order. Fails when the binary cannot
/// be read or no such export exists.
pub fn load_poll_names(component: &[u8]) -> (r: Result<Vec<String>, LoadError>)
    ensures
        match r {
            Ok(names) => component_exports(component@) is Some && names@.len() > 0
                && names@.map_values(|s: String| s@) == poll_names(component_exports(component@)->0),
            Err(LoadError::Parse(_)) => component_exports(component@) is None,
            Err(LoadError::NoPollFunctions) => component_exports(component@) is Some && poll_names(
                component_exports(component@)->0,
            ).len() == 0,
        },
{
    let exports = match parse_component_exports(component) {
        Ok(exports) => exports,
        Err(e) => return Err(LoadError::Parse(e)),
    };
    let names = poll_export_names(&exports);
    if names.len() == 0 {
        Err(LoadError::NoPollFunctions)
    } else {
        Ok(names)
    }
}

/// The poll names are exactly the names of the function exports that start
/// with the poll prefix, in the order of the exports.
pub proof fn law_poll_names_are_the_prefixed_functions(exports: Seq<(Seq<char>, bool)>)
    ensures
        poll_names(exports) == exports.filter(|e: (Seq<char>, bool)| is_poll_export(e)).map_values(
            |e: (Seq<char>, bool)| e.0,
        ),
    decreases exports.len(),
{
    reveal(Seq::filter);
    if exports.len() > 0 {
        law_poll_names_are_the_prefixed_functions(exports.drop_last());
        let rest = exports.drop_last().filter(|e: (Seq<char>, bool)| is_poll_export(e));
        let all = exports.filter(|e: (Seq<char>, bool)| is_poll_export(e));
        assert(all == (if is_poll_export(exports.last()) {
            rest.push(exports.last())
        } else {
            rest
        }));
        if is_poll_export(exports.last()) {
            assert(rest.push(exports.last()).map_values(|e: (Seq<char>, bool)| e.0) =~= rest.map_values(
                |e: (Seq<char>, bool)| e.0,
            ).push(exports.last().0));
        }
    } else {
        assert(exports.filter(|e: (Seq<char>, bool)| is_poll_export(e)).map_values(
            |e: (Seq<char>, bool)| e.0,
        ) =~= Seq::<Seq<char>>::empty());
    }
}

} // verus!
