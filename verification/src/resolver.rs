use vstd::prelude::*;

use object::{Object, ObjectSymbol};

use crate::errors::Error;
use crate::strutil::{contains_seq, contains_subslice};
use vstd::string::StringSliceAdditionalSpecFns;
use vstd::utf8::encode_utf8;

verus! {

/// The names in the module's symbol table, in encounter order, when the
/// bytes are a recognized object-file format; `None` otherwise. Both the
/// outcome and the list are functions of the bytes alone.
pub uninterp spec fn parsed_symbols(data: Seq<u8>) -> Option<Seq<Seq<char>>>;

/// A symbol name is a candidate entry point when its UTF-8 bytes contain both
/// the grammar-constructor marker and the target language name. Containment
/// is decided on bytes, as is length below: different toolchains mangle the
/// entry point differently, and the heuristic tolerates that variance.
pub open spec fn is_candidate(name: Seq<char>, target: Seq<char>) -> bool {
    contains_seq(encode_utf8(name), encode_utf8("tree_sitter"@)) && contains_seq(
        encode_utf8(name),
        encode_utf8(target),
    )
}

/// The selected symbol: among candidates, the one with the fewest UTF-8
/// bytes, and on a tie the earliest in encounter order; `None` when there is
/// no candidate at all.
pub open spec fn select_spec(names: Seq<Seq<char>>, target: Seq<char>) -> Option<Seq<char>>
    decreases names.len(),
{
    if names.len() == 0 {
        None
    } else {
        let prior = select_spec(names.drop_last(), target);
        let last = names.last();
        if !is_candidate(last, target) {
            prior
        } else {
            match prior {
                None => Some(last),
                Some(best) => if encode_utf8(last).len() < encode_utf8(best).len() {
                    Some(last)
                } else {
                    Some(best)
                },
            }
        }
    }
}

/// The selection returns nothing exactly when no name is a candidate: a
/// module with no matching symbol is a "no match", never an error.
pub proof fn lemma_select_none_iff_no_candidate(names: Seq<Seq<char>>, target: Seq<char>)
    ensures
        select_spec(names, target) is None <==> (forall|i: int|
            0 <= i < names.len() ==> !is_candidate(#[trigger] names[i], target)),
    decreases names.len(),
{
    if names.len() > 0 {
        lemma_select_none_iff_no_candidate(names.drop_last(), target);
        assert(forall|i: int|
            0 <= i < names.len() - 1 ==> names.drop_last()[i] == #[trigger] names[i]);
    }
}

/// The selected symbol is a candidate from the list, and no candidate in the
/// list has strictly fewer UTF-8 bytes.
pub proof fn lemma_select_is_minimal(names: Seq<Seq<char>>, target: Seq<char>, s: Seq<char>)
    requires
        select_spec(names, target) == Some(s),
    ensures
        is_candidate(s, target),
        exists|i: int| 0 <= i < names.len() && #[trigger] names[i] == s,
        forall|i: int|
            0 <= i < names.len() && is_candidate(#[trigger] names[i], target) ==> encode_utf8(
                s,
            ).len() <= encode_utf8(names[i]).len(),
    decreases names.len(),
{
    if names.len() > 0 {
        let prior = select_spec(names.drop_last(), target);
        assert(forall|i: int|
            0 <= i < names.len() - 1 ==> names.drop_last()[i] == #[trigger] names[i]);
        match prior {
            Some(b) => {
                lemma_select_is_minimal(names.drop_last(), target, b);
                let wit = choose|i: int|
                    0 <= i < names.drop_last().len() && #[trigger] names.drop_last()[i] == b;
                assert(names[wit] == b);
            },
            None => {
                lemma_select_none_iff_no_candidate(names.drop_last(), target);
            },
        }
        if s == names.last() {
            assert(names[names.len() - 1] == s);
        }
    }
}

/// Whether `name` contains both the marker and the target, decided on bytes.
fn candidate_check(name: &str, target: &str) -> (r: bool)
    ensures
        r == is_candidate(name@, target@),
{
    contains_subslice(name.as_bytes(), "tree_sitter".as_bytes()) && contains_subslice(
        name.as_bytes(),
        target.as_bytes(),
    )
}

/// Among `symbols`, the shortest name (in bytes) that contains both the
/// grammar-constructor marker and `target`; ties keep the earliest name.
/// Returns `None` when no name matches both.
pub fn select_candidate(symbols: &Vec<String>, target: &str) -> (r: Option<String>)
    ensures
        match r {
            Some(s) => select_spec(symbols.deep_view(), target@) == Some(s@),
            None => select_spec(symbols.deep_view(), target@) is None,
        },
{
    let n = symbols.len();
    let mut best: Option<&String> = None;
    proof {
        assert(symbols.deep_view().take(0) =~= Seq::<Seq<char>>::empty());
    }
    for i in 0..n
        invariant
            n == symbols@.len(),
            symbols.deep_view().len() == n,
            forall|j: int| 0 <= j < n ==> symbols.deep_view()[j] == symbols@[j]@,
            match best {
                Some(b) => select_spec(symbols.deep_view().take(i as int), target@) == Some(b@),
                None => select_spec(symbols.deep_view().take(i as int), target@) is None,
            },
    {
        proof {
            assert(symbols.deep_view().take(i + 1).drop_last() =~= symbols.deep_view().take(
                i as int,
            ));
            assert(symbols.deep_view().take(i + 1).last() == symbols@[i as int]@);
        }
        let sym = &symbols[i];
        if candidate_check(sym.as_str(), target) {
            match best {
                None => {
                    best = Some(sym);
                },
                Some(b) => {
                    if sym.as_str().as_bytes().len() < b.as_str().as_bytes().len() {
                        best = Some(sym);
                    }
                },
            }
        }
    }
    proof {
        assert(symbols.deep_view().take(n as int) =~= symbols.deep_view());
    }
    match best {
        Some(b) => Some(b.clone()),
        None => None,
    }
}

/// Relies on object::File::parse and object::read::ObjectSymbol::name: the
/// module-level symbol table, a pure function of the module bytes; `None` when
/// the bytes are not a recognized object-file format.
#[verifier::external_body]
fn object_symbol_names(data: &[u8]) -> (r: Option<Vec<String>>)
    ensures
        match r {
            Some(names) => parsed_symbols(data@) == Some(names.deep_view()),
            None => parsed_symbols(data@) is None,
        },
{
    let obj = match object::File::parse(data) {
        Ok(f) => f,
        Err(_) => return None,
    };
    Some(obj.symbols().filter_map(|s| s.name().ok().map(|n| n.to_string())).collect())
}

/// Scans the module symbol table for the grammar-constructor symbol for
/// `target`: the shortest name containing both the marker and the
/// target. `Ok(None)` means the module has no matching symbol (no match is
/// not an error); `Err(ParseError)` means the bytes are not a recognized
/// object-file format.
pub fn find_tree_sitter_function(data: &[u8], target: &str) -> (r: Result<Option<String>, Error>)
    ensures
        match r {
            Ok(opt) => parsed_symbols(data@) matches Some(names) && (match opt {
                Some(s) => select_spec(names, target@) == Some(s@),
                None => select_spec(names, target@) is None,
            }),
            Err(e) => e == Error::ParseError && parsed_symbols(data@) is None,
        },
{
    match object_symbol_names(data) {
        Some(names) => Ok(select_candidate(&names, target)),
        None => Err(Error::ParseError),
    }
}

} // verus!
