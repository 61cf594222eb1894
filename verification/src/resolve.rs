//! Ordering Resolver: determines the resolved order — the validated
//! annotation order if an annotation is present, the declaration order
//! otherwise — and rejects duplicate annotations and annotations that are no
//! permutation of the declared members.

use vstd::prelude::*;

use crate::annot::{parse_annotation, parse_annotation_spec, Parsed};
use crate::decl::Declaration;
use crate::errors::{error_reports, Fault, GenError};

verus! {

/// The first position at or after `i` of a name in `xs` that does not occur
/// in `ys`, if any.
pub open spec fn first_missing_from(xs: Seq<Seq<char>>, ys: Seq<Seq<char>>, i: int) -> Option<int>
    decreases xs.len() - i
        when 0 <= i <= xs.len()
{
    if i == xs.len() {
        None
    } else if !ys.contains(xs[i]) {
        Some(i)
    } else {
        first_missing_from(xs, ys, i + 1)
    }
}

pub proof fn lemma_first_missing_from(xs: Seq<Seq<char>>, ys: Seq<Seq<char>>, i: int)
    requires
        0 <= i <= xs.len(),
    ensures
        match first_missing_from(xs, ys, i) {
            None => forall|k: int| i <= k < xs.len() ==> ys.contains(xs[k]),
            Some(v) => i <= v < xs.len() && !ys.contains(xs[v]) && forall|k: int|
                i <= k < v ==> ys.contains(xs[k]),
        },
    decreases xs.len() - i,
{
    if i < xs.len() && ys.contains(xs[i]) {
        lemma_first_missing_from(xs, ys, i + 1);
    }
}

/// Semantic validation of a parsed annotation against the declared members:
/// the cardinalities must match, every listed name must be a declared
/// member, and every declared member must be listed.
pub open spec fn validate_spec(
    dn: Seq<char>,
    decl: Seq<Seq<char>>,
    names: Seq<Seq<char>>,
) -> Result<Seq<Seq<char>>, Fault> {
    if names.len() != decl.len() {
        Err(
            Fault::CardinalityMismatch {
                decl_name: dn,
                expected: decl.len() as int,
                got: names.len() as int,
            },
        )
    } else {
        match first_missing_from(names, decl, 0) {
            Some(k) => Err(Fault::ForeignMember { decl_name: dn, name: names[k] }),
            None => match first_missing_from(decl, names, 0) {
                Some(k) => Err(Fault::MissingMember { decl_name: dn, name: decl[k] }),
                None => Ok(names),
            },
        }
    }
}

/// The resolved order: with no annotation the declaration order; with
/// exactly one annotation, its validated member list; with more than one,
/// the duplicate-annotation fault before anything else is looked at.
pub open spec fn resolve_spec(
    dn: Seq<char>,
    decl: Seq<Seq<char>>,
    annots: Seq<Seq<char>>,
) -> Result<Seq<Seq<char>>, Fault> {
    if annots.len() > 1 {
        Err(Fault::DuplicateAnnotation { decl_name: dn })
    } else if annots.len() == 0 {
        Ok(decl)
    } else {
        match parse_annotation_spec(annots[0]) {
            Parsed::Members { names } => validate_spec(dn, decl, names),
            Parsed::Malformed { at } => Err(Fault::MalformedAnnotation { at }),
            Parsed::ExpectedIdentifier { at } => Err(Fault::ExpectedIdentifier { at }),
            Parsed::ExpectedComma { at } => Err(Fault::ExpectedComma { at }),
        }
    }
}

/// An order that validation accepted is a permutation of the declared
/// members: it repeats no name, and it holds exactly the declared names.
/// (Cardinality match and full coverage leave no room for a duplicate.)
pub proof fn lemma_validated_is_permutation(decl: Seq<Seq<char>>, names: Seq<Seq<char>>)
    requires
        decl.no_duplicates(),
        names.len() == decl.len(),
        first_missing_from(names, decl, 0) is None,
        first_missing_from(decl, names, 0) is None,
    ensures
        names.no_duplicates(),
        forall|x: Seq<char>| names.contains(x) <==> decl.contains(x),
    decreases decl.len(),
{
    broadcast use vstd::set::group_set_axioms;

    lemma_first_missing_from(names, decl, 0);
    lemma_first_missing_from(decl, names, 0);
    assert forall|x: Seq<char>| names.contains(x) <==> decl.contains(x) by {
        if names.contains(x) {
            let k = choose|k: int| 0 <= k < names.len() && names[k] == x;
            assert(decl.contains(names[k]));
        }
        if decl.contains(x) {
            let k = choose|k: int| 0 <= k < decl.len() && decl[k] == x;
            assert(names.contains(decl[k]));
        }
    }
    assert(names.to_set() =~= decl.to_set());
    decl.unique_seq_to_set();
    names.lemma_no_dup_set_cardinality();
}

pub(crate) fn str_eq(a: &str, b: &str) -> (r: bool)
    ensures
        r == (a@ == b@),
{
    let oa: String = a.to_owned();
    let ob: String = b.to_owned();
    oa == ob
}

/// Whether `name` occurs among `v`'s names.
fn contains_name(v: &Vec<String>, name: &str) -> (r: bool)
    ensures
        r == v.deep_view().contains(name@),
{
    let n = v.len();
    let mut i: usize = 0;
    while i < n
        invariant
            i <= n,
            n == v@.len(),
            forall|k: int| 0 <= k < i ==> v.deep_view()[k] != name@,
        decreases n - i,
    {
        if str_eq(v[i].as_str(), name) {
            assert(v.deep_view()[i as int] == name@);
            return true;
        }
        i = i + 1;
    }
    false
}

/// The first name of `xs` that does not occur in `ys`, if any.
fn find_first_missing(xs: &Vec<String>, ys: &Vec<String>) -> (r: Option<usize>)
    ensures
        match first_missing_from(xs.deep_view(), ys.deep_view(), 0) {
            None => r is None,
            Some(k) => r matches Some(u) && u as int == k && 0 <= k < xs.deep_view().len(),
        },
{
    let n = xs.len();
    let mut i: usize = 0;
    while i < n
        invariant
            i <= n,
            n == xs@.len(),
            forall|k: int| 0 <= k < i ==> ys.deep_view().contains(xs.deep_view()[k]),
        decreases n - i,
    {
        if !contains_name(ys, xs[i].as_str()) {
            proof {
                assert(xs.deep_view()[i as int] == xs@[i as int]@);
                lemma_first_missing_from(xs.deep_view(), ys.deep_view(), 0);
                match first_missing_from(xs.deep_view(), ys.deep_view(), 0) {
                    None => {
                        assert(ys.deep_view().contains(xs.deep_view()[i as int]));
                    },
                    Some(v) => {
                        if v < i as int {
                            assert(ys.deep_view().contains(xs.deep_view()[v]));
                        }
                        if v > i as int {
                            assert(ys.deep_view().contains(xs.deep_view()[i as int]));
                        }
                    },
                }
                assert(first_missing_from(xs.deep_view(), ys.deep_view(), 0) == Some(i as int));
            }
            return Some(i);
        }
        proof {
            assert(xs.deep_view()[i as int] == xs@[i as int]@);
        }
        i = i + 1;
    }
    proof {
        lemma_first_missing_from(xs.deep_view(), ys.deep_view(), 0);
    }
    None
}

/// A copy of a member list, name for name.
pub fn clone_names(v: &Vec<String>) -> (r: Vec<String>)
    ensures
        r.deep_view() == v.deep_view(),
{
    let n = v.len();
    let mut out: Vec<String> = Vec::new();
    let mut i: usize = 0;
    while i < n
        invariant
            i <= n,
            n == v@.len(),
            out@.len() == i,
            forall|k: int| 0 <= k < i ==> out@[k]@ == v@[k]@,
        decreases n - i,
    {
        out.push(v[i].clone());
        i = i + 1;
    }
    proof {
        assert(out.deep_view() =~= v.deep_view());
    }
    out
}

/// Determine the resolved order for one declaration from the texts of the
/// attached ordering annotations: at most one annotation is accepted; its
/// list must parse and must be a permutation of the declared members;
/// without an annotation the declaration order stands.
#[verifier::loop_isolation(false)]
pub fn resolve_order(decl_name: &str, decl: &Declaration, annotations: &Vec<String>) -> (r: Result<
    Vec<String>,
    GenError,
>)
    ensures
        match resolve_spec(decl_name@, decl@, annotations.deep_view()) {
            Ok(order) => r matches Ok(v) && v.deep_view() == order,
            Err(f) => r matches Err(e) && error_reports(e, f),
        },
{
    if annotations.len() > 1 {
        return Err(GenError::DuplicateAnnotation { decl_name: decl_name.to_owned() });
    }
    if annotations.len() == 0 {
        return Ok(clone_names(decl.members()));
    }
    proof {
        assert(annotations.deep_view()[0] == annotations@[0]@);
    }
    let names = match parse_annotation(annotations[0].as_str()) {
        Ok(names) => names,
        Err(e) => {
            return Err(e);
        },
    };
    let decl_members = decl.members();
    if names.len() != decl_members.len() {
        return Err(
            GenError::CardinalityMismatch {
                decl_name: decl_name.to_owned(),
                expected: decl_members.len(),
                got: names.len(),
            },
        );
    }
    if let Some(k) = find_first_missing(&names, decl_members) {
        return Err(
            GenError::ForeignMember { decl_name: decl_name.to_owned(), name: names[k].clone() },
        );
    }
    if let Some(k) = find_first_missing(decl_members, &names) {
        return Err(
            GenError::MissingMember {
                decl_name: decl_name.to_owned(),
                name: decl_members[k].clone(),
            },
        );
    }
    Ok(names)
}

} // verus!
