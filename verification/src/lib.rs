//! Compile-time generator for a cyclic-navigation capability over a closed
//! enumeration: given the declared members of an enumerated type and an
//! optional `#[iteration_order(...)]` annotation, it validates the pair and
//! derives the rotation mapping (successor, predecessor, canonical
//! enumeration, and enumeration starting at any member).

use vstd::prelude::*;

pub mod annot;
pub mod decl;
pub mod errors;
pub mod mapping;
pub mod resolve;

use crate::annot::{parse_annotation_spec, Parsed};
use crate::decl::{
    first_payload_violation, member_names, read_declaration, read_spec, TypeShape,
};
use crate::errors::{error_reports, Fault, GenError};
use crate::mapping::RotationMapping;
use crate::resolve::{
    first_missing_from, lemma_first_missing_from, lemma_validated_is_permutation, resolve_order,
    resolve_spec,
};

verus! {

/// The marker name that introduces an ordering annotation.
pub open spec fn marker_name() -> Seq<char> {
    "iteration_order"@
}

/// The whole generation pass for one declaration: read it, resolve the
/// order, or stop at the first fault. On success the result is the resolved
/// order — the annotation's order if an annotation is present, the
/// declaration order otherwise.
pub open spec fn generate_spec(
    dn: Seq<char>,
    shape: TypeShape,
    annots: Seq<Seq<char>>,
) -> Result<Seq<Seq<char>>, Fault> {
    match read_spec(dn, shape) {
        Err(f) => Err(f),
        Ok(decl) => resolve_spec(dn, decl, annots),
    }
}

/// Run the generation pass for one declaration: read the declaration,
/// resolve the effective order from the attached ordering annotations, and
/// synthesize the rotation mapping, or stop at the first fault without
/// emitting anything. The host guarantees that declared member names are
/// distinct.
pub fn generate(decl_name: &str, shape: &TypeShape, annotations: &Vec<String>) -> (r: Result<
    RotationMapping,
    GenError,
>)
    requires
        shape matches TypeShape::Enumeration { members } ==> crate::decl::member_names(
            members@,
        ).no_duplicates(),
    ensures
        match generate_spec(decl_name@, *shape, annotations.deep_view()) {
            Ok(order) => r matches Ok(mp) && mp.wf() && mp@ == order,
            Err(f) => r matches Err(e) && error_reports(e, f),
        },
{
    let declaration = match read_declaration(decl_name, shape) {
        Ok(d) => d,
        Err(e) => {
            return Err(e);
        },
    };
    let order = match resolve_order(decl_name, &declaration, annotations) {
        Ok(v) => v,
        Err(e) => {
            return Err(e);
        },
    };
    proof {
        let dv = declaration@;
        let ov = order.deep_view();
        if ov != dv {
            lemma_validated_is_permutation(dv, ov);
        }
    }
    Ok(RotationMapping::new(order))
}

/// Law: for an eligible declaration with no ordering annotation, generation
/// succeeds and the resolved order is the declaration order, verbatim.
pub proof fn lemma_declaration_order_by_default(
    dn: Seq<char>,
    shape: TypeShape,
    annots: Seq<Seq<char>>,
)
    requires
        shape is Enumeration,
        first_payload_violation(shape->members@, 0) is None,
        annots.len() == 0,
    ensures
        generate_spec(dn, shape, annots) == Ok::<_, Fault>(member_names(shape->members@)),
{
}

/// Law: one ordering annotation whose list is a permutation of the declared
/// members is accepted, and the resolved order is the annotation's order,
/// not the declaration order.
pub proof fn lemma_annotation_order_wins(
    dn: Seq<char>,
    shape: TypeShape,
    annots: Seq<Seq<char>>,
    names: Seq<Seq<char>>,
)
    requires
        shape is Enumeration,
        first_payload_violation(shape->members@, 0) is None,
        member_names(shape->members@).no_duplicates(),
        annots.len() == 1,
        parse_annotation_spec(annots[0]) == (Parsed::Members { names }),
        names.len() == member_names(shape->members@).len(),
        forall|x: Seq<char>| names.contains(x) <==> member_names(shape->members@).contains(x),
    ensures
        generate_spec(dn, shape, annots) == Ok::<_, Fault>(names),
{
    let decl = member_names(shape->members@);
    lemma_first_missing_from(names, decl, 0);
    lemma_first_missing_from(decl, names, 0);
    match first_missing_from(names, decl, 0) {
        Some(v) => {
            assert(names.contains(names[v]));
            assert(decl.contains(names[v]));
        },
        None => {},
    }
    match first_missing_from(decl, names, 0) {
        Some(v) => {
            assert(decl.contains(decl[v]));
            assert(names.contains(decl[v]));
        },
        None => {},
    }
}

} // verus!
