use vstd::prelude::*;

verus! {

/// The shape of a declaration that turned out not to be a closed enumeration.
#[derive(Clone, Copy, PartialEq, Eq, Structural, Debug)]
pub enum ShapeKind {
    Record,
    Union,
}

/// A fault detected while generating the rotation capability for one
/// declaration. Every fault is fatal for that declaration's generation pass
/// and carries enough context to locate the offending construct; rendering
/// a human-readable message is left to the host tool's diagnostic channel.
#[derive(Debug)]
pub enum GenError {
    /// The declaration is not a closed enumeration.
    NotAnEnumeration { decl_name: String, shape: ShapeKind },
    /// A declared member carries associated data.
    MemberNotPayloadFree { decl_name: String, member: String },
    /// More than one ordering annotation is attached to the declaration.
    DuplicateAnnotation { decl_name: String },
    /// The ordering annotation does not have the `#[iteration_order(...)]` frame,
    /// or text follows the closing bracket; `at` is the character position.
    MalformedAnnotation { at: usize },
    /// Inside the annotation's list, an identifier was expected at position `at`.
    ExpectedIdentifier { at: usize },
    /// Inside the annotation's list, a separating comma was expected at position `at`.
    ExpectedComma { at: usize },
    /// The annotation lists a different number of members than the declaration.
    CardinalityMismatch { decl_name: String, expected: usize, got: usize },
    /// The annotation names an identifier that is not a declared member.
    ForeignMember { decl_name: String, name: String },
    /// A declared member does not appear in the annotation.
    MissingMember { decl_name: String, name: String },
}

/// The mathematical shape of a fault: the same taxonomy as `GenError`, with
/// every identifier given as the sequence of its characters. The pipeline's
/// specification functions speak of faults; `error_reports` ties them to the
/// values the executable pipeline returns.
pub enum Fault {
    NotAnEnumeration { decl_name: Seq<char>, shape: ShapeKind },
    MemberNotPayloadFree { decl_name: Seq<char>, member: Seq<char> },
    DuplicateAnnotation { decl_name: Seq<char> },
    MalformedAnnotation { at: int },
    ExpectedIdentifier { at: int },
    ExpectedComma { at: int },
    CardinalityMismatch { decl_name: Seq<char>, expected: int, got: int },
    ForeignMember { decl_name: Seq<char>, name: Seq<char> },
    MissingMember { decl_name: Seq<char>, name: Seq<char> },
}

/// The returned error `e` is of the same kind as the fault `f` and carries
/// the same diagnostic context.
pub open spec fn error_reports(e: GenError, f: Fault) -> bool {
    match (e, f) {
        (
            GenError::NotAnEnumeration { decl_name, shape },
            Fault::NotAnEnumeration { decl_name: dn, shape: sk },
        ) => decl_name@ == dn && shape == sk,
        (
            GenError::MemberNotPayloadFree { decl_name, member },
            Fault::MemberNotPayloadFree { decl_name: dn, member: m },
        ) => decl_name@ == dn && member@ == m,
        (
            GenError::DuplicateAnnotation { decl_name },
            Fault::DuplicateAnnotation { decl_name: dn },
        ) => decl_name@ == dn,
        (GenError::MalformedAnnotation { at }, Fault::MalformedAnnotation { at: a }) => at as int
            == a,
        (GenError::ExpectedIdentifier { at }, Fault::ExpectedIdentifier { at: a }) => at as int
            == a,
        (GenError::ExpectedComma { at }, Fault::ExpectedComma { at: a }) => at as int == a,
        (
            GenError::CardinalityMismatch { decl_name, expected, got },
            Fault::CardinalityMismatch { decl_name: dn, expected: e2, got: g2 },
        ) => decl_name@ == dn && expected as int == e2 && got as int == g2,
        (
            GenError::ForeignMember { decl_name, name },
            Fault::ForeignMember { decl_name: dn, name: nm },
        ) => decl_name@ == dn && name@ == nm,
        (
            GenError::MissingMember { decl_name, name },
            Fault::MissingMember { decl_name: dn, name: nm },
        ) => decl_name@ == dn && name@ == nm,
        _ => false,
    }
}

} // verus!
