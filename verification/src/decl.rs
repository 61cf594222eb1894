//! Declaration Reader: extracts the ordered member list of a declaration and
//! checks that its shape is eligible — a closed enumeration whose members
//! are all payload-free.

use vstd::prelude::*;

use crate::errors::{error_reports, Fault, GenError, ShapeKind};

verus! {

/// One declared member: its identifier, and whether it is payload-free
/// (carries no associated data).
pub struct MemberDecl {
    pub name: String,
    pub payload_free: bool,
}

/// A type declaration as the host tool hands it over: either a closed
/// enumeration with its members in source order, or some other shape.
pub enum TypeShape {
    Enumeration { members: Vec<MemberDecl> },
    Record,
    Union,
}

/// The declared member identifiers, in source order.
pub open spec fn member_names(ms: Seq<MemberDecl>) -> Seq<Seq<char>> {
    ms.map_values(|m: MemberDecl| m.name@)
}

/// The first member at or after `i` that carries a payload, if any.
pub open spec fn first_payload_violation(ms: Seq<MemberDecl>, i: int) -> Option<int>
    decreases ms.len() - i
        when 0 <= i <= ms.len()
{
    if i == ms.len() {
        None
    } else if !ms[i].payload_free {
        Some(i)
    } else {
        first_payload_violation(ms, i + 1)
    }
}

pub proof fn lemma_first_payload_violation(ms: Seq<MemberDecl>, i: int)
    requires
        0 <= i <= ms.len(),
    ensures
        match first_payload_violation(ms, i) {
            None => forall|k: int| i <= k < ms.len() ==> ms[k].payload_free,
            Some(v) => i <= v < ms.len() && !ms[v].payload_free && forall|k: int|
                i <= k < v ==> ms[k].payload_free,
        },
    decreases ms.len() - i,
{
    if i < ms.len() && ms[i].payload_free {
        lemma_first_payload_violation(ms, i + 1);
    }
}

/// What reading a declaration yields: the member names in source order, or
/// the first fault — a shape that is no closed enumeration, or the first
/// member that carries a payload.
pub open spec fn read_spec(dn: Seq<char>, shape: TypeShape) -> Result<Seq<Seq<char>>, Fault> {
    match shape {
        TypeShape::Record => Err(Fault::NotAnEnumeration { decl_name: dn, shape: ShapeKind::Record }),
        TypeShape::Union => Err(Fault::NotAnEnumeration { decl_name: dn, shape: ShapeKind::Union }),
        TypeShape::Enumeration { members } => match first_payload_violation(members@, 0) {
            Some(v) => Err(
                Fault::MemberNotPayloadFree { decl_name: dn, member: members@[v].name@ },
            ),
            None => Ok(member_names(members@)),
        },
    }
}

/// The ordered member list of one declaration, read once and immutable
/// afterwards. Its members' names are distinct.
pub struct Declaration {
    members: Vec<String>,
}

impl View for Declaration {
    type V = Seq<Seq<char>>;

    closed spec fn view(&self) -> Seq<Seq<char>> {
        self.members.deep_view()
    }
}

impl Declaration {
    /// No two members of a declaration share a name.
    pub open spec fn wf(&self) -> bool {
        self@.no_duplicates()
    }

    /// The member identifiers, in declaration order.
    pub fn members(&self) -> (r: &Vec<String>)
        ensures
            r.deep_view() == self@,
    {
        &self.members
    }
}

/// Read a declaration: accept a closed enumeration of payload-free members
/// and yield them in source order; reject any other shape, and reject the
/// first member that carries a payload. The host guarantees that declared
/// member names are distinct.
#[verifier::loop_isolation(false)]
pub fn read_declaration(decl_name: &str, shape: &TypeShape) -> (r: Result<Declaration, GenError>)
    requires
        shape matches TypeShape::Enumeration { members } ==> member_names(
            members@,
        ).no_duplicates(),
    ensures
        match read_spec(decl_name@, *shape) {
            Ok(names) => r matches Ok(d) && d@ == names && d.wf(),
            Err(f) => r matches Err(e) && error_reports(e, f),
        },
{
    match shape {
        TypeShape::Record => Err(
            GenError::NotAnEnumeration {
                decl_name: decl_name.to_owned(),
                shape: ShapeKind::Record,
            },
        ),
        TypeShape::Union => Err(
            GenError::NotAnEnumeration { decl_name: decl_name.to_owned(), shape: ShapeKind::Union },
        ),
        TypeShape::Enumeration { members } => {
            let n = members.len();
            let mut i: usize = 0;
            while i < n
                invariant
                    i <= n,
                    n == members@.len(),
                    forall|k: int| 0 <= k < i ==> members@[k].payload_free,
                decreases n - i,
            {
                if !members[i].payload_free {
                    proof {
                        lemma_first_payload_violation(members@, 0);
                        assert(first_payload_violation(members@, 0) == Some(i as int));
                    }
                    return Err(
                        GenError::MemberNotPayloadFree {
                            decl_name: decl_name.to_owned(),
                            member: members[i].name.clone(),
                        },
                    );
                }
                i = i + 1;
            }
            proof {
                lemma_first_payload_violation(members@, 0);
            }
            let mut names: Vec<String> = Vec::new();
            let mut i: usize = 0;
            while i < n
                invariant
                    i <= n,
                    n == members@.len(),
                    names@.len() == i,
                    forall|k: int| 0 <= k < i ==> names@[k]@ == members@[k].name@,
                decreases n - i,
            {
                names.push(members[i].name.clone());
                i = i + 1;
            }
            proof {
                assert(names.deep_view() =~= member_names(members@));
            }
            Ok(Declaration { members: names })
        },
    }
}

} // verus!
