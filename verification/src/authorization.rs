//! Authorization groups and the permission decision.
//!
//! The chain queries that resolve a permission group to its member
//! addresses live with the host glue; the decision itself — whether an
//! address may execute, given the resolved groups — is plain logic and is
//! verified here.

use vstd::prelude::*;

use crate::error::{NeptuneError, NeptuneResult};

verus! {

/// The member addresses of one permission group, resolved.
pub type PermissionGroup = Vec<String>;

/// The permission groups a base contract distinguishes.
#[derive(Clone, Copy, Debug, PartialEq, Eq, Structural)]
pub enum BasePermissionGroups {
    Internal,
    Vault,
    Admins,
    AdminDoubleSig,
    AdminTripleSig,
    Public,
    Anchor,
    TerraSwap,
}

/// The base authorization policy marker for the shared execute messages.
#[derive(Clone, Copy, Debug, PartialEq, Eq, Structural)]
pub struct BaseAuthorization {}

/// Whether every resolved group is empty — the open-to-the-public case.
pub open spec fn spec_all_empty(groups: Seq<Vec<String>>) -> bool {
    forall|a: int| 0 <= a < groups.len() ==> (#[trigger] groups[a])@.len() == 0
}

/// Whether some group member is the address.
pub open spec fn spec_any_member(groups: Seq<Vec<String>>, addr: Seq<char>) -> bool {
    exists|a: int, b: int|
        0 <= a < groups.len() && 0 <= b < groups[a]@.len() && (#[trigger] groups[a]@[b])@ == addr
}

/// The permission decision: execution is allowed exactly when the
/// flattened permission list is empty or holds the caller's address.
pub fn authorize_permissions(permissions: &Vec<PermissionGroup>, addr: &String) -> (r:
    NeptuneResult<()>)
    ensures
        r is Ok <==> (spec_all_empty(permissions@) || spec_any_member(permissions@, addr@)),
        r matches Err(e) ==> e is Unauthorized,
{
    let na = permissions.len();
    let mut any_nonempty = false;
    let mut a: usize = 0;
    while a < na
        invariant
            a <= na,
            na == permissions@.len(),
            any_nonempty <==> !(forall|x: int|
                0 <= x < a ==> (#[trigger] permissions@[x])@.len() == 0),
        decreases na - a,
    {
        if permissions[a].len() > 0 {
            any_nonempty = true;
        }
        a += 1;
    }
    let mut found = false;
    let mut a: usize = 0;
    while a < na && !found
        invariant
            a <= na,
            na == permissions@.len(),
            found ==> spec_any_member(permissions@, addr@),
            !found ==> forall|x: int, y: int|
                0 <= x < a && 0 <= y < permissions@[x]@.len() ==> (#[trigger] permissions@[x]@[
                    y
                ])@ != addr@,
        decreases na - a + (if found {
            0int
        } else {
            1int
        }),
    {
        let nb = permissions[a].len();
        let mut b: usize = 0;
        while b < nb && !found
            invariant
                b <= nb,
                a < na,
                na == permissions@.len(),
                nb == permissions@[a as int]@.len(),
                found ==> spec_any_member(permissions@, addr@),
                !found ==> forall|x: int, y: int|
                    0 <= x < a && 0 <= y < permissions@[x]@.len() ==> (#[trigger] permissions@[
                        x
                    ]@[y])@ != addr@,
                !found ==> forall|y: int|
                    0 <= y < b ==> (#[trigger] permissions@[a as int]@[y])@ != addr@,
            decreases nb - b + (if found {
                0int
            } else {
                1int
            }),
        {
            if permissions[a][b].eq(addr) {
                found = true;
            } else {
                b += 1;
            }
        }
        if !found {
            a += 1;
        }
    }
    if !any_nonempty || found {
        proof {
            if !any_nonempty {
                assert(spec_all_empty(permissions@));
            }
        }
        Ok(())
    } else {
        proof {
            assert(!spec_all_empty(permissions@));
            assert(!spec_any_member(permissions@, addr@)) by {
                if spec_any_member(permissions@, addr@) {
                    let (x, y) = choose|x: int, y: int|
                        0 <= x < permissions@.len() && 0 <= y < permissions@[x]@.len() && (
                        #[trigger] permissions@[x]@[y])@ == addr@;
                    assert(permissions@[x]@[y]@ != addr@);
                }
            }
        }
        Err(NeptuneError::Unauthorized)
    }
}

} // verus!
