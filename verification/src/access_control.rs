use vstd::prelude::*;

verus! {

/// A permission registry: which principals hold which roles.
///
/// Roles are free-form strings compared by value; absent roles are created
/// implicitly on first grant. Granting is additive and idempotent, and there
/// is no revocation: once granted, a role is held for the lifetime of the
/// registry.
pub struct AccessControl {
    grants: Vec<(String, String)>,
}

impl AccessControl {
    /// Whether `principal` is currently recorded as holding `role`.
    pub closed spec fn spec_has_role(&self, role: Seq<char>, principal: Seq<char>) -> bool {
        exists|i: int|
            0 <= i < self.grants@.len() && self.grants@[i].0@ == role && self.grants@[i].1@
                == principal
    }

    /// Exactly how one grant changes the recorded memberships: afterwards a
    /// pair is held if and only if it was held before or it is the granted
    /// pair. This is the full postcondition of [`AccessControl::setup_role`].
    pub open spec fn grant_step(
        pre: AccessControl,
        post: AccessControl,
        role: Seq<char>,
        principal: Seq<char>,
    ) -> bool {
        forall|r: Seq<char>, p: Seq<char>|
            post.spec_has_role(r, p) == (pre.spec_has_role(r, p) || (r == role && p == principal))
    }

    /// An empty registry: nobody holds any role.
    pub fn new() -> (r: AccessControl)
        ensures
            forall|ro: Seq<char>, p: Seq<char>| !r.spec_has_role(ro, p),
    {
        AccessControl { grants: Vec::new() }
    }

    /// Pure membership query: `true` exactly when `principal` holds `role`.
    /// An absent role and an absent principal within a present role both
    /// answer `false`.
    pub fn has_role(&self, role: &String, principal: &String) -> (r: bool)
        ensures
            r == self.spec_has_role(role@, principal@),
    {
        let n = self.grants.len();
        let mut i: usize = 0;
        while i < n
            invariant
                n == self.grants@.len(),
                i <= n,
                forall|j: int|
                    0 <= j < i ==> !(#[trigger] self.grants@[j].0@ == role@
                        && self.grants@[j].1@ == principal@),
            decreases n - i,
        {
            if self.grants[i].0 == *role && self.grants[i].1 == *principal {
                return true;
            }
            i = i + 1;
        }
        false
    }

    /// Idempotently records `principal` as a holder of `role`. Always
    /// succeeds; granting an already-held role changes nothing.
    pub fn setup_role(&mut self, role: String, principal: String)
        ensures
            final(self).spec_has_role(role@, principal@),
            AccessControl::grant_step(*old(self), *final(self), role@, principal@),
    {
        let ghost rv = role@;
        let ghost pv = principal@;
        let already = self.has_role(&role, &principal);
        if !already {
            let ghost pre = self.grants@;
            self.grants.push((role, principal));
            proof {
                assert forall|r: Seq<char>, p: Seq<char>|
                    self.spec_has_role(r, p) == (old(self).spec_has_role(r, p) || (r == rv && p
                        == pv)) by {
                    if self.spec_has_role(r, p) {
                        let i = choose|i: int|
                            0 <= i < self.grants@.len() && self.grants@[i].0@ == r
                                && self.grants@[i].1@ == p;
                        if i < pre.len() {
                            assert(pre[i] == self.grants@[i]);
                            assert(old(self).spec_has_role(r, p));
                        } else {
                            assert(self.grants@[i].0@ == rv && self.grants@[i].1@ == pv);
                        }
                    }
                    if old(self).spec_has_role(r, p) {
                        let i = choose|i: int|
                            0 <= i < pre.len() && pre[i].0@ == r && pre[i].1@ == p;
                        assert(self.grants@[i] == pre[i]);
                        assert(self.spec_has_role(r, p));
                    }
                    if r == rv && p == pv {
                        assert(self.grants@[pre.len() as int].0@ == r);
                        assert(self.grants@[pre.len() as int].1@ == p);
                        assert(self.spec_has_role(r, p));
                    }
                }
            }
        }
    }
}

/// Whether some element of `s` is the principal `p`.
pub open spec fn names_contain(s: Seq<String>, p: Seq<char>) -> bool {
    exists|j: int| 0 <= j < s.len() && s[j]@ == p
}

impl AccessControl {
    /// The principals recorded as holding `role`, as plain values for the
    /// host's persistence layer: a principal appears in the result exactly
    /// when it holds the role.
    pub fn holders(&self, role: &String) -> (r: Vec<String>)
        ensures
            forall|p: Seq<char>|
                #[trigger] names_contain(r@, p) == self.spec_has_role(role@, p),
    {
        let mut out: Vec<String> = Vec::new();
        let n = self.grants.len();
        let mut i: usize = 0;
        while i < n
            invariant
                n == self.grants@.len(),
                i <= n,
                forall|p: Seq<char>|
                    #[trigger] names_contain(out@, p) == (exists|g: int|
                        0 <= g < i && self.grants@[g].0@ == role@ && self.grants@[g].1@ == p),
            decreases n - i,
        {
            let ghost out0 = out@;
            let ghost i0 = i as int;
            if self.grants[i].0 == *role {
                out.push(self.grants[i].1.clone());
            }
            i = i + 1;
            proof {
                assert forall|p: Seq<char>|
                    #[trigger] names_contain(out@, p) == (exists|g: int|
                        0 <= g < i && self.grants@[g].0@ == role@ && self.grants@[g].1@
                            == p) by {
                    if names_contain(out@, p) {
                        let j = choose|j: int| 0 <= j < out@.len() && out@[j]@ == p;
                        if j < out0.len() {
                            assert(out0[j] == out@[j]);
                            assert(out0[j]@ == p);
                            assert(names_contain(out0, p));
                            let g = choose|g: int|
                                0 <= g < i0 && self.grants@[g].0@ == role@ && self.grants@[g].1@
                                    == p;
                            assert(0 <= g < i && self.grants@[g].0@ == role@
                                && self.grants@[g].1@ == p);
                        } else {
                            assert(self.grants@[i0].0@ == role@ && self.grants@[i0].1@ == p);
                        }
                    }
                    if exists|g: int|
                        0 <= g < i && self.grants@[g].0@ == role@ && self.grants@[g].1@ == p {
                        let g = choose|g: int|
                            0 <= g < i && self.grants@[g].0@ == role@ && self.grants@[g].1@ == p;
                        if g < i0 {
                            assert(names_contain(out0, p));
                            let j = choose|j: int| 0 <= j < out0.len() && out0[j]@ == p;
                            assert(out@[j] == out0[j]);
                            assert(0 <= j < out@.len() && out@[j]@ == p);
                        } else {
                            assert(self.grants@[i0].0@ == role@);
                            assert(out@.len() == out0.len() + 1);
                            assert(out@[out@.len() - 1]@ == p);
                        }
                        assert(names_contain(out@, p));
                    }
                }
            }
        }
        out
    }
}

/// Law: granting a role twice yields exactly the memberships one grant
/// gives — the second grant changes nothing, and the principal holds the
/// role after either.
pub proof fn lemma_grant_idempotent(
    a: AccessControl,
    b: AccessControl,
    c: AccessControl,
    role: Seq<char>,
    principal: Seq<char>,
)
    requires
        AccessControl::grant_step(a, b, role, principal),
        AccessControl::grant_step(b, c, role, principal),
    ensures
        forall|r: Seq<char>, p: Seq<char>|
            c.spec_has_role(r, p) == b.spec_has_role(r, p),
        b.spec_has_role(role, principal),
        c.spec_has_role(role, principal),
{
    assert forall|r: Seq<char>, p: Seq<char>|
        c.spec_has_role(r, p) == b.spec_has_role(r, p) by {
        assert(c.spec_has_role(r, p) == (b.spec_has_role(r, p) || (r == role && p == principal)));
        assert(b.spec_has_role(r, p) == (a.spec_has_role(r, p) || (r == role && p == principal)));
    }
}

} // verus!
