use vstd::prelude::*;
use vstd::string::StringExecFns;
use crate::access_control::AccessControl;
use crate::access_control::names_contain;
use crate::errors::RegistryError;

verus! {

/// A stored product record. No validation is performed on the fields: an
/// empty name, a zero price and a zero stock are all legal.
pub struct Item {
    pub name: String,
    pub price: u128,
    pub stock: u8,
}

impl Clone for Item {
    fn clone(&self) -> (r: Self)
        ensures
            r == *self,
    {
        Item { name: self.name.clone(), price: self.price, stock: self.stock }
    }
}

/// The built-in role that gates writes to the store.
pub open spec fn set_role_name() -> Seq<char> {
    "ROLE_SET_PRODUCT"@
}

/// The built-in role that gates deletions from the store.
pub open spec fn delete_role_name() -> Seq<char> {
    "ROLE_DELETE_PRODUCT"@
}

fn set_role_string() -> (r: String)
    ensures
        r@ == set_role_name(),
{
    String::from_str("ROLE_SET_PRODUCT")
}

fn delete_role_string() -> (r: String)
    ensures
        r@ == delete_role_name(),
{
    String::from_str("ROLE_DELETE_PRODUCT")
}

/// The abstract content of a record list: later entries win, though under
/// [`keys_unique`] every key occurs at most once.
spec fn map_of(s: Seq<(String, Item)>) -> Map<Seq<char>, Item>
    decreases s.len(),
{
    if s.len() == 0 {
        Map::empty()
    } else {
        map_of(s.drop_last()).insert(s.last().0@, s.last().1)
    }
}

/// Every key occurs at most once in the record list.
spec fn keys_unique(s: Seq<(String, Item)>) -> bool {
    forall|i: int, j: int| 0 <= i < j < s.len() ==> s[i].0@ != s[j].0@
}

proof fn lemma_keys_unique_drop_last(s: Seq<(String, Item)>)
    requires
        keys_unique(s),
        s.len() > 0,
    ensures
        keys_unique(s.drop_last()),
{
    assert forall|i: int, j: int|
        0 <= i < j < s.drop_last().len() implies s.drop_last()[i].0@ != s.drop_last()[j].0@ by {
        assert(s.drop_last()[i] == s[i]);
        assert(s.drop_last()[j] == s[j]);
    }
}

/// A key is in the abstract map exactly when some entry carries it.
proof fn lemma_map_of_contains(s: Seq<(String, Item)>, k: Seq<char>)
    ensures
        map_of(s).dom().contains(k) == (exists|i: int| 0 <= i < s.len() && s[i].0@ == k),
    decreases s.len(),
{
    if s.len() > 0 {
        lemma_map_of_contains(s.drop_last(), k);
        if map_of(s).dom().contains(k) {
            if s.last().0@ == k {
                assert(s[s.len() - 1].0@ == k);
            } else {
                let i = choose|i: int| 0 <= i < s.drop_last().len() && s.drop_last()[i].0@ == k;
                assert(s[i].0@ == k);
            }
        }
        if exists|i: int| 0 <= i < s.len() && s[i].0@ == k {
            let i = choose|i: int| 0 <= i < s.len() && s[i].0@ == k;
            if i < s.len() - 1 {
                assert(s.drop_last()[i].0@ == k);
            }
        }
    }
}

/// Under unique keys, the entry that carries `k` is the value the abstract
/// map gives for `k`.
proof fn lemma_map_of_get(s: Seq<(String, Item)>, k: Seq<char>, i: int)
    requires
        keys_unique(s),
        0 <= i < s.len(),
        s[i].0@ == k,
    ensures
        map_of(s).dom().contains(k),
        map_of(s)[k] == s[i].1,
    decreases s.len(),
{
    if i == s.len() - 1 {
    } else {
        lemma_keys_unique_drop_last(s);
        assert(s.drop_last()[i] == s[i]);
        lemma_map_of_get(s.drop_last(), k, i);
        assert(s.last().0@ != k);
    }
}

/// Replacing the entry that carries `k` updates the abstract map at `k`
/// alone, and keeps the keys unique.
proof fn lemma_map_of_update(s: Seq<(String, Item)>, i: int, q: (String, Item))
    requires
        keys_unique(s),
        0 <= i < s.len(),
        s[i].0@ == q.0@,
    ensures
        map_of(s.update(i, q)) == map_of(s).insert(q.0@, q.1),
        keys_unique(s.update(i, q)),
    decreases s.len(),
{
    let t = s.update(i, q);
    assert forall|a: int, b: int| 0 <= a < b < t.len() implies t[a].0@ != t[b].0@ by {
        if a != i && b != i {
            assert(t[a] == s[a] && t[b] == s[b]);
        } else if a == i {
            assert(t[b] == s[b] && t[a].0@ == s[i].0@);
        } else {
            assert(t[a] == s[a] && t[b].0@ == s[i].0@);
        }
    }
    if i == s.len() - 1 {
        assert(t.drop_last() =~= s.drop_last());
        assert(t.last() == q);
        assert(map_of(s).insert(q.0@, q.1) =~= map_of(s.drop_last()).insert(q.0@, q.1));
    } else {
        lemma_keys_unique_drop_last(s);
        assert(s.drop_last()[i] == s[i]);
        lemma_map_of_update(s.drop_last(), i, q);
        assert(t.drop_last() =~= s.drop_last().update(i, q));
        assert(t.last() == s.last());
        assert(s.last().0@ != q.0@);
        assert(map_of(s.drop_last()).insert(q.0@, q.1).insert(s.last().0@, s.last().1)
            =~= map_of(s.drop_last()).insert(s.last().0@, s.last().1).insert(q.0@, q.1));
    }
}

/// Appending an entry with a fresh key inserts it into the abstract map,
/// and keeps the keys unique.
proof fn lemma_map_of_push(s: Seq<(String, Item)>, q: (String, Item))
    requires
        keys_unique(s),
        forall|j: int| 0 <= j < s.len() ==> s[j].0@ != q.0@,
    ensures
        map_of(s.push(q)) == map_of(s).insert(q.0@, q.1),
        keys_unique(s.push(q)),
{
    let t = s.push(q);
    assert(t.drop_last() =~= s);
    assert(t.last() == q);
    assert forall|a: int, b: int| 0 <= a < b < t.len() implies t[a].0@ != t[b].0@ by {
        if b == t.len() - 1 {
            assert(t[a] == s[a]);
        } else {
            assert(t[a] == s[a] && t[b] == s[b]);
        }
    }
}

/// Removing the entry that carries `k` removes `k` from the abstract map
/// and nothing else, and keeps the keys unique.
proof fn lemma_map_of_remove(s: Seq<(String, Item)>, i: int)
    requires
        keys_unique(s),
        0 <= i < s.len(),
    ensures
        map_of(s.remove(i)) == map_of(s).remove(s[i].0@),
        keys_unique(s.remove(i)),
    decreases s.len(),
{
    let t = s.remove(i);
    let k = s[i].0@;
    assert forall|a: int, b: int| 0 <= a < b < t.len() implies t[a].0@ != t[b].0@ by {
        assert(t[a] == (if a < i { s[a] } else { s[a + 1] }));
        assert(t[b] == (if b < i { s[b] } else { s[b + 1] }));
    }
    if i == s.len() - 1 {
        assert(t =~= s.drop_last());
        lemma_map_of_contains(s.drop_last(), k);
        assert forall|j: int| 0 <= j < s.drop_last().len() implies s.drop_last()[j].0@ != k by {
            assert(s.drop_last()[j] == s[j]);
        }
        assert(!map_of(s.drop_last()).dom().contains(k));
        assert(map_of(s.drop_last()) =~= map_of(s.drop_last()).insert(k, s.last().1).remove(k));
    } else {
        lemma_keys_unique_drop_last(s);
        assert(s.drop_last()[i] == s[i]);
        lemma_map_of_remove(s.drop_last(), i);
        assert(t.drop_last() =~= s.drop_last().remove(i));
        assert(t.last() == s.last());
        assert(s.last().0@ != k);
        assert(map_of(s.drop_last()).remove(k).insert(s.last().0@, s.last().1)
            =~= map_of(s.drop_last()).insert(s.last().0@, s.last().1).remove(k));
    }
}

/// First entry carrying `key`, if any.
fn find_index(records: &Vec<(String, Item)>, key: &String) -> (r: Option<usize>)
    ensures
        match r {
            Some(i) => i < records@.len() && records@[i as int].0@ == key@,
            None => forall|j: int| 0 <= j < records@.len() ==> records@[j].0@ != key@,
        },
{
    let n = records.len();
    let mut i: usize = 0;
    while i < n
        invariant
            n == records@.len(),
            i <= n,
            forall|j: int| 0 <= j < i ==> records@[j].0@ != key@,
        decreases n - i,
    {
        if records[i].0 == *key {
            return Some(i);
        }
        i = i + 1;
    }
    None
}

/// The keyed product store, its single owner, and the role registry that
/// gates mutation.
pub struct Product {
    records: Vec<(String, Item)>,
    owner: String,
    access: AccessControl,
}

impl View for Product {
    type V = Map<Seq<char>, Item>;

    /// The abstract store: a map from key to the item most recently set at
    /// that key.
    closed spec fn view(&self) -> Map<Seq<char>, Item> {
        map_of(self.records@)
    }
}

impl Product {
    /// Internal representation invariant: no key is stored twice.
    pub closed spec fn wf(&self) -> bool {
        keys_unique(self.records@)
    }

    /// The current owner: the only principal that may grant roles or
    /// transfer ownership.
    pub closed spec fn spec_owner(&self) -> Seq<char> {
        self.owner@
    }

    /// Whether `principal` holds `role` in the embedded role registry.
    pub closed spec fn spec_has_role(&self, role: Seq<char>, principal: Seq<char>) -> bool {
        self.access.spec_has_role(role, principal)
    }

    /// Whether `caller` may write to the store.
    pub open spec fn can_set(&self, caller: Seq<char>) -> bool {
        self.spec_has_role(set_role_name(), caller)
    }

    /// Whether `caller` may delete from the store.
    pub open spec fn can_delete(&self, caller: Seq<char>) -> bool {
        self.spec_has_role(delete_role_name(), caller)
    }

    /// Whether `caller` is the current owner.
    pub open spec fn is_owner(&self, caller: Seq<char>) -> bool {
        self.spec_owner() == caller
    }

    /// What a read of `key` observes.
    pub open spec fn spec_get(&self, key: Seq<char>) -> Option<Item> {
        if self@.dom().contains(key) {
            Some(self@[key])
        } else {
            None
        }
    }

    /// Creates the registry for `caller`: an empty store, `caller` as owner,
    /// and both built-in roles granted to `caller` and to nobody else.
    pub fn new(caller: String) -> (r: Product)
        ensures
            r.wf(),
            r@ == Map::<Seq<char>, Item>::empty(),
            r.spec_owner() == caller@,
            forall|ro: Seq<char>, p: Seq<char>|
                r.spec_has_role(ro, p) == ((ro == set_role_name() || ro == delete_role_name())
                    && p == caller@),
    {
        let holder_set = caller.clone();
        let holder_delete = caller.clone();
        let mut access = AccessControl::new();
        access.setup_role(set_role_string(), holder_set);
        access.setup_role(delete_role_string(), holder_delete);
        Product { records: Vec::new(), owner: caller, access }
    }

    /// The owner, for display and for host-side checks.
    pub fn get_owner(&self) -> (r: String)
        ensures
            r@ == self.spec_owner(),
    {
        self.owner.clone()
    }

    /// What a successful write does: the store gains `item` at `key`, fully
    /// replacing any prior item there, and owner and roles are untouched.
    pub open spec fn store_updated(
        pre: Product,
        post: Product,
        key: Seq<char>,
        item: Item,
    ) -> bool {
        &&& post@ == pre@.insert(key, item)
        &&& post.spec_owner() == pre.spec_owner()
        &&& forall|ro: Seq<char>, p: Seq<char>|
            post.spec_has_role(ro, p) == pre.spec_has_role(ro, p)
    }

    /// What a successful delete does: `key` leaves the store (a no-op when
    /// absent), and owner and roles are untouched.
    pub open spec fn store_removed(pre: Product, post: Product, key: Seq<char>) -> bool {
        &&& post@ == pre@.remove(key)
        &&& post.spec_owner() == pre.spec_owner()
        &&& forall|ro: Seq<char>, p: Seq<char>|
            post.spec_has_role(ro, p) == pre.spec_has_role(ro, p)
    }

    /// What a successful grant does: exactly the pair (`role`, `account`)
    /// is added to the memberships, and store and owner are untouched.
    pub open spec fn role_granted(
        pre: Product,
        post: Product,
        role: Seq<char>,
        account: Seq<char>,
    ) -> bool {
        &&& forall|ro: Seq<char>, p: Seq<char>|
            post.spec_has_role(ro, p) == (pre.spec_has_role(ro, p) || (ro == role && p
                == account))
        &&& post@ == pre@
        &&& post.spec_owner() == pre.spec_owner()
    }

    /// Reassigns the owner. Only the current owner may transfer ownership;
    /// roles already granted — the previous owner's included — are kept.
    pub fn set_owner(&mut self, caller: &String, new_owner: String) -> (r: Result<
        (),
        RegistryError,
    >)
        requires
            old(self).wf(),
        ensures
            final(self).wf(),
            r is Ok <==> old(self).is_owner(caller@),
            r is Ok ==> final(self).spec_owner() == new_owner@ && final(self)@ == old(self)@
                && forall|ro: Seq<char>, p: Seq<char>|
                final(self).spec_has_role(ro, p) == old(self).spec_has_role(ro, p),
            !(r is Ok) ==> r == Err::<(), RegistryError>(
                RegistryError::NotOwner,
            ) && *final(self) == *old(self),
    {
        if *caller == self.owner {
            self.owner = new_owner;
            Ok(())
        } else {
            Err(RegistryError::NotOwner)
        }
    }

    /// Grants the write role to `account`. Owner-gated; granting an
    /// already-held role is a legal no-op.
    pub fn add_role_set_product(&mut self, caller: &String, account: String) -> (r: Result<
        (),
        RegistryError,
    >)
        requires
            old(self).wf(),
        ensures
            final(self).wf(),
            r is Ok <==> old(self).is_owner(caller@),
            r is Ok ==> Product::role_granted(*old(self), *final(self), set_role_name(), account@),
            !(r is Ok) ==> r == Err::<(), RegistryError>(
                RegistryError::NotOwner,
            ) && *final(self) == *old(self),
    {
        if *caller == self.owner {
            self.access.setup_role(set_role_string(), account);
            Ok(())
        } else {
            Err(RegistryError::NotOwner)
        }
    }

    /// Grants the delete role to `account`. Owner-gated; granting an
    /// already-held role is a legal no-op.
    pub fn add_role_delete_product(&mut self, caller: &String, account: String) -> (r: Result<
        (),
        RegistryError,
    >)
        requires
            old(self).wf(),
        ensures
            final(self).wf(),
            r is Ok <==> old(self).is_owner(caller@),
            r is Ok ==> Product::role_granted(
                *old(self),
                *final(self),
                delete_role_name(),
                account@,
            ),
            !(r is Ok) ==> r == Err::<(), RegistryError>(
                RegistryError::NotOwner,
            ) && *final(self) == *old(self),
    {
        if *caller == self.owner {
            self.access.setup_role(delete_role_string(), account);
            Ok(())
        } else {
            Err(RegistryError::NotOwner)
        }
    }

    /// Stores an item built from the four fields at `key`, fully replacing
    /// any prior item there. Succeeds exactly when `caller` holds the write
    /// role; otherwise fails with the authorization error and changes
    /// nothing.
    pub fn set_products(
        &mut self,
        caller: &String,
        address: String,
        name: String,
        price: u128,
        stock: u8,
    ) -> (r: Result<(), RegistryError>)
        requires
            old(self).wf(),
        ensures
            final(self).wf(),
            r is Ok <==> old(self).can_set(caller@),
            r is Ok ==> Product::store_updated(
                *old(self),
                *final(self),
                address@,
                (Item { name, price, stock }),
            ),
            !(r is Ok) ==> r == Err::<(), RegistryError>(
                RegistryError::Unauthorized,
            ) && *final(self) == *old(self),
    {
        let role = set_role_string();
        if !self.access.has_role(&role, caller) {
            return Err(RegistryError::Unauthorized);
        }
        let item = Item { name, price, stock };
        let found = find_index(&self.records, &address);
        let pair = (address, item);
        let ghost q0 = pair;
        let ghost s0 = self.records@;
        match found {
            Some(i) => {
                self.records[i] = pair;
                proof {
                    lemma_map_of_update(s0, i as int, q0);
                }
            },
            None => {
                self.records.push(pair);
                proof {
                    lemma_map_of_push(s0, q0);
                }
            },
        }
        Ok(())
    }

    /// The current item at `key`, or `None` if never set or previously
    /// deleted. Readable by any caller; no side effects.
    pub fn get_products(&self, address: String) -> (r: Option<Item>)
        requires
            self.wf(),
        ensures
            r == self.spec_get(address@),
    {
        match find_index(&self.records, &address) {
            Some(i) => {
                proof {
                    lemma_map_of_get(self.records@, address@, i as int);
                }
                Some(self.records[i].1.clone())
            },
            None => {
                proof {
                    lemma_map_of_contains(self.records@, address@);
                }
                None
            },
        }
    }

    /// Removes any item at `key`; deleting an absent key is a legal no-op.
    /// Succeeds exactly when `caller` holds the delete role; otherwise fails
    /// with the authorization error and changes nothing.
    pub fn delete_products(&mut self, caller: &String, address: String) -> (r: Result<
        (),
        RegistryError,
    >)
        requires
            old(self).wf(),
        ensures
            final(self).wf(),
            r is Ok <==> old(self).can_delete(caller@),
            r is Ok ==> Product::store_removed(*old(self), *final(self), address@),
            !(r is Ok) ==> r == Err::<(), RegistryError>(
                RegistryError::Unauthorized,
            ) && *final(self) == *old(self),
    {
        let role = delete_role_string();
        if !self.access.has_role(&role, caller) {
            return Err(RegistryError::Unauthorized);
        }
        let ghost s0 = self.records@;
        match find_index(&self.records, &address) {
            Some(i) => {
                self.records.remove(i);
                proof {
                    lemma_map_of_remove(s0, i as int);
                }
            },
            None => {
                proof {
                    lemma_map_of_contains(self.records@, address@);
                    assert(self@.remove(address@) =~= self@);
                }
            },
        }
        Ok(())
    }
}

/// Grants `role` to every principal in `holders`, leaving all other
/// memberships as they were.
fn grant_all(access: &mut AccessControl, role: &String, holders: &Vec<String>)
    ensures
        forall|ro: Seq<char>, p: Seq<char>|
            final(access).spec_has_role(ro, p) == (old(access).spec_has_role(ro, p) || (ro
                == role@ && names_contain(holders@, p))),
{
    let n = holders.len();
    let mut i: usize = 0;
    while i < n
        invariant
            n == holders@.len(),
            i <= n,
            forall|ro: Seq<char>, p: Seq<char>|
                access.spec_has_role(ro, p) == (old(access).spec_has_role(ro, p) || (ro == role@
                    && (exists|j: int| 0 <= j < i && holders@[j]@ == p))),
        decreases n - i,
    {
        let ghost before = *access;
        let ghost i0 = i as int;
        access.setup_role(role.clone(), holders[i].clone());
        i = i + 1;
        proof {
            assert forall|ro: Seq<char>, p: Seq<char>|
                access.spec_has_role(ro, p) == (old(access).spec_has_role(ro, p) || (ro == role@
                    && (exists|j: int| 0 <= j < i && holders@[j]@ == p))) by {
                assert(access.spec_has_role(ro, p) == (before.spec_has_role(ro, p) || (ro
                    == role@ && p == holders@[i0]@)));
                if ro == role@ && p == holders@[i0]@ {
                    assert(0 <= i0 < i && holders@[i0]@ == p);
                }
                if ro == role@ && (exists|j: int| 0 <= j < i && holders@[j]@ == p)
                    && !(exists|j: int| 0 <= j < i0 && holders@[j]@ == p) {
                    let j = choose|j: int| 0 <= j < i && holders@[j]@ == p;
                    assert(j == i0);
                }
            }
        }
    }
}

impl Product {
    /// The recorded holders of the write role, as plain values for the
    /// host's persistence layer.
    pub fn set_role_holders(&self) -> (r: Vec<String>)
        ensures
            forall|p: Seq<char>| #[trigger] names_contain(r@, p) == self.can_set(p),
    {
        let role = set_role_string();
        self.access.holders(&role)
    }

    /// The recorded holders of the delete role, as plain values for the
    /// host's persistence layer.
    pub fn delete_role_holders(&self) -> (r: Vec<String>)
        ensures
            forall|p: Seq<char>| #[trigger] names_contain(r@, p) == self.can_delete(p),
    {
        let role = delete_role_string();
        self.access.holders(&role)
    }

    /// The stored records as plain key–item pairs, one per key, for the
    /// host's persistence layer: each listed pair is what a read of its key
    /// observes, every stored key is listed, and no key is listed twice.
    pub fn entries(&self) -> (r: Vec<(String, Item)>)
        requires
            self.wf(),
        ensures
            forall|j: int|
                0 <= j < r@.len() ==> #[trigger] self.spec_get(r@[j].0@) == Some(r@[j].1),
            forall|k: Seq<char>|
                self@.dom().contains(k) ==> exists|j: int| 0 <= j < r@.len() && r@[j].0@ == k,
            forall|i: int, j: int| 0 <= i < j < r@.len() ==> r@[i].0@ != r@[j].0@,
    {
        let mut out: Vec<(String, Item)> = Vec::new();
        let n = self.records.len();
        let mut i: usize = 0;
        while i < n
            invariant
                n == self.records@.len(),
                i <= n,
                out@.len() == i,
                forall|j: int| 0 <= j < i ==> out@[j] == self.records@[j],
            decreases n - i,
        {
            out.push((self.records[i].0.clone(), self.records[i].1.clone()));
            i = i + 1;
        }
        proof {
            assert(out@ =~= self.records@);
            assert forall|j: int|
                0 <= j < out@.len() implies #[trigger] self.spec_get(out@[j].0@) == Some(
                out@[j].1,
            ) by {
                lemma_map_of_get(self.records@, self.records@[j].0@, j);
            }
            assert forall|k: Seq<char>| self@.dom().contains(k) implies exists|j: int|
                0 <= j < out@.len() && out@[j].0@ == k by {
                lemma_map_of_contains(self.records@, k);
            }
        }
        out
    }

    /// Rebuilds a registry from the plain values the host persisted:
    /// `owner`, the holders of the two built-in roles, and one record per
    /// key. The listed keys must be distinct, as [`Product::entries`]
    /// guarantees of what it hands out.
    pub fn from_state(
        owner: String,
        set_holders: Vec<String>,
        delete_holders: Vec<String>,
        entries: Vec<(String, Item)>,
    ) -> (r: Product)
        requires
            forall|i: int, j: int|
                0 <= i < j < entries@.len() ==> entries@[i].0@ != entries@[j].0@,
        ensures
            r.wf(),
            r.spec_owner() == owner@,
            forall|ro: Seq<char>, p: Seq<char>|
                r.spec_has_role(ro, p) == ((ro == set_role_name() && names_contain(
                    set_holders@,
                    p,
                )) || (ro == delete_role_name() && names_contain(delete_holders@, p))),
            forall|j: int|
                0 <= j < entries@.len() ==> #[trigger] r.spec_get(entries@[j].0@) == Some(
                    entries@[j].1,
                ),
            forall|k: Seq<char>|
                (forall|j: int| 0 <= j < entries@.len() ==> entries@[j].0@ != k)
                    ==> r.spec_get(k) is None,
    {
        let mut access = AccessControl::new();
        let set_role = set_role_string();
        let delete_role = delete_role_string();
        grant_all(&mut access, &set_role, &set_holders);
        grant_all(&mut access, &delete_role, &delete_holders);
        let r = Product { records: entries, owner, access };
        proof {
            assert forall|j: int|
                0 <= j < r.records@.len() implies #[trigger] r.spec_get(r.records@[j].0@)
                == Some(r.records@[j].1) by {
                lemma_map_of_get(r.records@, r.records@[j].0@, j);
            }
            assert forall|k: Seq<char>|
                (forall|j: int| 0 <= j < r.records@.len() ==> r.records@[j].0@ != k)
                    implies r.spec_get(k) is None by {
                lemma_map_of_contains(r.records@, k);
            }
        }
        r
    }
}

/// Creates the registry in `slot`, the host's single storage cell. Fails
/// with the initialization error — and changes nothing — exactly when a
/// registry already exists there; initialization is not idempotent.
pub fn initialize(slot: &mut Option<Product>, caller: String) -> (r: Result<
    (),
    RegistryError,
>)
    ensures
        (*old(slot)) is Some ==> r == Err::<(), RegistryError>(
            RegistryError::AlreadyInitialized,
        ) && *final(slot) == *old(slot),
        (*old(slot)) is None ==> r is Ok && ((*final(slot)) matches Some(p) && p.wf() && p@
            == Map::<Seq<char>, Item>::empty() && p.spec_owner() == caller@ && forall|
            ro: Seq<char>,
            pr: Seq<char>,
        |
            p.spec_has_role(ro, pr) == ((ro == set_role_name() || ro == delete_role_name()) && pr
                == caller@)),
{
    if slot.is_some() {
        return Err(RegistryError::AlreadyInitialized);
    }
    *slot = Some(Product::new(caller));
    Ok(())
}

/// Law: a second write to the same key fully overwrites the first — a read
/// of the key sees exactly the second item, and every other key is exactly
/// as it was before both writes.
pub proof fn lemma_set_overwrites(
    p0: Product,
    p1: Product,
    p2: Product,
    key: Seq<char>,
    first: Item,
    second: Item,
)
    requires
        Product::store_updated(p0, p1, key, first),
        Product::store_updated(p1, p2, key, second),
    ensures
        p2.spec_get(key) == Some(second),
        forall|k: Seq<char>| k != key ==> p2.spec_get(k) == p0.spec_get(k),
{
}

/// Law: after a delete of a key, a read of that key is absent, whether or
/// not the key was present before, and every other key is untouched.
pub proof fn lemma_delete_then_get(p0: Product, p1: Product, key: Seq<char>)
    requires
        Product::store_removed(p0, p1, key),
    ensures
        p1.spec_get(key) is None,
        forall|k: Seq<char>| k != key ==> p1.spec_get(k) == p0.spec_get(k),
{
}

/// Law: granting a role twice leaves exactly the memberships one grant
/// gives — the second grant changes nothing.
pub proof fn lemma_product_grant_idempotent(
    p0: Product,
    p1: Product,
    p2: Product,
    role: Seq<char>,
    account: Seq<char>,
)
    requires
        Product::role_granted(p0, p1, role, account),
        Product::role_granted(p1, p2, role, account),
    ensures
        forall|ro: Seq<char>, p: Seq<char>|
            p2.spec_has_role(ro, p) == p1.spec_has_role(ro, p),
        p1.spec_has_role(role, account),
        p2.spec_has_role(role, account),
{
    assert forall|ro: Seq<char>, p: Seq<char>|
        p2.spec_has_role(ro, p) == p1.spec_has_role(ro, p) by {
        assert(p2.spec_has_role(ro, p) == (p1.spec_has_role(ro, p) || (ro == role && p
            == account)));
        assert(p1.spec_has_role(ro, p) == (p0.spec_has_role(ro, p) || (ro == role && p
            == account)));
    }
}

} // verus!
