use vstd::prelude::*;
use vstd::string::StringExecFns;

use crate::error::Error;
use crate::strutil::str_eq;

verus! {

/// One identity: a unique login, the PHC string of its password hash, and an
/// opaque id generated at creation.
pub struct User {
    pub id: u128,
    pub login: String,
    pub phc: String,
}

/// The mathematical value of a `User`.
pub struct UserView {
    pub id: u128,
    pub login: Seq<char>,
    pub phc: Seq<char>,
}

impl View for User {
    type V = UserView;

    open spec fn view(&self) -> UserView {
        UserView { id: self.id, login: self.login@, phc: self.phc@ }
    }
}

impl User {
    /// A field-for-field copy.
    pub fn duplicate(&self) -> (r: User)
        ensures
            r@ == self@,
    {
        User { id: self.id, login: self.login.clone(), phc: self.phc.clone() }
    }
}

/// The first user with the given id, scanning in creation order.
pub open spec fn find_user(s: Seq<UserView>, id: u128) -> Option<UserView>
    decreases s.len(),
{
    if s.len() == 0 {
        None
    } else if s[0].id == id {
        Some(s[0])
    } else {
        find_user(s.drop_first(), id)
    }
}

/// The first user with the given login, scanning in creation order.
pub open spec fn find_login(s: Seq<UserView>, login: Seq<char>) -> Option<UserView>
    decreases s.len(),
{
    if s.len() == 0 {
        None
    } else if s[0].login == login {
        Some(s[0])
    } else {
        find_login(s.drop_first(), login)
    }
}

/// Whether some user already holds the given login.
pub open spec fn login_taken(s: Seq<UserView>, login: Seq<char>) -> bool {
    find_login(s, login) is Some
}

/// The user rows with the password hash of `id` replaced.
pub open spec fn with_phc(s: Seq<UserView>, id: u128, phc: Seq<char>) -> Seq<UserView> {
    s.map_values(
        |u: UserView|
            if u.id == id {
                UserView { id: u.id, login: u.login, phc }
            } else {
                u
            },
    )
}

/// The user rows without those whose id is `id`.
pub open spec fn without_user(s: Seq<UserView>, id: u128) -> Seq<UserView>
    decreases s.len(),
{
    if s.len() == 0 {
        Seq::<UserView>::empty()
    } else {
        let rest = without_user(s.drop_last(), id);
        if s.last().id == id {
            rest
        } else {
            rest.push(s.last())
        }
    }
}

/// The identity table: rows in creation order, with ids handed out from a
/// monotone counter, the way the backing store's id generator does.
pub struct UserStore {
    next_id: u128,
    users: Vec<User>,
}

impl View for UserStore {
    type V = Seq<UserView>;

    closed spec fn view(&self) -> Seq<UserView> {
        self.users@.map_values(|u: User| u@)
    }
}

impl UserStore {
    pub closed spec fn spec_next_id(&self) -> u128 {
        self.next_id
    }

    /// Every id was handed out by the counter, and ids increase with creation
    /// order, so they are unique.
    pub open spec fn wf(&self) -> bool {
        &&& forall|k: int| 0 <= k < self@.len() ==> (#[trigger] self@[k].id) < self.spec_next_id()
        &&& forall|j: int, k: int| 0 <= j < k < self@.len() ==> self@[j].id < self@[k].id
    }

    pub fn new() -> (r: UserStore)
        ensures
            r@ =~= Seq::<UserView>::empty(),
            r.wf(),
            r.spec_next_id() == 1,
    {
        let r = UserStore { next_id: 1, users: Vec::new() };
        proof {
            assert(r@ =~= Seq::<UserView>::empty());
        }
        r
    }

    /// The id the next created user will receive.
    pub fn peek_next_id(&self) -> (r: u128)
        ensures
            r == self.spec_next_id(),
    {
        self.next_id
    }

    /// Creates an identity. Fails with `Conflict` when the login is already
    /// taken (the store enforces login uniqueness) and with `Internal` when
    /// the id space is exhausted.
    pub fn create(&mut self, login: &str, phc: &str) -> (r: Result<u128, Error>)
        requires
            old(self).wf(),
        ensures
            final(self).wf(),
            login_taken(old(self)@, login@) ==> r is Err && r.unwrap_err() is Conflict,
            !login_taken(old(self)@, login@) && old(self).spec_next_id() == u128::MAX ==> r is Err
                && r.unwrap_err() is Internal,
            r is Err ==> final(self)@ == old(self)@ && final(self).spec_next_id() == old(self).spec_next_id(),
            r is Err ==> login_taken(old(self)@, login@) || old(self).spec_next_id() == u128::MAX,
            r is Err && r.unwrap_err() is Conflict ==> r.unwrap_err().spec_message()
                == "A user with such login already exists."@,
            r is Err ==> (r.unwrap_err() is Conflict <==> login_taken(old(self)@, login@)),
            r is Err ==> r.unwrap_err() is Conflict || r.unwrap_err() is Internal,
            r is Ok ==> !login_taken(old(self)@, login@) && r.unwrap() == old(self).spec_next_id()
                && final(self)@ =~= old(self)@.push(
                UserView { id: old(self).spec_next_id(), login: login@, phc: phc@ },
            ) && final(self).spec_next_id() == old(self).spec_next_id() + 1,
    {
        if self.login_exists(login) {
            return Err(
                Error::Conflict(String::from_str("A user with such login already exists.")),
            );
        }
        if self.next_id == u128::MAX {
            return Err(Error::Internal(String::from_str("Identity id space exhausted")));
        }
        let id = self.next_id;
        let user = User { id, login: String::from_str(login), phc: String::from_str(phc) };
        proof {
            assert(self@.push(user@) =~= self.users@.push(user).map_values(|u: User| u@));
        }
        self.users.push(user);
        self.next_id = id + 1;
        Ok(id)
    }

    /// Whether some user already holds the given login.
    pub fn login_exists(&self, login: &str) -> (r: bool)
        ensures
            r == login_taken(self@, login@),
    {
        match self.find_by_login(login) {
            Some(_) => true,
            None => false,
        }
    }

    /// The user with the given login, if any.
    pub fn find_by_login(&self, login: &str) -> (r: Option<User>)
        ensures
            r is Some <==> find_login(self@, login@) is Some,
            r is Some ==> r.unwrap()@ == find_login(self@, login@).unwrap(),
    {
        let n = self.users.len();
        let mut k: usize = 0;
        proof {
            assert(self@.skip(0) =~= self@);
        }
        while k < n
            invariant
                n == self.users@.len(),
                0 <= k <= n,
                find_login(self@, login@) == find_login(self@.skip(k as int), login@),
            decreases n - k,
        {
            proof {
                assert(self@.skip(k as int)[0] == self@[k as int]);
                assert(self@.skip(k as int).drop_first() =~= self@.skip(k as int + 1));
            }
            if str_eq(self.users[k].login.as_str(), login) {
                return Some(self.users[k].duplicate());
            }
            k = k + 1;
        }
        proof {
            assert(self@.skip(n as int) =~= Seq::<UserView>::empty());
        }
        None
    }

    /// The user with the given id, if any.
    pub fn find_by_id(&self, id: u128) -> (r: Option<User>)
        ensures
            r is Some <==> find_user(self@, id) is Some,
            r is Some ==> r.unwrap()@ == find_user(self@, id).unwrap(),
    {
        let n = self.users.len();
        let mut k: usize = 0;
        proof {
            assert(self@.skip(0) =~= self@);
        }
        while k < n
            invariant
                n == self.users@.len(),
                0 <= k <= n,
                find_user(self@, id) == find_user(self@.skip(k as int), id),
            decreases n - k,
        {
            proof {
                assert(self@.skip(k as int)[0] == self@[k as int]);
                assert(self@.skip(k as int).drop_first() =~= self@.skip(k as int + 1));
            }
            if self.users[k].id == id {
                return Some(self.users[k].duplicate());
            }
            k = k + 1;
        }
        proof {
            assert(self@.skip(n as int) =~= Seq::<UserView>::empty());
        }
        None
    }

    /// Replaces the password hash of the user with the given id; a missing id
    /// leaves the store unchanged, as an update that matches no row does.
    pub fn update_password(&mut self, user_id: u128, new_phc: &str)
        requires
            old(self).wf(),
        ensures
            final(self).wf(),
            final(self)@ =~= with_phc(old(self)@, user_id, new_phc@),
            final(self).spec_next_id() == old(self).spec_next_id(),
    {
        let n = self.users.len();
        let mut k: usize = 0;
        while k < n
            invariant
                n == self.users@.len(),
                self@.len() == old(self)@.len(),
                self.spec_next_id() == old(self).spec_next_id(),
                0 <= k <= n,
                forall|j: int|
                    0 <= j < n ==> (#[trigger] self@[j]) == if j < k && old(self)@[j].id == user_id {
                        UserView { id: old(self)@[j].id, login: old(self)@[j].login, phc: new_phc@ }
                    } else {
                        old(self)@[j]
                    },
            decreases n - k,
        {
            let ghost prev = self@;
            if self.users[k].id == user_id {
                let replacement = User {
                    id: user_id,
                    login: self.users[k].login.clone(),
                    phc: String::from_str(new_phc),
                };
                self.users.set(k, replacement);
                proof {
                    assert(self@ =~= prev.update(k as int, replacement@));
                }
            }
            proof {
                assert forall|j: int| 0 <= j < n implies (#[trigger] self@[j]) == (if j < k as int
                    + 1 && old(self)@[j].id == user_id {
                    UserView { id: old(self)@[j].id, login: old(self)@[j].login, phc: new_phc@ }
                } else {
                    old(self)@[j]
                }) by {
                    if j == k as int && old(self)@[j].id == user_id {
                        assert(prev[j] == old(self)@[j]);
                    } else {
                        assert(self@[j] == prev[j]);
                    }
                }
            }
            k = k + 1;
        }
        proof {
            assert(self@ =~= with_phc(old(self)@, user_id, new_phc@));
            assert forall|j: int, t: int| 0 <= j < t < self@.len() implies self@[j].id
                < self@[t].id by {
                assert(self@[j].id == old(self)@[j].id);
                assert(self@[t].id == old(self)@[t].id);
            }
        }
    }

    /// Removes the user with the given id; a missing id leaves the store
    /// unchanged.
    pub fn delete(&mut self, user_id: u128)
        requires
            old(self).wf(),
        ensures
            final(self).wf(),
            final(self)@ =~= without_user(old(self)@, user_id),
            final(self).spec_next_id() == old(self).spec_next_id(),
    {
        let n = self.users.len();
        let mut out: Vec<User> = Vec::new();
        let mut k: usize = 0;
        proof {
            assert(old(self)@.subrange(0, 0) =~= Seq::<UserView>::empty());
            assert(without_user(Seq::<UserView>::empty(), user_id) =~= Seq::<UserView>::empty());
        }
        while k < n
            invariant
                n == old(self).users@.len(),
                self.users@ == old(self).users@,
                self.spec_next_id() == old(self).spec_next_id(),
                0 <= k <= n,
                out@.map_values(|u: User| u@) =~= without_user(
                    old(self)@.subrange(0, k as int),
                    user_id,
                ),
                forall|j: int|
                    0 <= j < out@.len() ==> exists|t: int|
                        0 <= t < k && (#[trigger] out@[j]@) == old(self)@[t],
            decreases n - k,
        {
            let ghost pre = old(self)@.subrange(0, k as int);
            let ghost pre2 = old(self)@.subrange(0, k as int + 1);
            proof {
                assert(pre2.drop_last() =~= pre);
                assert(pre2.last() == old(self)@[k as int]);
            }
            if self.users[k].id != user_id {
                let kept = self.users[k].duplicate();
                proof {
                    assert(out@.push(kept).map_values(|u: User| u@) =~= out@.map_values(
                        |u: User| u@,
                    ).push(kept@));
                }
                out.push(kept);
            }
            k = k + 1;
        }
        proof {
            assert(old(self)@.subrange(0, n as int) =~= old(self)@);
        }
        self.users = out;
        proof {
            assert forall|j: int, t: int| 0 <= j < t < self@.len() implies self@[j].id
                < self@[t].id by {
                lemma_without_user_order(old(self)@, user_id, j, t);
            }
            assert forall|j: int| 0 <= j < self@.len() implies (#[trigger] self@[j].id)
                < self.spec_next_id() by {
                lemma_without_user_order(old(self)@, user_id, j, j);
            }
        }
    }
}

/// Every element that removal keeps stands in the original at some position,
/// and relative creation order is preserved.
proof fn lemma_without_user_order(s: Seq<UserView>, id: u128, j: int, t: int)
    requires
        forall|a: int, b: int| 0 <= a < b < s.len() ==> s[a].id < s[b].id,
        0 <= j <= t < without_user(s, id).len(),
    ensures
        j < t ==> without_user(s, id)[j].id < without_user(s, id)[t].id,
        exists|a: int| 0 <= a < s.len() && without_user(s, id)[t] == s[a],
        exists|a: int| 0 <= a < s.len() && without_user(s, id)[j] == s[a],
    decreases s.len(),
{
    lemma_without_user_membership(s, id);
    let r = without_user(s, id);
    if j < t {
        lemma_without_user_sorted(s, id);
    }
}

/// Every element of the removal result is an element of the original.
proof fn lemma_without_user_membership(s: Seq<UserView>, id: u128)
    ensures
        forall|j: int|
            0 <= j < without_user(s, id).len() ==> exists|a: int|
                0 <= a < s.len() && (#[trigger] without_user(s, id)[j]) == s[a],
    decreases s.len(),
{
    if s.len() > 0 {
        lemma_without_user_membership(s.drop_last(), id);
        let rest = without_user(s.drop_last(), id);
        assert forall|j: int| 0 <= j < without_user(s, id).len() implies exists|a: int|
            0 <= a < s.len() && (#[trigger] without_user(s, id)[j]) == s[a] by {
            if j < rest.len() {
                let a = choose|a: int|
                    0 <= a < s.drop_last().len() && rest[j] == s.drop_last()[a];
                assert(without_user(s, id)[j] == s[a]);
            } else {
                assert(without_user(s, id)[j] == s.last());
                assert(without_user(s, id)[j] == s[s.len() - 1]);
            }
        }
    }
}

/// Removal keeps the strict ordering of ids.
proof fn lemma_without_user_sorted(s: Seq<UserView>, id: u128)
    requires
        forall|a: int, b: int| 0 <= a < b < s.len() ==> s[a].id < s[b].id,
    ensures
        forall|a: int, b: int|
            0 <= a < b < without_user(s, id).len() ==> without_user(s, id)[a].id < without_user(
                s,
                id,
            )[b].id,
    decreases s.len(),
{
    if s.len() > 0 {
        lemma_without_user_sorted(s.drop_last(), id);
        lemma_without_user_membership(s.drop_last(), id);
        let rest = without_user(s.drop_last(), id);
        if s.last().id != id {
            assert forall|a: int, b: int|
                0 <= a < b < without_user(s, id).len() implies without_user(s, id)[a].id
                < without_user(s, id)[b].id by {
                if b == rest.len() {
                    let t = choose|t: int|
                        0 <= t < s.drop_last().len() && rest[a] == s.drop_last()[t];
                    assert(rest[a].id == s[t].id);
                    assert(s[t].id < s.last().id);
                }
            }
        }
    }
}

} // verus!
