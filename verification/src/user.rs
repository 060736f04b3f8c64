//! Users and their stored currency balance, keyed by the platform's numeric
//! user identifier.

use vstd::prelude::*;
use vstd::string::*;

verus! {

/// A user's stored record: the platform identifier and the currency balance.
pub struct TNaUser {
    /// The platform's numeric identifier of the user.
    pub id: u64,
    /// The amount of currency the user has stored.
    pub currency: i32,
}

impl View for TNaUser {
    type V = (u64, i32);

    open spec fn view(&self) -> (u64, i32) {
        (self.id, self.currency)
    }
}

impl DeepView for TNaUser {
    type V = (u64, i32);

    open spec fn deep_view(&self) -> (u64, i32) {
        self@
    }
}

/// Why a user could not be loaded.
#[derive(Debug)]
pub struct TNaUserLoadError {
    pub reason: String,
}

impl TNaUserLoadError {
    /// Wraps a store error's rendered message.
    pub fn from(err: String) -> (r: TNaUserLoadError)
        ensures
            r.reason@ == err@,
    {
        TNaUserLoadError { reason: err }
    }
}

/// The currency stored for an identifier, or nothing when it has no row.
pub open spec fn user_lookup(m: Seq<(u64, i32)>, id: u64) -> Option<i32>
    decreases m.len(),
{
    if m.len() == 0 {
        None
    } else if m[0].0 == id {
        Some(m[0].1)
    } else {
        user_lookup(m.drop_first(), id)
    }
}

/// The user table, one row per identifier.
pub struct UserTable {
    users: Vec<TNaUser>,
}

impl View for UserTable {
    type V = Seq<(u64, i32)>;

    closed spec fn view(&self) -> Seq<(u64, i32)> {
        self.users.deep_view()
    }
}

impl UserTable {
    pub open spec fn wf(&self) -> bool {
        forall|i: int, j: int| 0 <= i < j < self@.len() ==> self@[i].0 != self@[j].0
    }

    /// An empty table.
    pub fn new() -> (r: UserTable)
        ensures
            r@ == Seq::<(u64, i32)>::empty(),
            r.wf(),
    {
        let r = UserTable { users: Vec::new() };
        proof {
            assert(r@ =~= Seq::<(u64, i32)>::empty());
        }
        r
    }
}

proof fn lemma_user_lookup_at(m: Seq<(u64, i32)>, i: int)
    requires
        0 <= i < m.len(),
        forall|j: int| 0 <= j < i ==> m[j].0 != m[i].0,
    ensures
        user_lookup(m, m[i].0) == Some(m[i].1),
    decreases i,
{
    if i > 0 {
        assert(m.drop_first()[i - 1] == m[i]);
        assert forall|j: int| 0 <= j < i - 1 implies (#[trigger] m.drop_first()[j]).0
            != m.drop_first()[i - 1].0 by {
            assert(m.drop_first()[j] == m[j + 1]);
        }
        lemma_user_lookup_at(m.drop_first(), i - 1);
    }
}

proof fn lemma_user_lookup_update(m: Seq<(u64, i32)>, i: int, v: (u64, i32), id: u64)
    requires
        0 <= i < m.len(),
        m[i].0 == v.0,
        id != v.0,
    ensures
        user_lookup(m.update(i, v), id) == user_lookup(m, id),
    decreases i,
{
    let m2 = m.update(i, v);
    if i == 0 {
        assert(m2.drop_first() =~= m.drop_first());
    } else {
        assert(m2[0] == m[0]);
        assert(m2.drop_first() =~= m.drop_first().update(i - 1, v));
        lemma_user_lookup_update(m.drop_first(), i - 1, v, id);
    }
}

proof fn lemma_user_lookup_absent(m: Seq<(u64, i32)>, v: (u64, i32), id: u64)
    requires
        forall|j: int| 0 <= j < m.len() ==> m[j].0 != v.0,
    ensures
        user_lookup(m.push(v), id) == if id == v.0 {
            Some(v.1)
        } else {
            user_lookup(m, id)
        },
    decreases m.len(),
{
    if m.len() == 0 {
        assert(m.push(v)[0] == v);
        assert(m.push(v).drop_first() =~= Seq::<(u64, i32)>::empty());
    } else {
        assert(m.push(v)[0] == m[0]);
        assert(m.push(v).drop_first() =~= m.drop_first().push(v));
        assert forall|j: int| 0 <= j < m.drop_first().len() implies m.drop_first()[j].0
            != v.0 by {
            assert(m.drop_first()[j] == m[j + 1]);
        }
        lemma_user_lookup_absent(m.drop_first(), v, id);
    }
}

impl TNaUser {
    /// Creates the user's record: inserts a row for the identifier, or
    /// resets an existing row's currency, either way leaving the balance at
    /// zero; and hands the fresh user back.
    #[verifier::loop_isolation(false)]
    pub fn new_user(table: &mut UserTable, id: u64) -> (r: TNaUser)
        requires
            old(table).wf(),
        ensures
            final(table).wf(),
            r.id == id,
            r.currency == 0,
            user_lookup(final(table)@, id) == Some(0i32),
            forall|other: u64|
                other != id ==> user_lookup(final(table)@, other) == user_lookup(
                    old(table)@,
                    other,
                ),
    {
        let ghost orig = table@;
        let n = table.users.len();
        let mut i: usize = 0;
        while i < n
            invariant
                table@ == orig,
                n == table.users.len(),
                0 <= i <= n,
                forall|j: int| 0 <= j < i ==> orig[j].0 != id,
            decreases n - i,
        {
            if table.users[i].id == id {
                let ghost before = table.users@;
                let mut u = table.users.remove(i);
                u.currency = 0;
                let ghost unew = u;
                let ghost mid = table.users@;
                table.users.insert(i, u);
                proof {
                    before.remove_ensures(i as int);
                    mid.insert_ensures(i as int, unew);
                    assert(table.users@ =~= before.update(i as int, unew));
                    assert(table@ =~= orig.update(i as int, (id, 0i32)));
                    lemma_user_lookup_at(table@, i as int);
                    assert(user_lookup(table@, id) == Some(0i32));
                    assert forall|other: u64| other != id implies user_lookup(table@, other)
                        == user_lookup(orig, other) by {
                        lemma_user_lookup_update(orig, i as int, (id, 0i32), other);
                    }
                    assert forall|a: int, b: int|
                        0 <= a < b < table@.len() implies table@[a].0 != table@[b].0 by {
                        assert(table@[a].0 == orig[a].0);
                        assert(table@[b].0 == orig[b].0);
                    }
                }
                return TNaUser { id, currency: 0 };
            }
            i += 1;
        }
        table.users.push(TNaUser { id, currency: 0 });
        proof {
            assert(table@ =~= orig.push((id, 0i32)));
            lemma_user_lookup_absent(orig, (id, 0i32), id);
            assert forall|other: u64| other != id implies user_lookup(table@, other)
                == user_lookup(orig, other) by {
                lemma_user_lookup_absent(orig, (id, 0i32), other);
            }
            assert forall|a: int, b: int|
                0 <= a < b < table@.len() implies table@[a].0 != table@[b].0 by {
                if b < orig.len() {
                    assert(table@[a].0 == orig[a].0);
                    assert(table@[b].0 == orig[b].0);
                } else {
                    assert(table@[a].0 == orig[a].0);
                    assert(table@[b].0 == id);
                }
            }
        }
        TNaUser { id, currency: 0 }
    }

    /// Loads the user's record, or says that the identifier has no row.
    #[verifier::loop_isolation(false)]
    pub fn load_user(table: &UserTable, id: u64) -> (r: Result<TNaUser, TNaUserLoadError>)
        requires
            table.wf(),
        ensures
            (r is Ok) <==> user_lookup(table@, id) is Some,
            r matches Ok(u) ==> u.id == id && user_lookup(table@, id) == Some(u.currency),
            r matches Err(e) ==> e.reason@ == "Query returned no rows"@,
    {
        let n = table.users.len();
        let mut i: usize = 0;
        while i < n
            invariant
                0 <= i <= n,
                forall|j: int| 0 <= j < i ==> table@[j].0 != id,
            decreases n - i,
        {
            if table.users[i].id == id {
                proof {
                    lemma_user_lookup_at(table@, i as int);
                }
                return Ok(TNaUser { id, currency: table.users[i].currency });
            }
            i += 1;
        }
        proof {
            lemma_user_lookup_none(table@, id);
        }
        Err(TNaUserLoadError::from("Query returned no rows".to_owned()))
    }
}

proof fn lemma_user_lookup_none(m: Seq<(u64, i32)>, id: u64)
    requires
        forall|j: int| 0 <= j < m.len() ==> m[j].0 != id,
    ensures
        user_lookup(m, id) is None,
    decreases m.len(),
{
    if m.len() > 0 {
        assert forall|j: int| 0 <= j < m.drop_first().len() implies m.drop_first()[j].0 != id by {
            assert(m.drop_first()[j] == m[j + 1]);
        }
        lemma_user_lookup_none(m.drop_first(), id);
    }
}

} // verus!
