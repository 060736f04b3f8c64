//! The listen counters: a table of play counts keyed by exact name, with the
//! insert-or-increment operation and the descending top-N query.

use vstd::prelude::*;
use crate::text::str_eq;

verus! {

/// One row of a listen table: a name and how often it was played.
pub struct ListenEntry {
    pub name: String,
    pub listen_count: u64,
}

impl View for ListenEntry {
    type V = (Seq<char>, u64);

    open spec fn view(&self) -> (Seq<char>, u64) {
        (self.name@, self.listen_count)
    }
}

impl DeepView for ListenEntry {
    type V = (Seq<char>, u64);

    open spec fn deep_view(&self) -> (Seq<char>, u64) {
        self@
    }
}

impl ListenEntry {
    /// A copy of this row.
    pub fn duplicate(&self) -> (r: ListenEntry)
        ensures
            r@ == self@,
    {
        ListenEntry { name: self.name.clone(), listen_count: self.listen_count }
    }
}

/// Whether a row with this exact name is present.
pub open spec fn contains_name(m: Seq<(Seq<char>, u64)>, name: Seq<char>) -> bool
    decreases m.len(),
{
    if m.len() == 0 {
        false
    } else if m[0].0 == name {
        true
    } else {
        contains_name(m.drop_first(), name)
    }
}

/// The count recorded for a name, 0 when the name has no row.
pub open spec fn count_of(m: Seq<(Seq<char>, u64)>, name: Seq<char>) -> u64
    decreases m.len(),
{
    if m.len() == 0 {
        0u64
    } else if m[0].0 == name {
        m[0].1
    } else {
        count_of(m.drop_first(), name)
    }
}

/// The table after one recorded play of `name`: the existing row's count is
/// raised by one, or a fresh row with count 1 is appended.
pub open spec fn upsert(m: Seq<(Seq<char>, u64)>, name: Seq<char>) -> Seq<(Seq<char>, u64)>
    decreases m.len(),
{
    if m.len() == 0 {
        seq![(name, 1u64)]
    } else if m[0].0 == name {
        seq![(m[0].0, (m[0].1 + 1) as u64)] + m.drop_first()
    } else {
        seq![m[0]] + upsert(m.drop_first(), name)
    }
}

/// A well-formed table: names are pairwise distinct and non-empty.
pub open spec fn table_wf(m: Seq<(Seq<char>, u64)>) -> bool {
    &&& forall|i: int, j: int| 0 <= i < j < m.len() ==> m[i].0 != m[j].0
    &&& forall|i: int| 0 <= i < m.len() ==> m[i].0.len() > 0
}

/// `sel` is a top-`n` selection of the table `tv`: as many rows as are
/// available up to `n`, in descending count order, drawn from `tv` without
/// repeating a name, and every row of `tv` that was left out counts no more
/// than the last selected row.
pub open spec fn top_selection(
    tv: Seq<(Seq<char>, u64)>,
    sel: Seq<(Seq<char>, u64)>,
    n: int,
) -> bool {
    &&& sel.len() == if n <= tv.len() {
        n
    } else {
        tv.len() as int
    }
    &&& forall|i: int, j: int| 0 <= i < j < sel.len() ==> sel[i].1 >= sel[j].1
    &&& forall|i: int| 0 <= i < sel.len() ==> tv.contains(sel[i])
    &&& forall|i: int, j: int| 0 <= i < j < sel.len() ==> sel[i].0 != sel[j].0
    &&& forall|k: int|
        0 <= k < tv.len() && !contains_name(sel, tv[k].0) ==> sel.len() >= 1 && tv[k].1 <= sel[
            sel.len() - 1].1
}

pub proof fn lemma_contains_index(m: Seq<(Seq<char>, u64)>, name: Seq<char>)
    ensures
        contains_name(m, name) <==> exists|i: int| 0 <= i < m.len() && m[i].0 == name,
    decreases m.len(),
{
    if m.len() > 0 {
        lemma_contains_index(m.drop_first(), name);
        if m[0].0 == name {
            assert(m[0].0 == name);
        } else if contains_name(m.drop_first(), name) {
            let i = choose|i: int| 0 <= i < m.drop_first().len() && m.drop_first()[i].0 == name;
            assert(m[i + 1].0 == name);
        } else {
            assert forall|i: int| 0 <= i < m.len() implies m[i].0 != name by {
                if i > 0 {
                    assert(m.drop_first()[i - 1] == m[i]);
                }
            }
        }
    }
}

/// In a table with distinct names, the count of a row's name is that row's count.
pub proof fn lemma_count_of_entry(m: Seq<(Seq<char>, u64)>, i: int)
    requires
        0 <= i < m.len(),
        forall|a: int, b: int| 0 <= a < b < m.len() ==> m[a].0 != m[b].0,
    ensures
        count_of(m, m[i].0) == m[i].1,
        contains_name(m, m[i].0),
    decreases i,
{
    if i == 0 {
    } else {
        assert(m[0].0 != m[i].0);
        assert(m.drop_first()[i - 1] == m[i]);
        assert forall|a: int, b: int|
            0 <= a < b < m.drop_first().len() implies m.drop_first()[a].0
            != m.drop_first()[b].0 by {
            assert(m.drop_first()[a] == m[a + 1]);
            assert(m.drop_first()[b] == m[b + 1]);
        }
        lemma_count_of_entry(m.drop_first(), i - 1);
    }
}

/// A name without a row has count 0.
pub proof fn lemma_absent_count_zero(m: Seq<(Seq<char>, u64)>, name: Seq<char>)
    requires
        !contains_name(m, name),
    ensures
        count_of(m, name) == 0,
    decreases m.len(),
{
    if m.len() > 0 {
        lemma_absent_count_zero(m.drop_first(), name);
    }
}

/// Recording a play raises the recorded name's count by exactly one.
pub proof fn lemma_upsert_count(m: Seq<(Seq<char>, u64)>, name: Seq<char>)
    requires
        count_of(m, name) < u64::MAX,
    ensures
        count_of(upsert(m, name), name) == count_of(m, name) + 1,
    decreases m.len(),
{
    if m.len() == 0 {
    } else if m[0].0 == name {
        assert(upsert(m, name)[0] == (m[0].0, (m[0].1 + 1) as u64));
    } else {
        lemma_upsert_count(m.drop_first(), name);
        assert(upsert(m, name)[0] == m[0]);
        assert(upsert(m, name).drop_first() =~= upsert(m.drop_first(), name));
    }
}

/// Recording a play leaves every other name's count and presence unchanged.
pub proof fn lemma_upsert_other(m: Seq<(Seq<char>, u64)>, name: Seq<char>, other: Seq<char>)
    requires
        other != name,
    ensures
        count_of(upsert(m, name), other) == count_of(m, other),
        contains_name(upsert(m, name), other) == contains_name(m, other),
    decreases m.len(),
{
    if m.len() == 0 {
        let u = upsert(m, name);
        assert(u[0].0 == name);
        assert(u.drop_first() =~= Seq::<(Seq<char>, u64)>::empty());
        assert(count_of(u.drop_first(), other) == 0);
        assert(!contains_name(u.drop_first(), other));
    } else if m[0].0 == name {
        assert(upsert(m, name)[0].0 == name);
        assert(upsert(m, name).drop_first() =~= m.drop_first());
    } else {
        lemma_upsert_other(m.drop_first(), name, other);
        assert(upsert(m, name)[0] == m[0]);
        assert(upsert(m, name).drop_first() =~= upsert(m.drop_first(), name));
    }
}

/// The recorded name has a row afterwards; no other name appears or vanishes.
pub proof fn lemma_upsert_contains(m: Seq<(Seq<char>, u64)>, name: Seq<char>, x: Seq<char>)
    ensures
        contains_name(upsert(m, name), x) <==> (contains_name(m, x) || x == name),
    decreases m.len(),
{
    if m.len() == 0 {
        let u = upsert(m, name);
        assert(u[0].0 == name);
        assert(u.drop_first() =~= Seq::<(Seq<char>, u64)>::empty());
        assert(!contains_name(u.drop_first(), x));
    } else if m[0].0 == name {
        assert(upsert(m, name)[0].0 == name);
        assert(upsert(m, name).drop_first() =~= m.drop_first());
    } else {
        lemma_upsert_contains(m.drop_first(), name, x);
        assert(upsert(m, name)[0] == m[0]);
        assert(upsert(m, name).drop_first() =~= upsert(m.drop_first(), name));
    }
}

/// Recording the same name twice raises its count by exactly two.
pub proof fn lemma_record_twice(m: Seq<(Seq<char>, u64)>, name: Seq<char>)
    requires
        count_of(m, name) + 2 <= u64::MAX,
    ensures
        count_of(upsert(upsert(m, name), name), name) == count_of(m, name) + 2,
{
    lemma_upsert_count(m, name);
    lemma_upsert_count(upsert(m, name), name);
}

/// The first recorded play of an unseen name creates its row with count 1.
pub proof fn lemma_first_record(m: Seq<(Seq<char>, u64)>, name: Seq<char>)
    requires
        !contains_name(m, name),
    ensures
        contains_name(upsert(m, name), name),
        count_of(upsert(m, name), name) == 1,
{
    lemma_absent_count_zero(m, name);
    lemma_upsert_count(m, name);
    lemma_upsert_contains(m, name, name);
}

/// Recorded plays of two different names leave the same counts in either
/// order: interleaving concurrent plays cannot lose an increment.
pub proof fn lemma_upsert_commutes(m: Seq<(Seq<char>, u64)>, a: Seq<char>, b: Seq<char>)
    requires
        a != b,
        count_of(m, a) < u64::MAX,
        count_of(m, b) < u64::MAX,
    ensures
        forall|x: Seq<char>|
            count_of(upsert(upsert(m, a), b), x) == count_of(upsert(upsert(m, b), a), x),
{
    assert forall|x: Seq<char>|
        count_of(upsert(upsert(m, a), b), x) == count_of(upsert(upsert(m, b), a), x) by {
        lemma_upsert_other(m, a, b);
        lemma_upsert_other(m, b, a);
        lemma_upsert_count(m, a);
        lemma_upsert_count(m, b);
        lemma_upsert_count(upsert(m, b), a);
        lemma_upsert_count(upsert(m, a), b);
        if x != b {
            lemma_upsert_other(upsert(m, a), b, x);
        }
        if x != a {
            lemma_upsert_other(upsert(m, b), a, x);
        }
        if x != a && x != b {
            lemma_upsert_other(m, a, x);
            lemma_upsert_other(m, b, x);
        }
    }
}

/// The table after `n` recorded plays of `name`.
pub open spec fn upsert_n(m: Seq<(Seq<char>, u64)>, name: Seq<char>, n: nat) -> Seq<
    (Seq<char>, u64),
>
    decreases n,
{
    if n == 0 {
        m
    } else {
        upsert(upsert_n(m, name, (n - 1) as nat), name)
    }
}

/// `n` recorded plays of one name raise its count by exactly `n`, and each
/// play leaves every other name's count alone, so plays of distinct names
/// may be interleaved in any order without losing an increment.
pub proof fn lemma_record_n(m: Seq<(Seq<char>, u64)>, name: Seq<char>, n: nat)
    requires
        count_of(m, name) + n <= u64::MAX,
    ensures
        count_of(upsert_n(m, name, n), name) == count_of(m, name) + n,
    decreases n,
{
    if n > 0 {
        lemma_record_n(m, name, (n - 1) as nat);
        lemma_upsert_count(upsert_n(m, name, (n - 1) as nat), name);
    }
}

/// A persistent table of play counts, one row per name.
pub struct ListenTable {
    entries: Vec<ListenEntry>,
}

impl View for ListenTable {
    type V = Seq<(Seq<char>, u64)>;

    closed spec fn view(&self) -> Seq<(Seq<char>, u64)> {
        self.entries.deep_view()
    }
}

impl ListenTable {
    pub open spec fn wf(&self) -> bool {
        table_wf(self@)
    }

    /// An empty table.
    pub fn new() -> (r: ListenTable)
        ensures
            r@ == Seq::<(Seq<char>, u64)>::empty(),
            r.wf(),
    {
        let r = ListenTable { entries: Vec::new() };
        proof {
            assert(r@ =~= Seq::<(Seq<char>, u64)>::empty());
        }
        r
    }

    /// Rebuilds a table from persisted rows. The rows are accepted when
    /// they meet the table's invariant: every name non-empty, no name twice.
    #[verifier::loop_isolation(false)]
    pub fn from_rows(rows: Vec<ListenEntry>) -> (r: Option<ListenTable>)
        ensures
            (r is Some) <==> table_wf(rows.deep_view()),
            r matches Some(t) ==> t@ == rows.deep_view() && t.wf(),
    {
        let n = rows.len();
        let mut i: usize = 0;
        while i < n
            invariant
                0 <= i <= n,
                n == rows.len(),
                forall|a: int| 0 <= a < i ==> rows.deep_view()[a].0.len() > 0,
                forall|a: int, b: int|
                    0 <= a < i && a < b < n ==> rows.deep_view()[a].0 != rows.deep_view()[b].0,
            decreases n - i,
        {
            if rows[i].name.as_str().is_empty() {
                proof {
                    assert(rows.deep_view()[i as int] == (rows@[i as int].name@, rows@[
                        i as int].listen_count));
                    assert(rows.deep_view()[i as int].0.len() == 0);
                }
                return None;
            }
            let mut j: usize = i + 1;
            while j < n
                invariant
                    i < j <= n,
                    forall|b: int| i < b < j ==> rows.deep_view()[i as int].0 != rows.deep_view()[b].0,
                decreases n - j,
            {
                if str_eq(rows[i].name.as_str(), rows[j].name.as_str()) {
                    proof {
                        assert(rows.deep_view()[i as int] == (rows@[i as int].name@, rows@[
                            i as int].listen_count));
                        assert(rows.deep_view()[j as int] == (rows@[j as int].name@, rows@[
                            j as int].listen_count));
                        assert(rows.deep_view()[i as int].0 == rows.deep_view()[j as int].0);
                    }
                    return None;
                }
                j += 1;
            }
            i += 1;
        }
        Some(ListenTable { entries: rows })
    }

    /// The number of rows.
    pub fn len(&self) -> (r: usize)
        ensures
            r == self@.len(),
    {
        self.entries.len()
    }

    /// The count recorded for a name, 0 when the name has no row.
    #[verifier::loop_isolation(false)]
    pub fn count(&self, name: &str) -> (r: u64)
        requires
            self.wf(),
        ensures
            r == count_of(self@, name@),
    {
        let n = self.entries.len();
        let mut i: usize = 0;
        while i < n
            invariant
                0 <= i <= n,
                forall|j: int| 0 <= j < i ==> self@[j].0 != name@,
            decreases n - i,
        {
            if str_eq(self.entries[i].name.as_str(), name) {
                proof {
                    lemma_count_of_entry(self@, i as int);
                }
                return self.entries[i].listen_count;
            }
            i += 1;
        }
        proof {
            lemma_contains_index(self@, name@);
            lemma_absent_count_zero(self@, name@);
        }
        0
    }

    /// Records one play of `name`: raises the existing row's count by one, or
    /// inserts a fresh row with count 1.
    #[verifier::loop_isolation(false)]
    pub fn record_play(&mut self, name: &str)
        requires
            old(self).wf(),
            name@.len() > 0,
            count_of(old(self)@, name@) < u64::MAX,
        ensures
            final(self).wf(),
            final(self)@ == upsert(old(self)@, name@),
            count_of(final(self)@, name@) == count_of(old(self)@, name@) + 1,
            contains_name(final(self)@, name@),
            forall|other: Seq<char>|
                other != name@ ==> count_of(final(self)@, other) == count_of(old(self)@, other),
    {
        let ghost orig = self@;
        let n = self.entries.len();
        let mut i: usize = 0;
        while i < n
            invariant
                self@ == orig,
                table_wf(orig),
                name@.len() > 0,
                count_of(orig, name@) < u64::MAX,
                n == self.entries.len(),
                0 <= i <= n,
                orig.len() == n,
                forall|j: int| 0 <= j < i ==> orig[j].0 != name@,
            decreases n - i,
        {
            if str_eq(self.entries[i].name.as_str(), name) {
                proof {
                    assert(orig[i as int] == (self.entries@[i as int].name@, self.entries@[
                        i as int].listen_count));
                    assert(orig[i as int].0 == name@);
                    lemma_count_of_entry(orig, i as int);
                    assert(orig[i as int].1 < u64::MAX);
                }
                let ghost before_entries = self.entries@;
                let mut e = self.entries.remove(i);
                e.listen_count = e.listen_count + 1;
                let ghost enew = e;
                let ghost mid_entries = self.entries@;
                self.entries.insert(i, e);
                proof {
                    before_entries.remove_ensures(i as int);
                    mid_entries.insert_ensures(i as int, enew);
                    assert(self.entries@ =~= before_entries.update(i as int, enew));
                    assert(enew.name@ == name@);
                    assert(enew.listen_count == orig[i as int].1 + 1);
                    assert(self@ =~= orig.update(
                        i as int,
                        (name@, (orig[i as int].1 + 1) as u64),
                    ));
                    lemma_upsert_at(orig, name@, i as int);
                    assert(self@ == upsert(orig, name@));
                    lemma_upsert_count(orig, name@);
                    lemma_upsert_contains(orig, name@, name@);
                    assert forall|other: Seq<char>| other != name@ implies count_of(
                        self@,
                        other,
                    ) == count_of(orig, other) by {
                        lemma_upsert_other(orig, name@, other);
                    }
                    assert(self.wf()) by {
                        assert forall|a: int, b: int|
                            0 <= a < b < self@.len() implies self@[a].0 != self@[b].0 by {
                            assert(self@[a].0 == orig[a].0);
                            assert(self@[b].0 == orig[b].0);
                        }
                        assert forall|a: int| 0 <= a < self@.len() implies self@[a].0.len()
                            > 0 by {
                            assert(self@[a].0 == orig[a].0);
                        }
                    }
                }
                return ;
            }
            i += 1;
        }
        let e = ListenEntry { name: name.to_owned(), listen_count: 1 };
        self.entries.push(e);
        proof {
            assert(self@ =~= orig.push((name@, 1u64)));
            lemma_contains_index(orig, name@);
            assert(!contains_name(orig, name@));
            lemma_upsert_absent(orig, name@);
            assert(self@ == upsert(orig, name@));
            lemma_upsert_count(orig, name@);
            lemma_upsert_contains(orig, name@, name@);
            assert forall|other: Seq<char>| other != name@ implies count_of(self@, other)
                == count_of(orig, other) by {
                lemma_upsert_other(orig, name@, other);
            }
            assert(self.wf()) by {
                assert forall|a: int, b: int|
                    0 <= a < b < self@.len() implies self@[a].0 != self@[b].0 by {
                    if b < orig.len() {
                        assert(self@[a].0 == orig[a].0);
                        assert(self@[b].0 == orig[b].0);
                    } else {
                        assert(self@[a].0 == orig[a].0);
                        assert(self@[b].0 == name@);
                    }
                }
                assert forall|a: int| 0 <= a < self@.len() implies self@[a].0.len() > 0 by {
                    if a < orig.len() {
                        assert(self@[a].0 == orig[a].0);
                    }
                }
            }
        }
    }

    /// The rows with the `n` highest counts, highest first; rows with equal
    /// counts keep the table's order. Every row left out counts no more than
    /// the last row returned.
    pub fn top_n(&self, n: usize) -> (r: Vec<ListenEntry>)
        requires
            self.wf(),
            n >= 1,
        ensures
            top_selection(self@, r.deep_view(), n as int),
    {
        let ghost tv = self@;
        let mut sorted: Vec<ListenEntry> = Vec::new();
        let mut k: usize = 0;
        proof {
            assert(sorted.deep_view() =~= Seq::<(Seq<char>, u64)>::empty());
        }
        while k < self.entries.len()
            invariant
                self.wf(),
                tv == self@,
                tv.len() == self.entries.len(),
                0 <= k <= tv.len(),
                sorted.deep_view().len() == k,
                forall|i: int, j: int|
                    0 <= i < j < k ==> sorted.deep_view()[i].1 >= sorted.deep_view()[j].1,
                forall|i: int| 0 <= i < k ==> tv.contains(sorted.deep_view()[i]),
                forall|i: int|
                    0 <= i < k ==> contains_name(tv.take(k as int), sorted.deep_view()[i].0),
                forall|t: int|
                    0 <= t < k ==> contains_name(sorted.deep_view(), tv[t].0),
                forall|i: int, j: int|
                    0 <= i < j < k ==> sorted.deep_view()[i].0 != sorted.deep_view()[j].0,
            decreases tv.len() - k,
        {
            let ghost sv = sorted.deep_view();
            let ghost prev_vec = sorted@;
            let e = self.entries[k].duplicate();
            proof {
                assert(e@ == tv[k as int]);
            }
            let mut p: usize = 0;
            while p < sorted.len() && sorted[p].listen_count >= e.listen_count
                invariant
                    sv == sorted.deep_view(),
                    sorted.len() == sv.len(),
                    0 <= p <= sv.len(),
                    forall|q: int| 0 <= q < p ==> sv[q].1 >= e@.1,
                decreases sorted.len() - p,
            {
                p += 1;
            }
            proof {
                assert(p < sv.len() ==> sv[p as int].1 < e@.1);
            }
            let ghost eg = e;
            sorted.insert(p, e);
            proof {
                let sv2 = sorted.deep_view();
                prev_vec.insert_ensures(p as int, eg);
                assert(sorted@ == prev_vec.insert(p as int, eg));
                assert(sv2.len() == sv.len() + 1);
                assert forall|x: int| 0 <= x < sv2.len() implies sv2[x] == (if x < p {
                    sv[x]
                } else if x == p {
                    tv[k as int]
                } else {
                    sv[x - 1]
                }) by {
                    if x < p {
                        assert(sorted@[x] == prev_vec[x]);
                    } else if x == p {
                        assert(sorted@[x] == eg);
                    } else {
                        assert(sorted@[x] == prev_vec[x - 1]);
                    }
                }
                lemma_inserted_views(sv, sv2, tv, k as int, p as int);
            }
            k += 1;
        }
        let ghost sv_full = sorted.deep_view();
        proof {
            assert forall|t: int| 0 <= t < tv.len() implies contains_name(sv_full, tv[t].0) by {}
        }
        let n_keep = if n <= sorted.len() {
            n
        } else {
            sorted.len()
        };
        while sorted.len() > n_keep
            invariant
                table_wf(tv),
                n_keep >= 1 || sorted.len() == 0,
                n_keep <= sorted.len(),
                sorted.deep_view().len() == sorted.len(),
                forall|i: int, j: int|
                    0 <= i < j < sorted.deep_view().len() ==> sorted.deep_view()[i].1
                        >= sorted.deep_view()[j].1,
                forall|i: int|
                    0 <= i < sorted.deep_view().len() ==> tv.contains(sorted.deep_view()[i]),
                forall|i: int, j: int|
                    0 <= i < j < sorted.deep_view().len() ==> sorted.deep_view()[i].0
                        != sorted.deep_view()[j].0,
                forall|t: int|
                    0 <= t < tv.len() && !contains_name(sorted.deep_view(), tv[t].0)
                        ==> sorted.deep_view().len() >= 1 && tv[t].1 <= sorted.deep_view()[
                        sorted.deep_view().len() - 1].1,
            decreases sorted.len(),
        {
            let ghost before = sorted.deep_view();
            sorted.pop();
            proof {
                let after = sorted.deep_view();
                assert(after =~= before.subrange(0, before.len() - 1));
                lemma_pop_keeps_top(before, after, tv);
            }
        }
        sorted
    }
}

/// After inserting the `k`-th table row at its sorted position `p`, the
/// accumulated rows still mirror the first `k + 1` table rows, stay sorted
/// and keep distinct names.
proof fn lemma_inserted_views(
    sv: Seq<(Seq<char>, u64)>,
    sv2: Seq<(Seq<char>, u64)>,
    tv: Seq<(Seq<char>, u64)>,
    k: int,
    p: int,
)
    requires
        0 <= k < tv.len(),
        0 <= p <= sv.len(),
        sv.len() == k,
        sv2.len() == k + 1,
        forall|x: int|
            0 <= x < sv2.len() ==> sv2[x] == (if x < p {
                sv[x]
            } else if x == p {
                tv[k]
            } else {
                sv[x - 1]
            }),
        forall|i: int, j: int| 0 <= i < j < tv.len() ==> tv[i].0 != tv[j].0,
        forall|i: int, j: int| 0 <= i < j < sv.len() ==> sv[i].1 >= sv[j].1,
        forall|q: int| 0 <= q < p ==> sv[q].1 >= tv[k].1,
        p < sv.len() ==> sv[p].1 < tv[k].1,
        forall|i: int| 0 <= i < sv.len() ==> tv.contains(sv[i]),
        forall|i: int| 0 <= i < sv.len() ==> contains_name(tv.take(k), sv[i].0),
        forall|t: int| 0 <= t < k ==> contains_name(sv, tv[t].0),
        forall|i: int, j: int| 0 <= i < j < sv.len() ==> sv[i].0 != sv[j].0,
    ensures
        forall|i: int, j: int| 0 <= i < j < sv2.len() ==> sv2[i].1 >= sv2[j].1,
        forall|i: int| 0 <= i < sv2.len() ==> tv.contains(sv2[i]),
        forall|i: int| 0 <= i < sv2.len() ==> contains_name(tv.take(k + 1), sv2[i].0),
        forall|t: int| 0 <= t < k + 1 ==> contains_name(sv2, tv[t].0),
        forall|i: int, j: int| 0 <= i < j < sv2.len() ==> sv2[i].0 != sv2[j].0,
{
    assert forall|i: int, j: int| 0 <= i < j < sv2.len() implies sv2[i].1 >= sv2[j].1 by {}
    assert forall|i: int| 0 <= i < sv2.len() implies tv.contains(sv2[i]) by {
        if i == p {
            assert(tv[k] == sv2[i]);
        }
    }
    assert forall|i: int| 0 <= i < sv2.len() implies contains_name(tv.take(k + 1), sv2[i].0) by {
        lemma_contains_index(tv.take(k + 1), sv2[i].0);
        if i == p {
            assert(tv.take(k + 1)[k].0 == sv2[i].0);
        } else {
            let o_prev: int = if i < p {
                i
            } else {
                i - 1
            };
            lemma_contains_index(tv.take(k), sv[o_prev].0);
            let t = choose|t: int| 0 <= t < tv.take(k).len() && tv.take(k)[t].0 == sv[o_prev].0;
            assert(tv.take(k + 1)[t].0 == sv2[i].0);
        }
    }
    assert forall|i: int, j: int| 0 <= i < j < sv2.len() implies sv2[i].0 != sv2[j].0 by {
        if i == p || j == p {
            let other = if i == p {
                j
            } else {
                i
            };
            let o_prev: int = if other < p {
                other
            } else {
                other - 1
            };
            lemma_contains_index(tv.take(k), sv[o_prev].0);
            let t = choose|t: int| 0 <= t < tv.take(k).len() && tv.take(k)[t].0 == sv[o_prev].0;
            assert(tv[t].0 == sv[o_prev].0);
            assert(tv[t].0 != tv[k].0);
        }
    }
    assert forall|t: int| 0 <= t < k + 1 implies contains_name(sv2, tv[t].0) by {
        lemma_contains_index(sv2, tv[t].0);
        if t == k {
            assert(sv2[p].0 == tv[k].0);
        } else {
            lemma_contains_index(sv, tv[t].0);
            let i = choose|i: int| 0 <= i < sv.len() && sv[i].0 == tv[t].0;
            if i < p {
                assert(sv2[i].0 == tv[t].0);
            } else {
                assert(sv2[i + 1].0 == tv[t].0);
            }
        }
    }
}

/// Dropping the last (lowest-counted) row of a sorted selection keeps every
/// excluded table row's count at or below the new last row's count.
proof fn lemma_pop_keeps_top(
    before: Seq<(Seq<char>, u64)>,
    after: Seq<(Seq<char>, u64)>,
    tv: Seq<(Seq<char>, u64)>,
)
    requires
        before.len() >= 2,
        after == before.subrange(0, before.len() - 1),
        forall|i: int, j: int| 0 <= i < j < before.len() ==> before[i].1 >= before[j].1,
        forall|i: int, j: int| 0 <= i < j < before.len() ==> before[i].0 != before[j].0,
        forall|i: int| 0 <= i < before.len() ==> tv.contains(before[i]),
        forall|i: int, j: int| 0 <= i < j < tv.len() ==> tv[i].0 != tv[j].0,
        forall|t: int|
            0 <= t < tv.len() && !contains_name(before, tv[t].0) ==> tv[t].1 <= before[before.len()
                - 1].1,
    ensures
        forall|t: int|
            0 <= t < tv.len() && !contains_name(after, tv[t].0) ==> tv[t].1 <= after[after.len()
                - 1].1,
{
    let last = before[before.len() - 1];
    assert forall|t: int|
        0 <= t < tv.len() && !contains_name(after, tv[t].0) implies tv[t].1 <= after[after.len()
        - 1].1 by {
        lemma_contains_index(after, tv[t].0);
        lemma_contains_index(before, tv[t].0);
        assert forall|q: int| 0 <= q < before.len() - 1 implies before[q].0 != tv[t].0 by {
            assert(after[q] == before[q]);
        }
        if contains_name(before, tv[t].0) {
            let i = choose|i: int| 0 <= i < before.len() && before[i].0 == tv[t].0;
            assert(i == before.len() - 1);
            assert(tv.contains(before[i]));
            let u = choose|u: int| 0 <= u < tv.len() && tv[u] == before[i];
            if u != t {
                if u < t {
                    assert(tv[u].0 != tv[t].0);
                } else {
                    assert(tv[t].0 != tv[u].0);
                }
            }
            assert(u == t);
            assert(tv[t].1 == last.1);
            assert(before[before.len() - 2].1 >= last.1);
            assert(after[after.len() - 1] == before[before.len() - 2]);
        } else {
            assert(tv[t].1 <= last.1);
            assert(before[before.len() - 2].1 >= last.1);
        }
    }
}

/// How many times `name` occurs in a list of names.
pub open spec fn occurrences(names: Seq<Seq<char>>, name: Seq<char>) -> nat
    decreases names.len(),
{
    if names.len() == 0 {
        0nat
    } else {
        occurrences(names.drop_last(), name) + (if names.last() == name {
            1nat
        } else {
            0nat
        })
    }
}

/// No name occurs more often than the list is long.
pub proof fn lemma_occurrences_bound(names: Seq<Seq<char>>, name: Seq<char>)
    ensures
        occurrences(names, name) <= names.len(),
    decreases names.len(),
{
    if names.len() > 0 {
        lemma_occurrences_bound(names.drop_last(), name);
    }
}

/// The table after recording one play for each listed name, in order.
pub open spec fn upsert_all(m: Seq<(Seq<char>, u64)>, names: Seq<Seq<char>>) -> Seq<
    (Seq<char>, u64),
>
    decreases names.len(),
{
    if names.len() == 0 {
        m
    } else {
        upsert(upsert_all(m, names.drop_last()), names.last())
    }
}

/// The two listen tables: one for songs, one for artists.
pub struct ListenStore {
    pub songs: ListenTable,
    pub artists: ListenTable,
}

impl ListenStore {
    pub open spec fn wf(&self) -> bool {
        self.songs.wf() && self.artists.wf()
    }

    /// A store with two empty tables.
    pub fn new() -> (r: ListenStore)
        ensures
            r.wf(),
            r.songs@.len() == 0,
            r.artists@.len() == 0,
    {
        ListenStore { songs: ListenTable::new(), artists: ListenTable::new() }
    }

    /// Records a detected play: one increment for the song and one
    /// independent increment for every artist name in the list, a duplicated
    /// artist name counted once per occurrence.
    #[verifier::loop_isolation(false)]
    pub fn add_listen(&mut self, song: &str, artists: &Vec<String>)
        requires
            old(self).wf(),
            song@.len() > 0,
            forall|i: int| 0 <= i < artists@.len() ==> artists@[i]@.len() > 0,
            count_of(old(self).songs@, song@) < u64::MAX,
            forall|i: int|
                0 <= i < artists@.len() ==> count_of(old(self).artists@, artists@[i]@)
                    + artists@.len() <= u64::MAX,
        ensures
            final(self).wf(),
            final(self).songs@ == upsert(old(self).songs@, song@),
            final(self).artists@ == upsert_all(old(self).artists@, artists.deep_view()),
            count_of(final(self).songs@, song@) == count_of(old(self).songs@, song@) + 1,
            forall|x: Seq<char>|
                x != song@ ==> count_of(final(self).songs@, x) == count_of(old(self).songs@, x),
            forall|x: Seq<char>|
                count_of(final(self).artists@, x) == count_of(old(self).artists@, x)
                    + occurrences(artists.deep_view(), x),
    {
        let ghost oa = self.artists@;
        let ghost adv = artists.deep_view();
        self.songs.record_play(song);
        proof {
            assert(adv.take(0) =~= Seq::<Seq<char>>::empty());
        }
        let mut i: usize = 0;
        while i < artists.len()
            invariant
                0 <= i <= artists.len(),
                self.songs.wf(),
                self.songs@ == upsert(old(self).songs@, song@),
                count_of(self.songs@, song@) == count_of(old(self).songs@, song@) + 1,
                forall|x: Seq<char>|
                    x != song@ ==> count_of(self.songs@, x) == count_of(old(self).songs@, x),
                self.artists.wf(),
                self.artists@ == upsert_all(oa, adv.take(i as int)),
                forall|x: Seq<char>|
                    count_of(self.artists@, x) == count_of(oa, x) + occurrences(
                        adv.take(i as int),
                        x,
                    ),
            decreases artists.len() - i,
        {
            let ghost prev = self.artists@;
            proof {
                assert(adv[i as int] == artists@[i as int]@);
                lemma_occurrences_bound(adv.take(i as int), adv[i as int]);
                assert(count_of(prev, adv[i as int]) < u64::MAX);
            }
            self.artists.record_play(artists[i].as_str());
            proof {
                assert(adv.take(i + 1).drop_last() =~= adv.take(i as int));
                assert(adv.take(i + 1).last() == adv[i as int]);
                assert(self.artists@ == upsert_all(oa, adv.take(i + 1)));
                assert forall|x: Seq<char>|
                    count_of(self.artists@, x) == count_of(oa, x) + occurrences(
                        adv.take(i + 1),
                        x,
                    ) by {
                    if x == adv[i as int] {
                    } else {
                    }
                }
            }
            i += 1;
        }
        proof {
            assert(adv.take(artists@.len() as int) =~= adv);
        }
    }

    /// The artist with the highest count, if any artist was recorded.
    pub fn get_top_artist(&self) -> (r: Option<String>)
        requires
            self.wf(),
        ensures
            (r is None) <==> self.artists@.len() == 0,
            r matches Some(name) ==> contains_name(self.artists@, name@) && forall|k: int|
                0 <= k < self.artists@.len() ==> self.artists@[k].1 <= count_of(
                    self.artists@,
                    name@,
                ),
    {
        if self.artists.len() == 0 {
            return None;
        }
        let top = self.artists.top_n(1);
        let name = top[0].name.clone();
        proof {
            let tv = self.artists@;
            let rv = top.deep_view();
            assert(rv.len() == 1);
            assert(rv[0] == (top@[0].name@, top@[0].listen_count));
            assert(tv.contains(rv[0]));
            let u = choose|u: int| 0 <= u < tv.len() && tv[u] == rv[0];
            lemma_count_of_entry(tv, u);
            assert(count_of(tv, name@) == rv[0].1);
            assert forall|k: int| 0 <= k < tv.len() implies tv[k].1 <= count_of(tv, name@) by {
                if contains_name(rv, tv[k].0) {
                    assert(rv.drop_first() =~= Seq::<(Seq<char>, u64)>::empty());
                    assert(!contains_name(rv.drop_first(), tv[k].0));
                    assert(rv[0].0 == tv[k].0);
                    if k != u {
                        if k < u {
                            assert(tv[k].0 != tv[u].0);
                        } else {
                            assert(tv[u].0 != tv[k].0);
                        }
                        assert(false);
                    }
                } else {
                    assert(tv[k].1 <= rv[0].1);
                }
            }
            lemma_contains_index(tv, name@);
            assert(tv[u].0 == name@);
        }
        Some(name)
    }
}

/// Recording an unseen name appends its row.
proof fn lemma_upsert_absent(m: Seq<(Seq<char>, u64)>, name: Seq<char>)
    requires
        !contains_name(m, name),
    ensures
        upsert(m, name) == m.push((name, 1u64)),
    decreases m.len(),
{
    if m.len() == 0 {
        assert(upsert(m, name) =~= m.push((name, 1u64)));
    } else {
        lemma_upsert_absent(m.drop_first(), name);
        assert(upsert(m, name) =~= seq![m[0]] + m.drop_first().push((name, 1u64)));
        assert(seq![m[0]] + m.drop_first().push((name, 1u64)) =~= m.push((name, 1u64)));
    }
}

/// Recording a present name updates its row in place.
proof fn lemma_upsert_at(m: Seq<(Seq<char>, u64)>, name: Seq<char>, i: int)
    requires
        0 <= i < m.len(),
        m[i].0 == name,
        forall|j: int| 0 <= j < i ==> m[j].0 != name,
    ensures
        upsert(m, name) == m.update(i, (name, (m[i].1 + 1) as u64)),
    decreases i,
{
    if i == 0 {
        assert(upsert(m, name) =~= m.update(0, (name, (m[0].1 + 1) as u64)));
    } else {
        assert(m.drop_first()[i - 1] == m[i]);
        assert forall|j: int| 0 <= j < i - 1 implies m.drop_first()[j].0 != name by {
            assert(m.drop_first()[j] == m[j + 1]);
        }
        lemma_upsert_at(m.drop_first(), name, i - 1);
        assert(upsert(m, name) =~= seq![m[0]] + m.drop_first().update(
            i - 1,
            (name, (m[i].1 + 1) as u64),
        ));
        assert(seq![m[0]] + m.drop_first().update(i - 1, (name, (m[i].1 + 1) as u64)) =~= m.update(
            i,
            (name, (m[i].1 + 1) as u64),
        ));
    }
}

} // verus!
