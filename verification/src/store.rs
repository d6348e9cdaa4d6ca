//! Counter store: one row per emote id, with read and field-preserving
//! upsert. Rows keep their insertion order; an upsert replaces the row with
//! the same id in place and never moves or truncates any other row.

use vstd::prelude::*;

use crate::emote::EmoteStats;
use crate::emote::StatsView;

verus! {

/// No two rows share an id.
pub open spec fn ids_unique(s: Seq<StatsView>) -> bool {
    forall|j: int, k: int| 0 <= j < k < s.len() ==> s[j].id != s[k].id
}

/// Every row's counters are sane: `uses` dominates `uniq`.
pub open spec fn rows_wf(s: Seq<StatsView>) -> bool {
    forall|k: int| 0 <= k < s.len() ==> (#[trigger] s[k]).wf()
}

/// Some row carries `id`.
pub open spec fn has_id(s: Seq<StatsView>, id: u64) -> bool {
    exists|k: int| 0 <= k < s.len() && s[k].id == id
}

/// The index of the row carrying `id`; meaningful when `has_id` holds and
/// ids are unique.
pub open spec fn row_index(s: Seq<StatsView>, id: u64) -> int {
    choose|k: int| 0 <= k < s.len() && s[k].id == id
}

/// The row carrying `id`, if any.
pub open spec fn lookup(s: Seq<StatsView>, id: u64) -> Option<StatsView> {
    if has_id(s, id) {
        Some(s[row_index(s, id)])
    } else {
        None
    }
}

/// Insert `row` if its id is absent, else replace the row with that id in
/// place.
pub open spec fn upsert_seq(s: Seq<StatsView>, row: StatsView) -> Seq<StatsView> {
    if has_id(s, row.id) {
        s.update(row_index(s, row.id), row)
    } else {
        s.push(row)
    }
}

/// Round trip of an upsert: reading the written id afterwards yields the
/// row exactly as written, field for field; every other id reads exactly as
/// before; uniqueness and the number of other rows are preserved.
pub proof fn lemma_upsert_lookup(s: Seq<StatsView>, row: StatsView)
    requires
        ids_unique(s),
    ensures
        ids_unique(upsert_seq(s, row)),
        lookup(upsert_seq(s, row), row.id) == Some(row),
        forall|other: u64| other != row.id ==> lookup(upsert_seq(s, row), other) == lookup(s, other),
        has_id(s, row.id) ==> upsert_seq(s, row).len() == s.len(),
        !has_id(s, row.id) ==> upsert_seq(s, row).len() == s.len() + 1,
{
    let s2 = upsert_seq(s, row);
    if has_id(s, row.id) {
        let i = row_index(s, row.id);
        assert(0 <= i < s.len() && s[i].id == row.id);
        assert(forall|m: int| 0 <= m < s.len() && m != i ==> s2[m] == s[m]);
        assert(s2[i] == row);
        assert(ids_unique(s2));
        assert(has_id(s2, row.id));
        let i2 = row_index(s2, row.id);
        assert(0 <= i2 < s2.len() && s2[i2].id == row.id);
        if i2 != i {
            assert(s[i2].id == row.id);
            assert(false);
        }
        assert(lookup(s2, row.id) == Some(row));
    } else {
        assert(forall|m: int| 0 <= m < s.len() ==> s[m].id != row.id);
        assert(forall|m: int| 0 <= m < s.len() ==> s2[m] == s[m]);
        assert(s2[s.len() as int] == row);
        assert(ids_unique(s2));
        assert(has_id(s2, row.id));
        let i2 = row_index(s2, row.id);
        if i2 != s.len() as int {
            assert(s[i2].id == row.id);
            assert(false);
        }
        assert(lookup(s2, row.id) == Some(row));
    }
    assert forall|other: u64| other != row.id implies lookup(s2, other) == lookup(s, other) by {
        if has_id(s, other) {
            let k = row_index(s, other);
            assert(0 <= k < s.len() && s[k].id == other);
            assert(s2[k] == s[k]);
            assert(has_id(s2, other));
            let k2 = row_index(s2, other);
            assert(0 <= k2 < s2.len() && s2[k2].id == other);
            if k2 != k {
                if k2 < s.len() {
                    assert(s[k2].id == other);
                    assert(false);
                } else {
                    assert(s2[k2] == row);
                    assert(false);
                }
            }
        } else {
            if has_id(s2, other) {
                let k2 = row_index(s2, other);
                assert(0 <= k2 < s2.len() && s2[k2].id == other);
                if k2 < s.len() {
                    assert(s[k2].id == other || (has_id(s, row.id) && k2 == row_index(s, row.id)));
                    assert(false);
                } else {
                    assert(s2[k2] == row);
                    assert(false);
                }
            }
        }
    }
}

/// An upsert of a sane row keeps every row sane.
pub proof fn lemma_upsert_rows_wf(s: Seq<StatsView>, row: StatsView)
    requires
        rows_wf(s),
        row.wf(),
    ensures
        rows_wf(upsert_seq(s, row)),
{
    let s2 = upsert_seq(s, row);
    if has_id(s, row.id) {
        let i = row_index(s, row.id);
        assert forall|k: int| 0 <= k < s2.len() implies (#[trigger] s2[k]).wf() by {
            if k != i {
                assert(s2[k] == s[k]);
            }
        }
    } else {
        assert forall|k: int| 0 <= k < s2.len() implies (#[trigger] s2[k]).wf() by {
            if k < s.len() {
                assert(s2[k] == s[k]);
            }
        }
    }
}

/// The persistent counter table: rows in insertion order, ids unique.
pub struct Store {
    rows: Vec<EmoteStats>,
}

impl View for Store {
    type V = Seq<StatsView>;

    closed spec fn view(&self) -> Seq<StatsView> {
        self.rows@.map_values(|r: EmoteStats| r@)
    }
}

impl Store {
    /// The store's invariant: no two rows share an id.
    pub open spec fn wf(&self) -> bool {
        ids_unique(self@)
    }

    /// An empty store.
    pub fn new() -> (s: Store)
        ensures
            s.wf(),
            s@ == Seq::<StatsView>::empty(),
    {
        let s = Store { rows: Vec::new() };
        proof {
            assert(s@ =~= Seq::<StatsView>::empty());
        }
        s
    }

    /// Number of rows.
    pub fn len(&self) -> (n: usize)
        ensures
            n == self@.len(),
    {
        self.rows.len()
    }

    /// Shared borrow of the row at position `k`, in insertion order.
    pub fn row_at(&self, k: usize) -> (r: &EmoteStats)
        requires
            k < self@.len(),
        ensures
            r@ == self@[k as int],
    {
        &self.rows[k]
    }

    /// Index of the row with `id`, if one exists.
    fn find(&self, id: u64) -> (r: Option<usize>)
        ensures
            (match r {
                Some(k) => k < self@.len() && self@[k as int].id == id,
                None => !has_id(self@, id),
            }),
    {
        let mut k: usize = 0;
        while k < self.rows.len()
            invariant
                k <= self@.len(),
                self@.len() == self.rows@.len(),
                forall|m: int| 0 <= m < k ==> self@[m].id != id,
            decreases self@.len() - k,
        {
            if self.rows[k].id == id {
                return Some(k);
            }
            k = k + 1;
        }
        None
    }

    /// Whether some row carries `id`.
    pub fn contains(&self, id: u64) -> (b: bool)
        ensures
            b == has_id(self@, id),
    {
        match self.find(id) {
            Some(k) => {
                proof {
                    assert(self@[k as int].id == id);
                }
                true
            },
            None => false,
        }
    }

    /// Read the row with `id`, if one exists.
    pub fn get(&self, id: u64) -> (r: Option<&EmoteStats>)
        requires
            self.wf(),
        ensures
            (match r {
                Some(row) => lookup(self@, id) == Some(row@),
                None => lookup(self@, id) is None,
            }),
    {
        match self.find(id) {
            Some(k) => {
                proof {
                    assert(has_id(self@, id));
                    let i2 = row_index(self@, id);
                    assert(0 <= i2 < self@.len() && self@[i2].id == id);
                    if i2 != k as int {
                        assert(false);
                    }
                }
                Some(&self.rows[k])
            },
            None => None,
        }
    }

    /// Insert `row` if its id is new, else replace the row with that id in
    /// place. Every field of every other row is untouched.
    pub fn upsert(&mut self, row: EmoteStats)
        requires
            old(self).wf(),
        ensures
            final(self).wf(),
            final(self)@ == upsert_seq(old(self)@, row@),
    {
        proof {
            lemma_upsert_lookup(old(self)@, row@);
        }
        match self.find(row.id) {
            Some(k) => {
                proof {
                    assert(has_id(self@, row@.id));
                    let i2 = row_index(self@, row@.id);
                    assert(0 <= i2 < self@.len() && self@[i2].id == row@.id);
                    if i2 != k as int {
                        assert(false);
                    }
                }
                self.rows[k] = row;
                proof {
                    assert(self@ =~= upsert_seq(old(self)@, self.rows@[k as int]@));
                }
            },
            None => {
                self.rows.push(row);
                proof {
                    assert(self@ =~= upsert_seq(old(self)@, self.rows@.last()@));
                }
            },
        }
    }
}

} // verus!
