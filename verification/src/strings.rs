//! Bidirectional interning of tag strings to dense 1-based integer ids.
//!
//! Id `0` is reserved as a separator sentinel and is never handed out.
//! One global table lives in staging; every emitted tile carries a local
//! table of its own.

use vstd::prelude::*;

verus! {

/// The first index of `s` in `t`, if `s` occurs there.
pub open spec fn spec_find(t: Seq<Seq<char>>, s: Seq<char>) -> Option<int>
    decreases t.len(),
{
    if t.len() == 0 {
        None
    } else if t.first() == s {
        Some(0)
    } else {
        match spec_find(t.drop_first(), s) {
            Some(i) => Some(i + 1),
            None => None,
        }
    }
}

/// What [`spec_find`] returns: a first hit, or a miss with no occurrence.
pub proof fn lemma_find_spec(t: Seq<Seq<char>>, s: Seq<char>)
    ensures
        match spec_find(t, s) {
            Some(i) => 0 <= i < t.len() && t[i] == s && (forall|j: int| 0 <= j < i ==> t[j] != s),
            None => !t.contains(s),
        },
    decreases t.len(),
{
    if t.len() > 0 && t.first() != s {
        lemma_find_spec(t.drop_first(), s);
        match spec_find(t.drop_first(), s) {
            Some(i) => {
                assert(forall|j: int| 0 <= j < i ==> t.drop_first()[j] == t[j + 1]);
                assert forall|j: int| 0 <= j < i + 1 implies t[j] != s by {
                    if j > 0 {
                        assert(t.drop_first()[j - 1] != s);
                    }
                }
            },
            None => {
                if t.contains(s) {
                    let j = choose|j: int| 0 <= j < t.len() && t[j] == s;
                    assert(t.drop_first()[j - 1] == s);
                }
            },
        }
    }
}

proof fn lemma_find_hit(t: Seq<Seq<char>>, s: Seq<char>, i: int)
    requires
        0 <= i < t.len(),
        t[i] == s,
        forall|j: int| 0 <= j < i ==> t[j] != s,
    ensures
        spec_find(t, s) == Some(i),
    decreases i,
{
    if i == 0 {
        assert(t.first() == s);
    } else {
        assert(t.first() != s);
        assert(forall|j: int| 0 <= j < i - 1 ==> t.drop_first()[j] == t[j + 1]);
        assert(t.drop_first()[i - 1] == s);
        lemma_find_hit(t.drop_first(), s, i - 1);
    }
}

proof fn lemma_find_miss(t: Seq<Seq<char>>, s: Seq<char>)
    requires
        forall|j: int| 0 <= j < t.len() ==> t[j] != s,
    ensures
        spec_find(t, s) is None,
    decreases t.len(),
{
    if t.len() > 0 {
        assert(forall|j: int| 0 <= j < t.drop_first().len() ==> t.drop_first()[j] == t[j + 1]);
        lemma_find_miss(t.drop_first(), s);
    }
}

/// Append-only mapping from text to a dense 1-based id.  The text with
/// id `k` is the entry at index `k - 1`.
#[derive(Clone)]
pub struct StringTable {
    entries: Vec<String>,
}

impl View for StringTable {
    type V = Seq<Seq<char>>;

    closed spec fn view(&self) -> Seq<Seq<char>> {
        self.entries@.map(|i: int, s: String| s@)
    }
}

impl Default for StringTable {
    /// The empty table.
    fn default() -> (r: Self)
        ensures
            r@ == Seq::<Seq<char>>::empty(),
            r.wf(),
    {
        let r = StringTable { entries: Vec::new() };
        proof {
            assert(r@ =~= Seq::<Seq<char>>::empty());
        }
        r
    }
}

impl StringTable {
    /// No text occurs twice, so text determines id.
    pub open spec fn wf(self) -> bool {
        self@.no_duplicates()
    }

    /// Build a table from texts given in id order (index `i` holds the
    /// text with id `i + 1`).
    pub fn new(entries: Vec<String>) -> (r: Self)
        requires
            forall|i: int, j: int|
                0 <= i < j < entries@.len() ==> entries@[i]@ != entries@[j]@,
        ensures
            r@.len() == entries@.len(),
            forall|i: int| 0 <= i < entries@.len() ==> r@[i] == #[trigger] entries@[i]@,
            r.wf(),
    {
        let r = StringTable { entries };
        r
    }

    /// Whether some entry holds exactly this text.
    fn contains_text(&self, s: &String) -> (r: bool)
        ensures
            r == self@.contains(s@),
    {
        let mut i: usize = 0;
        while i < self.entries.len()
            invariant
                i <= self.entries.len(),
                self@.len() == self.entries@.len(),
                forall|j: int| 0 <= j < i ==> self@[j] != s@,
            decreases self.entries.len() - i,
        {
            if self.entries[i] == *s {
                assert(self@[i as int] == s@);
                return true;
            }
            i = i + 1;
        }
        proof {
            if self@.contains(s@) {
                let j = choose|j: int| 0 <= j < self@.len() && self@[j] == s@;
                assert(false);
            }
        }
        false
    }

    /// Intern a text: the id it already has, else the next free id.
    /// Never returns `0`.
    pub fn intern(&mut self, s: &str) -> (id: u64)
        requires
            old(self).wf(),
            old(self)@.len() < u64::MAX,
        ensures
            final(self).wf(),
            id != 0,
            match spec_find(old(self)@, s@) {
                Some(i) => {
                    &&& id == i + 1
                    &&& final(self)@ == old(self)@
                },
                None => {
                    &&& id == old(self)@.len() + 1
                    &&& final(self)@ == old(self)@.push(s@)
                },
            },
    {
        let owned: String = s.to_owned();
        let mut i: usize = 0;
        while i < self.entries.len()
            invariant
                i <= self.entries.len(),
                self@.len() == self.entries@.len(),
                *self == *old(self),
                old(self).wf(),
                self@.len() < u64::MAX,
                forall|j: int| 0 <= j < i ==> self@[j] != owned@,
                owned@ == s@,
            decreases self.entries.len() - i,
        {
            if self.entries[i] == owned {
                proof {
                    assert(self@[i as int] == s@);
                    lemma_find_hit(self@, s@, i as int);
                }
                return (i as u64) + 1;
            }
            i = i + 1;
        }
        proof {
            lemma_find_miss(self@, s@);
        }
        let id = (self.entries.len() as u64) + 1;
        self.entries.push(owned);
        proof {
            assert(self@ =~= old(self)@.push(s@));
            assert(forall|j: int| 0 <= j < old(self)@.len() ==> old(self)@[j] != s@);
            assert(self@.no_duplicates());
        }
        id
    }

    /// The inverse view: texts in id order, so the text with id `k`
    /// stands at index `k - 1`.
    pub fn inverse(self) -> (r: Vec<String>)
        ensures
            r@.len() == self@.len(),
            forall|i: int| 0 <= i < self@.len() ==> #[trigger] r@[i]@ == self@[i],
    {
        let StringTable { entries } = self;
        entries
    }

    /// The entries of `self` whose text is absent from `prior`, with
    /// their ids, in id order.
    pub fn diff(self, other: StringTable) -> (r: Vec<(String, u64)>)
        requires
            self@.len() < u64::MAX,
        ensures
            r@.len() <= self@.len(),
            forall|k: int|
                0 <= k < r@.len() ==> {
                    let i = #[trigger] r@[k].1 - 1;
                    &&& 1 <= r@[k].1 <= self@.len()
                    &&& r@[k].0@ == self@[i]
                    &&& !other@.contains(self@[i])
                },
            forall|i: int|
                0 <= i < self@.len() && !other@.contains(#[trigger] self@[i]) ==> exists|k: int|
                    0 <= k < r@.len() && #[trigger] r@[k].1 == i + 1,
    {
        let mut r: Vec<(String, u64)> = Vec::new();
        let mut i: usize = 0;
        while i < self.entries.len()
            invariant
                i <= self.entries.len(),
                self@.len() == self.entries@.len(),
                self@.len() < u64::MAX,
                r@.len() <= i as int,
                forall|k: int|
                    0 <= k < r@.len() ==> {
                        let n = #[trigger] r@[k].1 - 1;
                        &&& 1 <= r@[k].1 <= i
                        &&& r@[k].0@ == self@[n]
                        &&& !other@.contains(self@[n])
                    },
                forall|n: int|
                    0 <= n < i && !other@.contains(#[trigger] self@[n]) ==> exists|k: int|
                        0 <= k < r@.len() && #[trigger] r@[k].1 == n + 1,
            decreases self.entries.len() - i,
        {
            let ghost r_old = r@;
            if !other.contains_text(&self.entries[i]) {
                assert(self@[i as int] == self.entries@[i as int]@);
                r.push((self.entries[i].clone(), (i as u64) + 1));
                assert(r@[r@.len() - 1].1 == i + 1);
                proof {
                    assert forall|n: int|
                        0 <= n < i + 1 && !other@.contains(#[trigger] self@[n]) implies exists|
                        k: int,
                    | 0 <= k < r@.len() && #[trigger] r@[k].1 == n + 1 by {
                        if n < i as int {
                            let k = choose|k: int|
                                0 <= k < r_old.len() && #[trigger] r_old[k].1 == n + 1;
                            assert(r@[k].1 == n + 1);
                        } else {
                            assert(r@[r@.len() - 1].1 == n + 1);
                        }
                    }
                }
            }
            i = i + 1;
        }
        r
    }

    /// The table as `(text, id)` pairs in id order.
    pub fn get_map(self) -> (r: Vec<(String, u64)>)
        requires
            self@.len() < u64::MAX,
        ensures
            r@.len() == self@.len(),
            forall|i: int|
                0 <= i < self@.len() ==> (#[trigger] r@[i]).0@ == self@[i] && r@[i].1 == i + 1,
    {
        let mut r: Vec<(String, u64)> = Vec::new();
        let mut i: usize = 0;
        while i < self.entries.len()
            invariant
                i <= self.entries.len(),
                self@.len() == self.entries@.len(),
                self@.len() < u64::MAX,
                r@.len() == i as int,
                forall|j: int|
                    0 <= j < i ==> (#[trigger] r@[j]).0@ == self@[j] && r@[j].1 == j + 1,
            decreases self.entries.len() - i,
        {
            r.push((self.entries[i].clone(), (i as u64) + 1));
            i = i + 1;
        }
        r
    }

    /// How many texts the table holds.
    pub fn len(&self) -> (n: usize)
        ensures
            n == self@.len(),
    {
        self.entries.len()
    }
}

/// A duplicate-free sequence whose members all occur in a pool is no
/// longer than the pool.
pub proof fn lemma_distinct_in_pool_len(t: Seq<Seq<char>>, pool: Seq<Seq<char>>)
    requires
        t.no_duplicates(),
        forall|i: int| 0 <= i < t.len() ==> pool.contains(#[trigger] t[i]),
    ensures
        t.len() <= pool.len(),
{
    broadcast use vstd::seq_lib::seq_to_set_is_finite;

    t.unique_seq_to_set();
    pool.lemma_cardinality_of_set();
    assert forall|x: Seq<char>| t.to_set().contains(x) implies pool.to_set().contains(x) by {
        assert(t.contains(x));
        let i = choose|i: int| 0 <= i < t.len() && t[i] == x;
        assert(pool.contains(x));
    }
    assert(t.to_set() <= pool.to_set());
    vstd::set_lib::lemma_len_subset(t.to_set(), pool.to_set());
}

} // verus!
