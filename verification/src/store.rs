//! The document store: an in-memory table from document identifier to the
//! full current text, both held as bytes. `put` inserts or replaces
//! unconditionally; `get` looks the current text up. There is no removal.

use vstd::prelude::*;

verus! {

/// The map an entry list stands for; a later entry for a key would win,
/// though the store keeps its keys distinct.
pub open spec fn map_of(s: Seq<(Vec<u8>, Vec<u8>)>) -> Map<Seq<u8>, Seq<u8>>
    decreases s.len(),
{
    if s.len() == 0 {
        Map::empty()
    } else {
        map_of(s.drop_last()).insert(s.last().0@, s.last().1@)
    }
}

/// No two entries share a key.
pub open spec fn distinct_keys(s: Seq<(Vec<u8>, Vec<u8>)>) -> bool {
    forall|i: int, j: int| 0 <= i < j < s.len() ==> s[i].0@ != s[j].0@
}

proof fn lemma_map_of_present(s: Seq<(Vec<u8>, Vec<u8>)>, i: int)
    requires
        distinct_keys(s),
        0 <= i < s.len(),
    ensures
        map_of(s).contains_key(s[i].0@),
        map_of(s)[s[i].0@] == s[i].1@,
    decreases s.len(),
{
    if i < s.len() - 1 {
        lemma_map_of_present(s.drop_last(), i);
    }
}

proof fn lemma_map_of_absent(s: Seq<(Vec<u8>, Vec<u8>)>, k: Seq<u8>)
    requires
        forall|i: int| 0 <= i < s.len() ==> s[i].0@ != k,
    ensures
        !map_of(s).contains_key(k),
    decreases s.len(),
{
    if s.len() > 0 {
        lemma_map_of_absent(s.drop_last(), k);
    }
}

proof fn lemma_map_of_update(s: Seq<(Vec<u8>, Vec<u8>)>, i: int, p: (Vec<u8>, Vec<u8>))
    requires
        distinct_keys(s),
        0 <= i < s.len(),
        p.0@ == s[i].0@,
    ensures
        map_of(s.update(i, p)) == map_of(s).insert(p.0@, p.1@),
    decreases s.len(),
{
    let t = s.update(i, p);
    if i == s.len() - 1 {
        assert(t.drop_last() =~= s.drop_last());
        assert(map_of(t) =~= map_of(s).insert(p.0@, p.1@));
    } else {
        assert(t.drop_last() =~= s.drop_last().update(i, p));
        lemma_map_of_update(s.drop_last(), i, p);
        assert(s[i].0@ != s.last().0@);
        assert(map_of(t) =~= map_of(s).insert(p.0@, p.1@));
    }
}

/// Compare two byte vectors for equality of contents.
pub fn bytes_eq(a: &Vec<u8>, b: &Vec<u8>) -> (r: bool)
    ensures
        r == (a@ == b@),
{
    if a.len() != b.len() {
        return false;
    }
    let n = a.len();
    let mut i: usize = 0;
    while i < n
        invariant
            i <= n,
            n == a@.len() == b@.len(),
            forall|m: int| 0 <= m < i ==> a@[m] == b@[m],
        decreases n - i,
    {
        if a[i] != b[i] {
            return false;
        }
        i = i + 1;
    }
    proof {
        assert(a@ =~= b@);
    }
    true
}

/// The document store.
pub struct DocStore {
    entries: Vec<(Vec<u8>, Vec<u8>)>,
}

impl View for DocStore {
    type V = Map<Seq<u8>, Seq<u8>>;

    closed spec fn view(&self) -> Map<Seq<u8>, Seq<u8>> {
        map_of(self.entries@)
    }
}

impl DocStore {
    /// The store's internal invariant: one entry per document.
    pub closed spec fn wf(&self) -> bool {
        distinct_keys(self.entries@)
    }

    /// An empty store.
    pub fn new() -> (r: DocStore)
        ensures
            r.wf(),
            r@ == Map::<Seq<u8>, Seq<u8>>::empty(),
    {
        DocStore { entries: Vec::new() }
    }

    fn find(entries: &Vec<(Vec<u8>, Vec<u8>)>, id: &Vec<u8>) -> (r: Option<usize>)
        ensures
            (match r {
                Some(i) => (i as int) < entries@.len() && entries@[i as int].0@ == id@,
                None => forall|m: int| 0 <= m < entries@.len() ==> entries@[m].0@ != id@,
            }),
    {
        let n = entries.len();
        let mut i: usize = 0;
        while i < n
            invariant
                i <= n,
                n == entries@.len(),
                forall|m: int| 0 <= m < i ==> entries@[m].0@ != id@,
            decreases n - i,
        {
            if bytes_eq(&entries[i].0, id) {
                return Some(i);
            }
            i = i + 1;
        }
        None
    }

    /// Insert or replace, unconditionally, the text stored for `id`.
    pub fn put(&mut self, id: Vec<u8>, text: Vec<u8>)
        requires
            old(self).wf(),
        ensures
            final(self).wf(),
            final(self)@ == old(self)@.insert(id@, text@),
    {
        match Self::find(&self.entries, &id) {
            Some(i) => {
                proof {
                    lemma_map_of_update(self.entries@, i as int, (id, text));
                }
                self.entries.set(i, (id, text));
            }
            None => {
                proof {
                    assert(self.entries@.push((id, text)).drop_last() =~= self.entries@);
                }
                self.entries.push((id, text));
            }
        }
    }

    /// The current text stored for `id`, or nothing if `id` is unknown.
    pub fn get(&self, id: &Vec<u8>) -> (r: Option<&Vec<u8>>)
        requires
            self.wf(),
        ensures
            (match r {
                Some(t) => self@.contains_key(id@) && t@ == self@[id@],
                None => !self@.contains_key(id@),
            }),
    {
        match Self::find(&self.entries, id) {
            Some(i) => {
                proof {
                    lemma_map_of_present(self.entries@, i as int);
                }
                Some(&self.entries[i].1)
            }
            None => {
                proof {
                    lemma_map_of_absent(self.entries@, id@);
                }
                None
            }
        }
    }
}

} // verus!
