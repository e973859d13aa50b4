//! Request headers: a mapping from header names to values in which names are
//! compared without regard to ASCII case.
use crate::text::bytes_eq;
use crate::text::lower;
use crate::text::to_lower;
use vstd::prelude::*;
use vstd::slice::slice_to_vec;

verus! {

/// The mapping that a list of entries denotes: a later entry for a name
/// replaces an earlier one.
pub open spec fn entries_map(entries: Seq<(Seq<u8>, Seq<u8>)>) -> Map<Seq<u8>, Seq<u8>>
    decreases entries.len(),
{
    if entries.len() == 0 {
        Map::empty()
    } else {
        entries_map(entries.drop_last()).insert(entries.last().0, entries.last().1)
    }
}

/// The headers of one request.
///
/// Names are folded to lower case when they are stored and when they are
/// looked up, so a header is found under any spelling of its name.
pub struct Headers {
    entries: Vec<(Vec<u8>, Vec<u8>)>,
}

impl Headers {
    /// The stored entries as pairs of byte sequences.
    pub closed spec fn entries_view(&self) -> Seq<(Seq<u8>, Seq<u8>)> {
        Seq::new(self.entries@.len(), |i: int| (self.entries@[i].0@, self.entries@[i].1@))
    }

    /// Every stored name is in lower case.
    pub closed spec fn wf(&self) -> bool {
        forall|i: int|
            0 <= i < self.entries@.len() ==> lower(#[trigger] self.entries@[i].0@)
                == self.entries@[i].0@
    }

    /// No headers.
    pub fn new() -> (r: Headers)
        ensures
            r.wf(),
            r@ == Map::<Seq<u8>, Seq<u8>>::empty(),
    {
        let r = Headers { entries: Vec::new() };
        assert(r.entries_view() =~= Seq::empty());
        r
    }

    /// Stores `value` under the lower-case form of `name`, replacing what
    /// was stored under it before.
    pub fn insert(&mut self, name: &[u8], value: &[u8])
        ensures
            old(self).wf() ==> final(self).wf(),
            final(self)@ == old(self)@.insert(lower(name@), value@),
    {
        let key = to_lower(name);
        let val = slice_to_vec(value);
        let ghost before = self.entries_view();
        proof {
            crate::text::lemma_lower_idempotent(name@);
        }
        self.entries.push((key, val));
        proof {
            let after = self.entries_view();
            assert(after.drop_last() =~= before);
            assert(after.last() == (lower(name@), value@));
        }
    }

    /// The value stored under `name`, whatever the case of its letters.
    pub fn get(&self, name: &[u8]) -> (r: Option<&Vec<u8>>)
        ensures
            match r {
                Some(v) => self@.contains_key(lower(name@)) && v@ == self@[lower(name@)],
                None => !self@.contains_key(lower(name@)),
            },
    {
        let key = to_lower(name);
        let mut i: usize = self.entries.len();
        assert(self.entries_view().subrange(0, i as int) =~= self.entries_view());
        while i > 0
            invariant
                i <= self.entries@.len(),
                key@ == lower(name@),
                self@.contains_key(key@) == entries_map(
                    self.entries_view().subrange(0, i as int),
                ).contains_key(key@),
                self@.contains_key(key@) ==> self@[key@] == entries_map(
                    self.entries_view().subrange(0, i as int),
                )[key@],
            decreases i,
        {
            let ghost cur = self.entries_view().subrange(0, i as int);
            proof {
                assert(cur.drop_last() =~= self.entries_view().subrange(0, i - 1));
                assert(cur.last() == (self.entries@[i - 1].0@, self.entries@[i - 1].1@));
            }
            if bytes_eq(self.entries[i - 1].0.as_slice(), key.as_slice()) {
                return Some(&self.entries[i - 1].1);
            }
            i = i - 1;
        }
        None
    }

    /// Whether a value is stored under `name`.
    pub fn contains_key(&self, name: &[u8]) -> (r: bool)
        ensures
            r == self@.contains_key(lower(name@)),
    {
        self.get(name).is_some()
    }
}

impl View for Headers {
    type V = Map<Seq<u8>, Seq<u8>>;

    closed spec fn view(&self) -> Map<Seq<u8>, Seq<u8>> {
        entries_map(self.entries_view())
    }
}

/// Every name under which well-formed headers hold a value is in lower case.
pub proof fn lemma_names_lowercase(headers: Headers, name: Seq<u8>)
    requires
        headers.wf(),
        headers@.contains_key(name),
    ensures
        lower(name) == name,
{
    lemma_entries_names(headers.entries_view(), name);
}

proof fn lemma_entries_names(entries: Seq<(Seq<u8>, Seq<u8>)>, name: Seq<u8>)
    requires
        forall|i: int| 0 <= i < entries.len() ==> lower(#[trigger] entries[i].0) == entries[i].0,
        entries_map(entries).contains_key(name),
    ensures
        lower(name) == name,
    decreases entries.len(),
{
    if entries.len() > 0 {
        if entries.last().0 != name {
            lemma_entries_names(entries.drop_last(), name);
        }
    }
}

} // verus!
