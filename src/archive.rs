//! The in-memory archive: entries kept sorted by name, one per name.
use crate::bytes::{compare_bytes, lemma_lex_lt_asym, lemma_lex_lt_transitive, lex_lt, Cmp};
use vstd::prelude::*;

verus! {

/// One named blob, held in decoded form.
pub struct Entry {
    pub name: Vec<u8>,
    pub data: Vec<u8>,
}

/// Why reading or writing an archive failed.
#[derive(Debug, PartialEq, Eq, Structural)]
pub enum FarcError {
    /// The header or table is truncated or inconsistent, or a span lies
    /// outside the file.
    Malformed,
    /// The marker names no variant that this library reads.
    Unsupported,
    /// A compressed entry did not inflate to its declared size.
    Decompress,
    /// An entry name holds a zero byte, which the on-disk name field cannot
    /// represent.
    NulInName,
    /// An offset or size of the layout does not fit in 32 bits.
    TooLarge,
    /// The compressor reported a failure.
    Io,
}

/// An archive: a mapping from entry name to content, kept as a vector
/// sorted strictly by name.
pub struct Farc {
    entries: Vec<Entry>,
    model: Ghost<Map<Seq<u8>, Seq<u8>>>,
}

/// The names of a sequence of entries.
pub open spec fn names_of(es: Seq<(Seq<u8>, Seq<u8>)>) -> Seq<Seq<u8>> {
    es.map_values(|e: (Seq<u8>, Seq<u8>)| e.0)
}

/// Names in strictly increasing order (hence unique).
pub open spec fn strictly_sorted(es: Seq<(Seq<u8>, Seq<u8>)>) -> bool {
    forall|i: int, j: int| 0 <= i < j < es.len() ==> lex_lt(#[trigger] es[i].0, #[trigger] es[j].0)
}

/// The mapping that a sequence of (name, content) pairs describes.
pub open spec fn describes(es: Seq<(Seq<u8>, Seq<u8>)>, m: Map<Seq<u8>, Seq<u8>>) -> bool {
    &&& forall|i: int| 0 <= i < es.len() ==> #[trigger] m.contains_key(es[i].0) && m[es[i].0] == es[i].1
    &&& forall|k: Seq<u8>| #[trigger] m.contains_key(k) ==> exists|i: int| 0 <= i < es.len() && es[i].0 == k
}

impl Farc {
    /// The entries as (name, content) pairs, in name order.
    pub closed spec fn pairs(&self) -> Seq<(Seq<u8>, Seq<u8>)> {
        self.entries@.map_values(|e: Entry| (e.name@, e.data@))
    }

    /// The archive as a mapping from name to content.
    pub closed spec fn model(&self) -> Map<Seq<u8>, Seq<u8>> {
        self.model@
    }

    pub closed spec fn wf(&self) -> bool {
        &&& strictly_sorted(self.pairs())
        &&& describes(self.pairs(), self.model@)
    }

    /// The empty archive.
    pub fn new() -> (r: Farc)
        ensures
            r.wf(),
            r.model() == Map::<Seq<u8>, Seq<u8>>::empty(),
            r.pairs() == Seq::<(Seq<u8>, Seq<u8>)>::empty(),
    {
        let r = Farc { entries: Vec::new(), model: Ghost(Map::empty()) };
        assert(r.pairs() =~= Seq::<(Seq<u8>, Seq<u8>)>::empty());
        r
    }

    /// The entries, sorted strictly by name.
    pub fn entries(&self) -> (r: &Vec<Entry>)
        requires
            self.wf(),
        ensures
            r@.map_values(|e: Entry| (e.name@, e.data@)) == self.pairs(),
    {
        &self.entries
    }

    /// Number of entries.
    pub fn len(&self) -> (r: usize)
        requires
            self.wf(),
        ensures
            r == self.pairs().len(),
    {
        self.entries.len()
    }

    /// Sets the content stored under `name`, replacing any earlier content.
    pub fn insert(&mut self, name: Vec<u8>, data: Vec<u8>)
        requires
            old(self).wf(),
        ensures
            final(self).wf(),
            final(self).model() == old(self).model().insert(name@, data@),
            old(self).model().contains_key(name@) ==> exists|i: int|
                0 <= i < old(self).pairs().len() && old(self).pairs()[i].0 == name@
                    && final(self).pairs() == old(self).pairs().update(i, (name@, data@)),
            !old(self).model().contains_key(name@) ==> exists|i: int|
                0 <= i <= old(self).pairs().len() && final(self).pairs() == old(
                    self,
                ).pairs().insert(i, (name@, data@)),
    {
        let ghost old_pairs = self.pairs();
        let ghost nm = name@;
        let ghost dt = data@;
        let mut i: usize = 0;
        let mut found = false;
        let mut stop = false;
        while i < self.entries.len() && !stop
            invariant
                self.pairs() == old_pairs,
                self.model@ == old(self).model@,
                nm == name@,
                self.wf(),
                0 <= i <= self.entries@.len(),
                forall|j: int| 0 <= j < i ==> lex_lt(#[trigger] old_pairs[j].0, nm),
                stop ==> i < old_pairs.len(),
                stop && found ==> old_pairs[i as int].0 == nm,
                stop && !found ==> lex_lt(nm, old_pairs[i as int].0),
                !stop ==> !found,
            decreases self.entries@.len() - i + (if stop { 0int } else { 1int }),
        {
            assert(old_pairs[i as int].0 == self.entries@[i as int].name@);
            let c = compare_bytes(self.entries[i].name.as_slice(), name.as_slice());
            match c {
                Cmp::Less => {
                    i = i + 1;
                },
                Cmp::Equal => {
                    found = true;
                    stop = true;
                },
                Cmp::Greater => {
                    stop = true;
                },
            }
        }
        let ghost i0 = i as int;
        let new_model = Ghost(self.model@.insert(nm, dt));
        if found {
            let ghost olde = self.entries@;
            let entry = Entry { name, data };
            self.entries.set(i, entry);
            self.model = new_model;
            proof {
                assert(self.pairs() =~= old_pairs.update(i0, (nm, dt)));
                assert(old_pairs[i0].0 == nm);
                assert(old(self).model@.contains_key(old_pairs[i0].0));
                let m = self.model@;
                let ps = self.pairs();
                assert forall|k: Seq<u8>| #[trigger] m.contains_key(k) implies exists|j: int|
                    0 <= j < ps.len() && ps[j].0 == k by {
                    if k == nm {
                        assert(ps[i0].0 == k);
                    } else {
                        let j = choose|j: int| 0 <= j < old_pairs.len() && old_pairs[j].0 == k;
                        assert(ps[j].0 == k);
                    }
                }
                assert forall|j: int| 0 <= j < ps.len() implies #[trigger] m.contains_key(ps[j].0)
                    && m[ps[j].0] == ps[j].1 by {
                    if j != i0 {
                        assert(ps[j] == old_pairs[j]);
                        assert(old(self).model@.contains_key(old_pairs[j].0));
                        if j < i0 {
                            lemma_lex_lt_asym(old_pairs[j].0, old_pairs[i0].0);
                        } else {
                            lemma_lex_lt_asym(old_pairs[i0].0, old_pairs[j].0);
                        }
                    }
                }
            }
        } else {
            let entry = Entry { name, data };
            self.entries.insert(i, entry);
            self.model = new_model;
            proof {
                let ps = self.pairs();
                assert(ps =~= old_pairs.insert(i0, (nm, dt)));
                if old(self).model@.contains_key(nm) {
                    let j = choose|j: int| 0 <= j < old_pairs.len() && old_pairs[j].0 == nm;
                    if j < i0 {
                        assert(lex_lt(old_pairs[j].0, nm));
                    } else if j > i0 {
                        lemma_lex_lt_transitive(nm, old_pairs[i0].0, old_pairs[j].0);
                    }
                    crate::bytes::lemma_lex_lt_irreflexive(nm);
                }
                assert forall|a: int, b: int| 0 <= a < b < ps.len() implies lex_lt(
                    #[trigger] ps[a].0,
                    #[trigger] ps[b].0,
                ) by {
                    if b == i0 {
                    } else if a == i0 {
                        // every later name is larger than the one found at `i0`
                        assert(lex_lt(nm, old_pairs[i0].0));
                        if b - 1 > i0 {
                            lemma_lex_lt_transitive(nm, old_pairs[i0].0, old_pairs[b - 1].0);
                        }
                    } else if a < i0 && b > i0 {
                        assert(lex_lt(old_pairs[a].0, old_pairs[b - 1].0));
                    } else {
                    }
                }
                let m = self.model@;
                assert forall|k: Seq<u8>| #[trigger] m.contains_key(k) implies exists|j: int|
                    0 <= j < ps.len() && ps[j].0 == k by {
                    if k == nm {
                        assert(ps[i0].0 == k);
                    } else {
                        let j = choose|j: int| 0 <= j < old_pairs.len() && old_pairs[j].0 == k;
                        if j < i0 {
                            assert(ps[j].0 == k);
                        } else {
                            assert(ps[j + 1].0 == k);
                        }
                    }
                }
                assert forall|j: int| 0 <= j < ps.len() implies #[trigger] m.contains_key(ps[j].0)
                    && m[ps[j].0] == ps[j].1 by {
                    if j < i0 {
                        assert(ps[j] == old_pairs[j]);
                        assert(old(self).model@.contains_key(old_pairs[j].0));
                        lemma_lex_lt_asym(old_pairs[j].0, nm);
                    } else if j > i0 {
                        assert(ps[j] == old_pairs[j - 1]);
                        assert(old(self).model@.contains_key(old_pairs[j - 1].0));
                        assert(lex_lt(nm, old_pairs[i0].0));
                        if j - 1 > i0 {
                            lemma_lex_lt_transitive(nm, old_pairs[i0].0, old_pairs[j - 1].0);
                        }
                        lemma_lex_lt_asym(nm, old_pairs[j - 1].0);
                    }
                }
            }
        }
    }
}

} // verus!

verus! {

/// A well-formed archive's entries are sorted and describe its mapping.
pub proof fn lemma_model_described(a: Farc)
    requires
        a.wf(),
    ensures
        strictly_sorted(a.pairs()),
        describes(a.pairs(), a.model()),
{
}

} // verus!
