//! Reassembling an output from the parts of a family, in order, up to the
//! first part that is missing.
use vstd::prelude::*;
use crate::naming::{part_name, part_name_of};
use crate::split::{split_parts, FileSplitter};

verus! {

/// What a join writes, given what it finds at indices 0, 1, ...: each entry
/// is the contents of that part, or `None` where no such part exists. The
/// parts are concatenated up to the first missing one; nothing after it
/// counts.
pub open spec fn joined(found: Seq<Option<Seq<u8>>>) -> Seq<u8>
    decreases found.len(),
{
    if found.len() == 0 {
        Seq::empty()
    } else {
        match found[0] {
            Some(b) => b + joined(found.drop_first()),
            None => Seq::empty(),
        }
    }
}

/// The entries of `parts`, each marked present.
pub open spec fn all_present(parts: Seq<Seq<u8>>) -> Seq<Option<Seq<u8>>> {
    parts.map_values(|b: Seq<u8>| Some(b))
}

/// When parts `0..k` are present and part `k` is missing, a join writes
/// exactly parts `0..k` one after the other, whatever exists beyond `k`.
pub proof fn lemma_join_stops_at_gap(found: Seq<Option<Seq<u8>>>, k: int)
    requires
        0 <= k < found.len(),
        found[k] is None,
        forall|i: int| 0 <= i < k ==> (#[trigger] found[i]) is Some,
    ensures
        joined(found) == Seq::new(k as nat, |i: int| found[i]->0).flatten(),
    decreases k,
{
    let pre = Seq::new(k as nat, |i: int| found[i]->0);
    if k == 0 {
        assert(pre =~= Seq::<Seq<u8>>::empty());
    } else {
        let rest = found.drop_first();
        assert forall|i: int| 0 <= i < k - 1 implies (#[trigger] rest[i]) is Some by {
            assert(rest[i] == found[i + 1]);
        }
        lemma_join_stops_at_gap(rest, k - 1);
        assert(pre.drop_first() =~= Seq::new((k - 1) as nat, |i: int| rest[i]->0));
        assert(found[0] is Some);
    }
}

/// A join that finds no part at index 0 writes nothing.
pub proof fn lemma_join_nothing(found: Seq<Option<Seq<u8>>>)
    requires
        found.len() > 0,
        found[0] is None,
    ensures
        joined(found) == Seq::<u8>::empty(),
{
}

/// Joining the parts that a split of `b` made, up to the first missing
/// index, gives `b` back, whatever lies beyond that index.
pub proof fn lemma_split_then_join(b: Seq<u8>, c: nat, beyond: Seq<Option<Seq<u8>>>)
    requires
        c >= 1,
    ensures
        joined(all_present(split_parts(b, c)).push(None) + beyond) == b,
{
    let ps = split_parts(b, c);
    let found = all_present(ps).push(None) + beyond;
    let k = ps.len() as int;
    lemma_join_stops_at_gap(found, k);
    assert(Seq::new(k as nat, |i: int| found[i]->0) =~= ps);
    crate::split::lemma_split_round_trip(b, c);
}

/// Joining the parts that a splitter fed chunk by chunk has handed out, up
/// to the first missing index, gives back the bytes it was fed.
pub proof fn lemma_file_split_then_join(s: FileSplitter, beyond: Seq<Option<Seq<u8>>>)
    requires
        s.wf(),
    ensures
        joined(all_present(s.parts()).push(None) + beyond) == s.taken(),
{
    s.lemma_parts_of_taken();
    lemma_split_then_join(s.taken(), s.chunk(), beyond);
}

proof fn lemma_joined_push(found: Seq<Option<Seq<u8>>>, x: Option<Seq<u8>>)
    requires
        forall|i: int| 0 <= i < found.len() ==> (#[trigger] found[i]) is Some,
    ensures
        joined(found.push(x)) == joined(found) + match x {
            Some(b) => b,
            None => Seq::<u8>::empty(),
        },
    decreases found.len(),
{
    if found.len() == 0 {
        assert(found.push(x).drop_first() =~= Seq::<Option<Seq<u8>>>::empty());
        assert(joined(Seq::<Option<Seq<u8>>>::empty()) == Seq::<u8>::empty());
        assert(found.push(x)[0] == x);
        assert(joined(found.push(x)) =~= joined(found) + match x {
            Some(b) => b,
            None => Seq::<u8>::empty(),
        });
    } else {
        let rest = found.drop_first();
        assert(found.push(x).drop_first() =~= rest.push(x));
        assert forall|i: int| 0 <= i < rest.len() implies (#[trigger] rest[i]) is Some by {
            assert(rest[i] == found[i + 1]);
        }
        lemma_joined_push(rest, x);
        assert(found[0] is Some);
        let b0 = found[0]->0;
        assert(joined(found.push(x)) =~= b0 + joined(rest.push(x)));
        assert(joined(found) =~= b0 + joined(rest));
    }
}

/// A join in progress. For each index in turn it names the part to look
/// for; the caller reports whether that part exists and, if so, its
/// contents, and writes those contents to the output. The join ends at the
/// first missing part.
pub struct Joiner {
    basename: String,
    next_index: usize,
    finished: bool,
    found: Ghost<Seq<Option<Seq<u8>>>>,
}

impl Joiner {
    /// The name shared by the parts.
    pub closed spec fn basename(&self) -> Seq<char> {
        self.basename@
    }

    /// What was found at each index looked at so far.
    pub closed spec fn found(&self) -> Seq<Option<Seq<u8>>> {
        self.found@
    }

    /// Whether a missing part has ended the join.
    pub closed spec fn is_finished(&self) -> bool {
        self.finished
    }

    /// What the join has written so far.
    pub open spec fn written(&self) -> Seq<u8> {
        joined(self.found())
    }

    /// The joiner's invariant: the indices looked at are `0..n`, and all
    /// parts found are present but, once the join has ended, the last.
    pub closed spec fn wf(&self) -> bool {
        &&& self.next_index == self.found@.len() - (if self.finished { 1int } else { 0 })
        &&& forall|i: int| 0 <= i < self.next_index ==> (#[trigger] self.found@[i]) is Some
        &&& self.finished ==> self.found@.len() > 0 && self.found@.last() is None
    }

    /// A join of the parts named after `basename`, before any part is
    /// looked at.
    pub fn new(basename: &str) -> (r: Joiner)
        ensures
            r.wf(),
            r.basename() == basename@,
            r.found() == Seq::<Option<Seq<u8>>>::empty(),
            r.written() == Seq::<u8>::empty(),
            !r.is_finished(),
    {
        Joiner {
            basename: String::from_str(basename),
            next_index: 0,
            finished: false,
            found: Ghost(Seq::empty()),
        }
    }

    /// Whether a missing part has ended the join.
    pub fn finished(&self) -> (r: bool)
        ensures
            r == self.is_finished(),
    {
        self.finished
    }

    /// The number of parts found so far.
    pub fn parts_found(&self) -> (r: usize)
        requires
            self.wf(),
        ensures
            !self.is_finished() ==> r as nat == self.found().len(),
            self.is_finished() ==> r as nat == self.found().len() - 1,
    {
        self.next_index
    }

    /// The name of the part to look for next, `<basename>.<index>`; `None`
    /// once the join has ended.
    pub fn next_part(&self) -> (r: Option<String>)
        requires
            self.wf(),
        ensures
            self.is_finished() ==> r is None,
            !self.is_finished() ==> (r matches Some(n) && n@ == part_name_of(self.basename(), self.found().len())),
    {
        if self.finished {
            None
        } else {
            Some(part_name(self.basename.as_str(), self.next_index))
        }
    }

    /// The part looked for is missing: the join ends, and what it has
    /// written stays as it is.
    pub fn part_missing(&mut self)
        requires
            old(self).wf(),
        ensures
            final(self).wf(),
            final(self).is_finished(),
            final(self).basename() == old(self).basename(),
            final(self).written() == old(self).written(),
            !old(self).is_finished() ==> final(self).found() == old(self).found().push(None),
            old(self).is_finished() ==> final(self).found() == old(self).found(),
    {
        if !self.finished {
            proof {
                lemma_joined_push(self.found@, None);
                assert(joined(self.found@) + Seq::<u8>::empty() =~= joined(self.found@));
            }
            self.found = Ghost(self.found@.push(None));
            self.finished = true;
        }
    }

    /// The part looked for exists and holds `contents`, which the caller
    /// writes to the output next: the join goes on to the next index.
    pub fn part_found(&mut self, contents: &Vec<u8>)
        requires
            old(self).wf(),
            !old(self).is_finished(),
            old(self).found().len() < usize::MAX,
        ensures
            final(self).wf(),
            !final(self).is_finished(),
            final(self).basename() == old(self).basename(),
            final(self).found() == old(self).found().push(Some(contents@)),
            final(self).written() == old(self).written() + contents@,
    {
        proof {
            lemma_joined_push(self.found@, Some(contents@));
        }
        self.found = Ghost(self.found@.push(Some(contents@)));
        self.next_index = self.next_index + 1;
    }
}

} // verus!
