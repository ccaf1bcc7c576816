//! Cutting a byte source into parts of a fixed size.
use vstd::prelude::*;
use crate::naming::{part_name, part_name_of};

verus! {

/// The parts of `b` for chunk size `c`: consecutive pieces of `c` bytes, the
/// last one shorter when `c` does not divide the length; none for an empty
/// source.
pub open spec fn split_parts(b: Seq<u8>, c: nat) -> Seq<Seq<u8>>
    decreases b.len(),
{
    if b.len() == 0 || c == 0 {
        Seq::empty()
    } else if b.len() <= c {
        seq![b]
    } else {
        seq![b.take(c as int)] + split_parts(b.skip(c as int), c)
    }
}

/// The number of parts of a source of `len` bytes: `len / c` rounded up.
pub open spec fn part_count(len: nat, c: nat) -> nat {
    if c == 0 {
        0
    } else {
        ((len + c - 1) as nat) / c
    }
}

/// One output part: the file name it goes to and the bytes it holds.
pub struct Part {
    pub name: String,
    pub data: Vec<u8>,
}

/// Joining the parts of a source, in order, gives the source back.
pub proof fn lemma_split_round_trip(b: Seq<u8>, c: nat)
    requires
        c >= 1,
    ensures
        split_parts(b, c).flatten() == b,
    decreases b.len(),
{
    let ps = split_parts(b, c);
    if b.len() == 0 {
    } else if b.len() <= c {
        assert(ps.drop_first() =~= Seq::<Seq<u8>>::empty());
        assert(ps.drop_first().flatten() =~= Seq::<u8>::empty());
        assert(ps.first() == b);
        assert(ps.flatten() =~= b);
    } else {
        lemma_split_round_trip(b.skip(c as int), c);
        assert(ps.drop_first() =~= split_parts(b.skip(c as int), c));
        assert(b.take(c as int) + b.skip(c as int) =~= b);
    }
}

/// A source of `L` bytes has `L / c` parts rounded up: none when it is empty.
pub proof fn lemma_split_count(b: Seq<u8>, c: nat)
    requires
        c >= 1,
    ensures
        split_parts(b, c).len() == part_count(b.len(), c),
        b.len() == 0 ==> split_parts(b, c).len() == 0,
    decreases b.len(),
{
    let l = b.len();
    if l == 0 {
        assert(((c - 1) as nat) / c == 0) by (nonlinear_arith)
            requires c >= 1;
    } else if l <= c {
        assert(((l + c - 1) as nat) / c == 1) by (nonlinear_arith)
            requires 1 <= l <= c;
    } else {
        lemma_split_count(b.skip(c as int), c);
        let m = (l - c) as nat;
        assert(((l + c - 1) as nat) / c == ((m + c - 1) as nat) / c + 1) by (nonlinear_arith)
            requires m == l - c, c >= 1, l > c;
    }
}

/// Every part but the last holds exactly `c` bytes; the last holds
/// `L - c * (n - 1)` bytes, `n` being the number of parts.
pub proof fn lemma_split_sizes(b: Seq<u8>, c: nat)
    requires
        c >= 1,
    ensures
        forall|i: int| 0 <= i < split_parts(b, c).len() - 1 ==> (#[trigger] split_parts(b, c)[i]).len() == c,
        split_parts(b, c).len() > 0 ==> split_parts(b, c).last().len() == b.len() - c * (split_parts(b, c).len() - 1),
    decreases b.len(),
{
    let ps = split_parts(b, c);
    if b.len() > c {
        let rest = split_parts(b.skip(c as int), c);
        lemma_split_sizes(b.skip(c as int), c);
        lemma_split_count(b.skip(c as int), c);
        assert(b.skip(c as int).len() > 0);
        assert(rest.len() > 0);
        assert forall|i: int| 0 <= i < ps.len() - 1 implies (#[trigger] ps[i]).len() == c by {
            if i > 0 {
                assert(ps[i] == rest[i - 1]);
            }
        }
        assert(ps.last() == rest.last());
        assert(ps.len() == rest.len() + 1);
        assert(b.len() - c * (ps.len() - 1) == (b.len() - c) - c * (rest.len() - 1)) by (nonlinear_arith)
            requires ps.len() == rest.len() + 1;
        assert(rest.last().len() == b.skip(c as int).len() - c * (rest.len() - 1));
        assert(b.skip(c as int).len() == b.len() - c);
        assert(ps.last().len() == b.len() - c * (ps.len() - 1));
    } else if b.len() > 0 {
        assert(ps.len() == 1 && ps.last() == b);
        assert(c * (ps.len() - 1) == 0) by (nonlinear_arith)
            requires ps.len() == 1;
    }
}

/// Adding to a source whose length is a multiple of `c` a piece of at most
/// `c` bytes adds that piece as one more part and leaves the others as they
/// were.
pub proof fn lemma_split_append(x: Seq<u8>, y: Seq<u8>, c: nat)
    requires
        c >= 1,
        x.len() % c == 0,
        0 < y.len() <= c,
    ensures
        split_parts(x + y, c) == split_parts(x, c).push(y),
    decreases x.len(),
{
    if x.len() == 0 {
        assert(x + y =~= y);
        assert(split_parts(x, c).push(y) =~= seq![y]);
    } else {
        assert(x.len() >= c) by (nonlinear_arith)
            requires x.len() % c == 0, x.len() > 0, c >= 1;
        let xs = x.skip(c as int);
        assert(xs.len() % c == 0) by (nonlinear_arith)
            requires xs.len() == x.len() - c, x.len() % c == 0, c >= 1;
        lemma_split_append(xs, y, c);
        assert((x + y).take(c as int) =~= x.take(c as int));
        assert((x + y).skip(c as int) =~= xs + y);
        if x.len() == c {
            assert(xs =~= Seq::<u8>::empty());
            assert(x.take(c as int) =~= x);
            assert(split_parts(x, c).push(y) =~= seq![x.take(c as int)] + split_parts(xs, c).push(y));
        } else {
            assert(split_parts(x, c).push(y) =~= seq![x.take(c as int)] + split_parts(xs, c).push(y));
        }
    }
}

/// Copies `data[from..to]` into a new vector.
fn copy_range(data: &Vec<u8>, from: usize, to: usize) -> (r: Vec<u8>)
    requires
        from <= to <= data.len(),
    ensures
        r@ == data@.subrange(from as int, to as int),
{
    let mut r: Vec<u8> = Vec::new();
    let mut i = from;
    while i < to
        invariant
            from <= i <= to <= data.len(),
            r@ == data@.subrange(from as int, i as int),
        decreases to - i,
    {
        r.push(data[i]);
        assert(data@.subrange(from as int, i + 1) =~= data@.subrange(from as int, i as int).push(data@[i as int]));
        i = i + 1;
    }
    r
}

/// Cuts `data` into parts of `chunk_size` bytes (the last may be shorter),
/// named `<filename>.0`, `<filename>.1`, and so on.
pub fn frism_split_bytes(data: &Vec<u8>, filename: &str, chunk_size: usize) -> (r: Vec<Part>)
    requires
        chunk_size >= 1,
    ensures
        r.len() == split_parts(data@, chunk_size as nat).len(),
        r.len() == part_count(data.len() as nat, chunk_size as nat),
        forall|i: int| 0 <= i < r.len() ==> (#[trigger] r[i]).data@ == split_parts(data@, chunk_size as nat)[i]
            && r[i].name@ == part_name_of(filename@, i as nat),
{
    let ghost c = chunk_size as nat;
    let ghost all = split_parts(data@, c);
    let mut r: Vec<Part> = Vec::new();
    let mut index: usize = 0;
    let mut part: usize = 0;
    assert(data@.skip(0) =~= data@);
    assert(r@.map_values(|p: Part| p.data@) =~= Seq::<Seq<u8>>::empty());
    while index < data.len()
        invariant
            index <= data.len(),
            c == chunk_size as nat,
            c >= 1,
            all == split_parts(data@, c),
            part == r.len(),
            part <= index,
            index < data.len() ==> part < index + 1,
            r@.map_values(|p: Part| p.data@) + split_parts(data@.skip(index as int), c) == all,
            forall|i: int| 0 <= i < r.len() ==> (#[trigger] r[i]).name@ == part_name_of(filename@, i as nat),
        decreases data.len() - index,
    {
        let ghost rest = data@.skip(index as int);
        let ghost done = r@.map_values(|p: Part| p.data@);
        let n = if chunk_size < data.len() - index { chunk_size } else { data.len() - index };
        let chunk = copy_range(data, index, index + n);
        let name = part_name(filename, part);
        r.push(Part { name, data: chunk });
        proof {
            if rest.len() <= c {
                assert(chunk@ =~= rest);
                assert(data@.skip(index + n) =~= Seq::<u8>::empty());
                assert(split_parts(rest, c) =~= seq![rest]);
            } else {
                assert(chunk@ =~= rest.take(c as int));
                assert(data@.skip(index + n) =~= rest.skip(c as int));
            }
            assert(r@.map_values(|p: Part| p.data@) =~= done.push(chunk@));
            assert(done.push(chunk@) + split_parts(data@.skip(index + n), c) =~= done + split_parts(rest, c));
        }
        index = index + n;
        part = part + 1;
    }
    proof {
        lemma_split_count(data@, c);
        assert(data@.skip(index as int) =~= Seq::<u8>::empty());
        assert(r@.map_values(|p: Part| p.data@) =~= all);
        assert forall|i: int| 0 <= i < r.len() implies (#[trigger] r[i]).data@ == all[i] by {
            assert(r@.map_values(|p: Part| p.data@)[i] == r@[i].data@);
        }
    }
    r
}

/// Progress in hundredths of a percent: `done / total * 100 * 100`, rounded
/// down.
pub open spec fn progress_of(done: nat, total: nat) -> nat {
    done * 10000 / total
}

/// How far `done` bytes of `total` are, in hundredths of a percent (10000
/// is all of it); `None` for an empty total.
pub fn progress_hundredths(done: usize, total: usize) -> (r: Option<u128>)
    ensures
        total == 0 ==> r is None,
        total > 0 ==> r == Some(progress_of(done as nat, total as nat) as u128),
{
    if total == 0 {
        None
    } else {
        let d = done as u128;
        assert(d * 10000 <= u128::MAX) by (nonlinear_arith)
            requires d <= usize::MAX;
        let t = total as u128;
        let q = d * 10000 / t;
        Some(q)
    }
}

/// The splitter of a source read in chunks. It is handed the chunks as they
/// are read, each up to the chunk size and a short one only at the end, and
/// answers with the part to write for each.
pub struct FileSplitter {
    basename: String,
    chunk_size: usize,
    total_len: usize,
    next_index: usize,
    consumed: usize,
    finished: bool,
    parts: Ghost<Seq<Seq<u8>>>,
}

impl FileSplitter {
    /// The name shared by the parts.
    pub closed spec fn basename(&self) -> Seq<char> {
        self.basename@
    }

    /// The size of every part but the last.
    pub closed spec fn chunk(&self) -> nat {
        self.chunk_size as nat
    }

    /// The length of the source, as it was given at the start.
    pub closed spec fn total(&self) -> nat {
        self.total_len as nat
    }

    /// The contents of the parts handed out so far, in order.
    pub closed spec fn parts(&self) -> Seq<Seq<u8>> {
        self.parts@
    }

    /// Whether the splitter has seen the end of the source.
    pub closed spec fn is_finished(&self) -> bool {
        self.finished
    }

    /// The bytes of the source taken so far.
    pub open spec fn taken(&self) -> Seq<u8> {
        self.parts().flatten()
    }

    /// The splitter's invariant: the parts handed out are exactly the parts of
    /// the bytes taken so far, and until the end is seen those bytes fill
    /// whole parts.
    pub closed spec fn wf(&self) -> bool {
        &&& self.chunk_size >= 1
        &&& self.next_index == self.parts@.len()
        &&& self.consumed == self.parts@.flatten().len()
        &&& self.parts@ == split_parts(self.parts@.flatten(), self.chunk_size as nat)
        &&& !self.finished ==> self.parts@.flatten().len() % (self.chunk_size as nat) == 0
        &&& self.next_index <= self.consumed
    }

    /// The parts handed out are those of the bytes taken: all of `c` bytes
    /// but the last.
    pub proof fn lemma_parts_of_taken(&self)
        requires
            self.wf(),
        ensures
            self.parts() == split_parts(self.taken(), self.chunk()),
            self.chunk() >= 1,
    {
    }

    /// A splitter for parts named after `basename`, of `chunk_size` bytes, of
    /// a source that is `total_len` bytes long.
    pub fn new(basename: &str, chunk_size: usize, total_len: usize) -> (r: FileSplitter)
        requires
            chunk_size >= 1,
        ensures
            r.wf(),
            r.basename() == basename@,
            r.chunk() == chunk_size as nat,
            r.total() == total_len as nat,
            r.parts() == Seq::<Seq<u8>>::empty(),
            !r.is_finished(),
    {
        let r = FileSplitter {
            basename: String::from_str(basename),
            chunk_size,
            total_len,
            next_index: 0,
            consumed: 0,
            finished: false,
            parts: Ghost(Seq::empty()),
        };
        assert(r.parts@.flatten() =~= Seq::<u8>::empty());
        r
    }

    /// The number of bytes to read for the next part.
    pub fn chunk_size(&self) -> (r: usize)
        ensures
            r as nat == self.chunk(),
    {
        self.chunk_size
    }

    /// The number of bytes taken so far.
    pub fn consumed(&self) -> (r: usize)
        requires
            self.wf(),
        ensures
            r as nat == self.taken().len(),
    {
        self.consumed
    }

    /// Whether the end of the source has been seen.
    pub fn finished(&self) -> (r: bool)
        ensures
            r == self.is_finished(),
    {
        self.finished
    }

    /// Progress so far, in hundredths of a percent of the source's length;
    /// `None` for an empty source.
    pub fn progress(&self) -> (r: Option<u128>)
        requires
            self.wf(),
        ensures
            self.total() == 0 ==> r is None,
            self.total() > 0 ==> r == Some(progress_of(self.taken().len(), self.total()) as u128),
    {
        progress_hundredths(self.consumed, self.total_len)
    }

    /// Takes the next chunk read from the source. An empty chunk, or any
    /// chunk after a short one, ends the split and gives no part. Otherwise
    /// the chunk becomes the next part, named `<basename>.<index>`.
    pub fn on_read(&mut self, chunk: Vec<u8>) -> (r: Option<Part>)
        requires
            old(self).wf(),
            chunk.len() <= old(self).chunk(),
            old(self).taken().len() + chunk.len() <= usize::MAX,
        ensures
            final(self).wf(),
            final(self).basename() == old(self).basename(),
            final(self).chunk() == old(self).chunk(),
            final(self).total() == old(self).total(),
            old(self).is_finished() || chunk.len() == 0 ==> r is None && final(self).parts() == old(self).parts()
                && final(self).is_finished(),
            !old(self).is_finished() && chunk.len() > 0 ==> (r matches Some(p)
                && p.data@ == chunk@
                && p.name@ == part_name_of(old(self).basename(), old(self).parts().len())
                && final(self).parts() == old(self).parts().push(chunk@)
                && final(self).is_finished() == (chunk.len() < old(self).chunk())),
    {
        if self.finished || chunk.len() == 0 {
            self.finished = true;
            return None;
        }
        proof {
            lemma_split_append(self.parts@.flatten(), chunk@, self.chunk_size as nat);
            self.parts@.lemma_flatten_push(chunk@);
            let a = self.parts@.flatten().len();
            let c = self.chunk_size as nat;
            if chunk.len() == self.chunk_size {
                assert((a + c) % c == 0) by (nonlinear_arith)
                    requires a % c == 0, c >= 1;
            }
        }
        let name = part_name(self.basename.as_str(), self.next_index);
        self.next_index = self.next_index + 1;
        self.consumed = self.consumed + chunk.len();
        self.finished = chunk.len() < self.chunk_size;
        self.parts = Ghost(self.parts@.push(chunk@));
        Some(Part { name, data: chunk })
    }
}

} // verus!
