use vstd::arithmetic::div_mod::{lemma_div_plus_one, lemma_fundamental_div_mod_converse};
use vstd::prelude::*;

use crate::error::FailureKind;
use crate::hash::{combine, combined_of, digest, digest_of};

verus! {

/// Number of chunks of a file: the size divided by the chunk size, rounded up.
pub open spec fn chunk_count(size: nat, chunk_size: nat) -> nat {
    if chunk_size == 0 {
        0
    } else {
        ((size + chunk_size - 1) / chunk_size as int) as nat
    }
}

/// The chunks of a file, in order: each holds `chunk_size` bytes but the
/// last, which holds the rest.
pub open spec fn split(content: Seq<u8>, chunk_size: nat) -> Seq<Seq<u8>>
    decreases content.len(),
{
    if content.len() == 0 || chunk_size == 0 {
        Seq::empty()
    } else if content.len() <= chunk_size {
        seq![content]
    } else {
        seq![content.take(chunk_size as int)] + split(content.skip(chunk_size as int), chunk_size)
    }
}

/// The digests of a sequence of chunks.
pub open spec fn digests_of(chunks: Seq<Seq<u8>>) -> Seq<u64> {
    chunks.map_values(|c: Seq<u8>| digest_of(c))
}

/// The contents of a sequence of byte vectors.
pub open spec fn views(v: Seq<Vec<u8>>) -> Seq<Seq<u8>> {
    v.map_values(|c: Vec<u8>| c@)
}

proof fn lemma_split_step(content: Seq<u8>, chunk_size: nat)
    requires
        0 < chunk_size < content.len(),
    ensures
        split(content, chunk_size) == seq![content.take(chunk_size as int)] + split(
            content.skip(chunk_size as int),
            chunk_size,
        ),
{
}

/// There are as many chunks as the size divided by the chunk size, rounded up.
pub proof fn lemma_split_len(content: Seq<u8>, chunk_size: nat)
    requires
        chunk_size > 0,
    ensures
        split(content, chunk_size).len() == chunk_count(content.len(), chunk_size),
    decreases content.len(),
{
    let n = content.len() as int;
    let c = chunk_size as int;
    if n == 0 {
        lemma_fundamental_div_mod_converse(c - 1, c, 0, c - 1);
    } else if n <= c {
        lemma_fundamental_div_mod_converse(n + c - 1, c, 1, n - 1);
    } else {
        lemma_split_len(content.skip(c), chunk_size);
        lemma_div_plus_one(n - 1, c);
    }
}

/// Concatenating the chunks of a file gives back the file.
pub proof fn lemma_round_trip(content: Seq<u8>, chunk_size: nat)
    requires
        chunk_size > 0,
    ensures
        split(content, chunk_size).flatten() == content,
    decreases content.len(),
{
    let s = split(content, chunk_size);
    if content.len() == 0 {
    } else if content.len() <= chunk_size {
        s.lemma_flatten_one_element();
    } else {
        let c = chunk_size as int;
        lemma_round_trip(content.skip(c), chunk_size);
        assert(s.drop_first() =~= split(content.skip(c), chunk_size));
        assert(content.take(c) + content.skip(c) =~= content);
    }
}

/// Chunk layout of one file and the progress of its transfer.
pub struct Manifest {
    pub name: String,
    pub size: usize,
    pub chunk_size: usize,
    pub hashes: Vec<u64>,
    pub done: Vec<bool>,
}

impl Manifest {
    /// One digest per chunk and one completion flag per digest.
    pub open spec fn wf(&self) -> bool {
        &&& self.chunk_size > 0
        &&& self.hashes@.len() == chunk_count(self.size as nat, self.chunk_size as nat)
        &&& self.done@.len() == self.hashes@.len()
    }

    /// Whether every chunk is complete.
    pub open spec fn complete_spec(&self) -> bool {
        forall|i: int| 0 <= i < self.done@.len() ==> self.done@[i]
    }

    /// Whether this manifest describes the given content in chunks of its size.
    pub open spec fn describes(&self, content: Seq<u8>) -> bool {
        &&& self.size == content.len()
        &&& self.hashes@ == digests_of(split(content, self.chunk_size as nat))
    }

    /// Layout of a file with nothing transferred yet. A chunk size of zero
    /// cannot be negotiated.
    pub fn from_content(name: String, content: &[u8], chunk_size: usize) -> (r: Result<
        Manifest,
        FailureKind,
    >)
        ensures
            chunk_size == 0 <==> r == Err::<Manifest, FailureKind>(FailureKind::ProtocolViolation),
            chunk_size > 0 ==> r is Ok,
            r is Ok ==> ({
                let m = r->Ok_0;
                &&& m.wf()
                &&& m.name@ == name@
                &&& m.chunk_size == chunk_size
                &&& m.describes(content@)
                &&& forall|i: int| 0 <= i < m.done@.len() ==> !m.done@[i]
            }),
    {
        if chunk_size == 0 {
            return Err(FailureKind::ProtocolViolation);
        }
        let chunks = split_chunks(content, chunk_size);
        let mut hashes: Vec<u64> = Vec::new();
        let mut done: Vec<bool> = Vec::new();
        let mut i: usize = 0;
        while i < chunks.len()
            invariant
                i <= chunks@.len(),
                hashes@.len() == i,
                done@.len() == i,
                forall|j: int| 0 <= j < i ==> hashes@[j] == digest_of(chunks@[j]@),
                forall|j: int| 0 <= j < i ==> !done@[j],
            decreases chunks@.len() - i,
        {
            let h = digest(chunks[i].as_slice());
            hashes.push(h);
            done.push(false);
            i = i + 1;
        }
        proof {
            lemma_split_len(content@, chunk_size as nat);
            assert(hashes@ =~= digests_of(split(content@, chunk_size as nat)));
        }
        Ok(Manifest { name, size: content.len(), chunk_size, hashes, done })
    }

    /// Number of chunks.
    pub fn chunk_total(&self) -> (r: usize)
        ensures
            r == self.hashes@.len(),
    {
        self.hashes.len()
    }

    /// Whether every chunk is complete.
    pub fn is_complete(&self) -> (r: bool)
        requires
            self.wf(),
        ensures
            r == self.complete_spec(),
    {
        let mut i: usize = 0;
        while i < self.done.len()
            invariant
                i <= self.done@.len(),
                forall|j: int| 0 <= j < i ==> self.done@[j],
            decreases self.done@.len() - i,
        {
            if !self.done[i] {
                return false;
            }
            i = i + 1;
        }
        true
    }

    /// Digest of the whole file, derived from the chunk digests.
    pub fn file_digest(&self) -> (r: u64)
        ensures
            r == combined_of(self.hashes@),
    {
        combine(self.hashes.as_slice())
    }
}

/// Copy of `content[start..end]`.
pub fn copy_range(content: &[u8], start: usize, end: usize) -> (r: Vec<u8>)
    requires
        start <= end <= content@.len(),
    ensures
        r@ == content@.subrange(start as int, end as int),
{
    let mut out: Vec<u8> = Vec::new();
    let mut i: usize = start;
    while i < end
        invariant
            start <= i <= end,
            end <= content@.len(),
            out@ == content@.subrange(start as int, i as int),
        decreases end - i,
    {
        out.push(content[i]);
        i = i + 1;
        assert(out@ =~= content@.subrange(start as int, i as int));
    }
    out
}

/// The chunks of a file, in order.
pub fn split_chunks(content: &[u8], chunk_size: usize) -> (r: Vec<Vec<u8>>)
    requires
        chunk_size > 0,
    ensures
        views(r@) == split(content@, chunk_size as nat),
{
    let ghost cs = chunk_size as nat;
    let mut out: Vec<Vec<u8>> = Vec::new();
    let mut offset: usize = 0;
    let n = content.len();
    assert(content@.skip(0) =~= content@);
    assert(views(out@) =~= Seq::<Seq<u8>>::empty());
    assert(views(out@) + split(content@, cs) =~= split(content@, cs));
    while offset < n
        invariant
            n == content@.len(),
            cs == chunk_size as nat,
            chunk_size > 0,
            offset <= n,
            split(content@, cs) == views(out@) + split(content@.skip(offset as int), cs),
        decreases n - offset,
    {
        let ghost rest = content@.skip(offset as int);
        let end: usize = if n - offset <= chunk_size {
            n
        } else {
            offset + chunk_size
        };
        let piece = copy_range(content, offset, end);
        let ghost before = out@;
        out.push(piece);
        proof {
            assert(views(out@) =~= views(before).push(piece@));
            assert(rest.len() == n - offset);
            if n - offset <= chunk_size {
                assert(piece@ =~= rest);
                assert(split(rest, cs) == seq![rest]);
                assert(content@.skip(end as int) =~= Seq::<u8>::empty());
                assert(split(rest, cs) =~= seq![piece@]);
                assert(views(out@) + split(content@.skip(end as int), cs) =~= views(before) + split(rest, cs));
            } else {
                assert(piece@ =~= rest.take(chunk_size as int));
                assert(rest.skip(chunk_size as int) =~= content@.skip(end as int));
                lemma_split_step(rest, cs);
                assert(views(out@) + split(content@.skip(end as int), cs) =~= views(before) + split(rest, cs));
            }
        }
        offset = end;
    }
    assert(content@.skip(offset as int) =~= Seq::<u8>::empty());
    assert(views(out@) + Seq::<Seq<u8>>::empty() =~= views(out@));
    out
}

/// Concatenation of the chunks, in order.
pub fn assemble(chunks: &Vec<Vec<u8>>) -> (r: Vec<u8>)
    ensures
        r@ == views(chunks@).flatten(),
{
    let mut out: Vec<u8> = Vec::new();
    let mut i: usize = 0;
    while i < chunks.len()
        invariant
            i <= chunks@.len(),
            out@ == views(chunks@.take(i as int)).flatten(),
        decreases chunks@.len() - i,
    {
        let piece = &chunks[i];
        let ghost before = out@;
        let mut k: usize = 0;
        while k < piece.len()
            invariant
                k <= piece@.len(),
                out@ == before + piece@.take(k as int),
            decreases piece@.len() - k,
        {
            out.push(piece[k]);
            k = k + 1;
            assert(out@ =~= before + piece@.take(k as int));
        }
        proof {
            assert(views(chunks@.take(i + 1)) =~= views(chunks@.take(i as int)).push(piece@));
            views(chunks@.take(i as int)).lemma_flatten_push(piece@);
            assert(piece@.take(k as int) =~= piece@);
        }
        i = i + 1;
    }
    assert(chunks@.take(i as int) =~= chunks@);
    out
}

/// Splitting a file and assembling its chunks gives back the same bytes.
pub fn round_trip(content: &[u8], chunk_size: usize) -> (r: Vec<u8>)
    requires
        chunk_size > 0,
    ensures
        r@ == content@,
{
    let chunks = split_chunks(content, chunk_size);
    proof {
        lemma_round_trip(content@, chunk_size as nat);
    }
    assemble(&chunks)
}

} // verus!
