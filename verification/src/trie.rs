//! Reading a trie in place: from a buffer and the offset of its root record
//! to the keys it holds with their term ids.

use crate::bits::{lemma_field_byte, BitReader};
use crate::error::ReadError;
use crate::record::{
    be_value, count_at, edge_at, header_at, header_len, lemma_be_value_bound, lemma_parsed_bounds,
    lemma_sum_tails_take, lemma_sum_widths_take, parse_record, read_header, sum_tails, sum_widths,
    EdgeModel, Header, CHAR_BITS, MAX_CHILDREN, MAX_EDGE,
};
use vstd::prelude::*;
use vstd::slice::slice_subrange;

verus! {

/// One child of a record, as it was read.
#[derive(Debug, PartialEq, Eq)]
pub struct Edge {
    /// Whether the child is a key; otherwise it is another record.
    pub is_terminal: bool,
    /// The label of the edge to the child.
    pub label: Vec<u8>,
    /// The term id of a key, or the distance back to the child's record.
    pub pointer: u32,
}

impl View for Edge {
    type V = EdgeModel;

    open spec fn view(&self) -> EdgeModel {
        EdgeModel {
            is_terminal: self.is_terminal,
            label: self.label@,
            pointer: self.pointer as nat,
        }
    }
}

/// The children that a row of edges stands for.
pub open spec fn edge_models(edges: Seq<Edge>) -> Seq<EdgeModel> {
    Seq::new(edges.len(), |i: int| edges[i]@)
}

/// A key with its term id.
pub struct TerminalModel {
    pub key: Seq<u8>,
    pub term_id: nat,
}

/// A key of the trie with its term id.
#[derive(Debug, PartialEq, Eq)]
pub struct Terminal {
    pub key: Vec<u8>,
    pub term_id: u32,
}

impl View for Terminal {
    type V = TerminalModel;

    open spec fn view(&self) -> TerminalModel {
        TerminalModel { key: self.key@, term_id: self.term_id as nat }
    }
}

/// The keys that a row of terminals stands for.
pub open spec fn terminal_models(found: Seq<Terminal>) -> Seq<TerminalModel> {
    Seq::new(found.len(), |i: int| found[i]@)
}

/// The children of the record at offset `at` of `bytes`.
pub open spec fn record_at(bytes: Seq<u8>, at: nat) -> Result<Seq<EdgeModel>, ReadError> {
    if at > bytes.len() {
        Err(ReadError::Truncated)
    } else {
        parse_record(bytes.skip(at as int))
    }
}

/// The keys below the record at offset `at` of `bytes`, in stored order,
/// each behind `prefix`; or the first failure on the way. An empty buffer
/// holds no record and no key: the walk gives nothing there, and reads
/// nothing.
pub open spec fn walk(bytes: Seq<u8>, at: nat, prefix: Seq<u8>) -> Result<
    Seq<TerminalModel>,
    ReadError,
>
    decreases at, 1nat, 0nat,
{
    if bytes.len() == 0 {
        Ok(Seq::empty())
    } else {
        match record_at(bytes, at) {
            Err(e) => Err(e),
            Ok(es) => walk_edges(bytes, at, prefix, es),
        }
    }
}

/// The keys below the children `es` of the record at offset `at`, in stored
/// order. A child that is a key gives that key with its term id; another
/// leads to the record that lies its pointer back from `at`.
pub open spec fn walk_edges(bytes: Seq<u8>, at: nat, prefix: Seq<u8>, es: Seq<EdgeModel>) -> Result<
    Seq<TerminalModel>,
    ReadError,
>
    decreases at, 0nat, es.len(),
{
    if es.len() == 0 {
        Ok(Seq::empty())
    } else {
        match walk_edges(bytes, at, prefix, es.drop_last()) {
            Err(e) => Err(e),
            Ok(before) => {
                let e = es.last();
                if e.is_terminal {
                    Ok(before.push(TerminalModel { key: prefix + e.label, term_id: e.pointer }))
                } else if e.pointer == 0 || e.pointer > at {
                    Err(ReadError::BadOffset)
                } else {
                    match walk(bytes, (at - e.pointer) as nat, prefix + e.label) {
                        Err(x) => Err(x),
                        Ok(below) => Ok(before + below),
                    }
                }
            },
        }
    }
}

/// The keys of the trie in `bytes` whose root record is at `root`: what the
/// walk from the root gives. An empty buffer holds no key.
pub open spec fn trie_entries(bytes: Seq<u8>, root: nat) -> Result<Seq<TerminalModel>, ReadError> {
    walk(bytes, root, Seq::empty())
}

/// Putting a byte behind a number of up to three bytes is multiplying by
/// 256 and adding the byte.
proof fn lemma_shift_in_byte(x: u32, b: u32)
    by (bit_vector)
    requires
        x <= 0xffffff,
        b < 256,
    ensures
        (x << 8) | b == 256 * x + b,
{
}

/// A failure among the first children is the failure of all.
pub proof fn lemma_walk_edges_fails(
    bytes: Seq<u8>,
    at: nat,
    prefix: Seq<u8>,
    es: Seq<EdgeModel>,
    k: int,
)
    requires
        0 <= k <= es.len(),
        walk_edges(bytes, at, prefix, es.take(k)) is Err,
    ensures
        walk_edges(bytes, at, prefix, es) == walk_edges(bytes, at, prefix, es.take(k)),
    decreases es.len() - k,
{
    if k == es.len() {
        assert(es.take(k) =~= es);
    } else {
        assert(es.take(k + 1).drop_last() =~= es.take(k));
        lemma_walk_edges_fails(bytes, at, prefix, es, k + 1);
    }
}

/// Where the walk over children succeeds, it succeeds over the first of
/// them.
pub proof fn lemma_walk_edges_starts(
    bytes: Seq<u8>,
    at: nat,
    prefix: Seq<u8>,
    es: Seq<EdgeModel>,
    k: int,
)
    requires
        0 <= k <= es.len(),
        walk_edges(bytes, at, prefix, es) is Ok,
    ensures
        walk_edges(bytes, at, prefix, es.take(k)) is Ok,
{
    if walk_edges(bytes, at, prefix, es.take(k)) is Err {
        lemma_walk_edges_fails(bytes, at, prefix, es, k);
    }
}

/// A walk that succeeds in a buffer that is not empty has found, in the
/// record that it started from, only pointers to records that point back: each
/// is larger than zero and not larger than the offset of the record. The walk
/// from each of these records has succeeded too, so the same holds of every
/// record that the walk has read. In an empty buffer the walk reads no record.
pub proof fn lemma_walk_points_back(bytes: Seq<u8>, at: nat, prefix: Seq<u8>)
    requires
        bytes.len() > 0,
        walk(bytes, at, prefix) is Ok,
    ensures
        record_at(bytes, at) is Ok,
        forall|i: int|
            0 <= i < record_at(bytes, at)->Ok_0.len() ==> {
                let e = #[trigger] record_at(bytes, at)->Ok_0[i];
                !e.is_terminal ==> {
                    &&& 0 < e.pointer <= at
                    &&& walk(bytes, (at - e.pointer) as nat, prefix + e.label) is Ok
                }
            },
{
    let es = record_at(bytes, at)->Ok_0;
    assert forall|i: int| 0 <= i < es.len() implies {
        let e = #[trigger] es[i];
        !e.is_terminal ==> {
            &&& 0 < e.pointer <= at
            &&& walk(bytes, (at - e.pointer) as nat, prefix + e.label) is Ok
        }
    } by {
        lemma_walk_edges_starts(bytes, at, prefix, es, i + 1);
        lemma_walk_edges_starts(bytes, at, prefix, es, i);
        assert(es.take(i + 1).drop_last() =~= es.take(i));
        assert(es.take(i + 1).last() == es[i]);
    }
}

/// `a` followed by `b`.
fn joined(a: &Vec<u8>, b: &Vec<u8>) -> (r: Vec<u8>)
    ensures
        r@ == a@ + b@,
{
    let mut r: Vec<u8> = Vec::new();
    let mut i: usize = 0;
    while i < a.len()
        invariant
            i <= a@.len(),
            r@ == a@.take(i as int),
        decreases a@.len() - i,
    {
        r.push(a[i]);
        proof {
            assert(r@ =~= a@.take(i + 1));
        }
        i = i + 1;
    }
    let mut j: usize = 0;
    proof {
        assert(r@ =~= a@ + b@.take(0));
    }
    while j < b.len()
        invariant
            j <= b@.len(),
            r@ == a@ + b@.take(j as int),
        decreases b@.len() - j,
    {
        r.push(b[j]);
        proof {
            assert(r@ =~= a@ + b@.take(j + 1));
        }
        j = j + 1;
    }
    proof {
        assert(b@.take(j as int) =~= b@);
    }
    r
}

/// A trie in a byte buffer, read where it lies.
pub struct Trie<'a> {
    bytes: &'a [u8],
    root_ptr: usize,
}

impl<'a> Trie<'a> {
    /// The buffer that holds the trie.
    pub closed spec fn data(&self) -> Seq<u8> {
        self.bytes@
    }

    /// The offset of the root record.
    pub closed spec fn root(&self) -> nat {
        self.root_ptr as nat
    }

    /// The trie in `bs` whose root record is at `root_ptr`.
    pub fn new(bs: &'a [u8], root_ptr: usize) -> (t: Trie<'a>)
        ensures
            t.data() == bs@,
            t.root() == root_ptr,
    {
        Trie { bytes: bs, root_ptr: root_ptr }
    }

    /// The number that the `n` bytes at `ptr` spell, most significant byte
    /// first.
    pub fn assemble_bytes(&self, ptr: usize, n: usize) -> (x: u32)
        requires
            n <= 4,
            ptr + n <= self.data().len(),
        ensures
            x == be_value(self.data().subrange(ptr as int, ptr + n)),
    {
        let mut x: u32 = 0;
        let mut i: usize = 0;
        let total = self.bytes.len();
        proof {
            assert(self.bytes@.subrange(ptr as int, ptr + 0) =~= Seq::<u8>::empty());
        }
        while i < n
            invariant
                i <= n <= 4,
                total == self.bytes@.len(),
                ptr + n <= self.bytes@.len(),
                x == be_value(self.bytes@.subrange(ptr as int, ptr + i)),
            decreases n - i,
        {
            let b = self.bytes[ptr + i];
            proof {
                let done = self.bytes@.subrange(ptr as int, ptr + i);
                let next = self.bytes@.subrange(ptr as int, ptr + i + 1);
                lemma_be_value_bound(done);
                lemma_shift_in_byte(x, b as u32);
                assert(next.drop_last() =~= done);
                assert(next.last() == b);
            }
            x = x << 8;
            x = x | (b as u32);
            i = i + 1;
        }
        x
    }

    /// Reads a pointer table at `at`: one pointer for each width of `widths`,
    /// which holds the widths less one.
    fn read_pointers(&self, at: usize, widths: &Vec<u32>) -> (res: Result<
        (Vec<u32>, usize),
        ReadError,
    >)
        requires
            at <= self.data().len(),
            forall|i: int| 0 <= i < widths@.len() ==> widths@[i] <= 3,
        ensures
            match res {
                Ok((ptrs, end)) => {
                    &&& end == at + sum_widths(widths@)
                    &&& end <= self.data().len()
                    &&& ptrs@.len() == widths@.len()
                    &&& forall|i: int|
                        0 <= i < widths@.len() ==> #[trigger] ptrs@[i] == be_value(
                            self.data().subrange(
                                at + sum_widths(widths@.take(i)),
                                at + sum_widths(widths@.take(i + 1)),
                            ),
                        )
                },
                Err(e) => {
                    &&& e == ReadError::Truncated
                    &&& at + sum_widths(widths@) > self.data().len()
                },
            },
    {
        let mut ptrs: Vec<u32> = Vec::new();
        let mut p = at;
        let mut i: usize = 0;
        let total = self.bytes.len();
        proof {
            assert(widths@.take(0) =~= Seq::<u32>::empty());
        }
        while i < widths.len()
            invariant
                i <= widths@.len(),
                total == self.bytes@.len(),
                p <= self.bytes@.len(),
                p == at + sum_widths(widths@.take(i as int)),
                forall|i: int| 0 <= i < widths@.len() ==> widths@[i] <= 3,
                ptrs@.len() == i,
                forall|j: int|
                    0 <= j < i ==> #[trigger] ptrs@[j] == be_value(
                        self.bytes@.subrange(
                            at + sum_widths(widths@.take(j)),
                            at + sum_widths(widths@.take(j + 1)),
                        ),
                    ),
            decreases widths@.len() - i,
        {
            let width = widths[i] as usize + 1;
            proof {
                lemma_sum_widths_take(widths@, i as int);
            }
            if width > self.bytes.len() - p {
                return Err(ReadError::Truncated);
            }
            let x = self.assemble_bytes(p, width);
            ptrs.push(x);
            p = p + width;
            i = i + 1;
        }
        proof {
            assert(widths@.take(i as int) =~= widths@);
        }
        Ok((ptrs, p))
    }

    /// Reads the labels at `at` and puts the children together: for each
    /// child its flag, its pointer, and its label, which is its first byte
    /// and then as many bytes as its length says.
    #[verifier::rlimit(50)]
    fn read_edges(&self, at: usize, header: &Header, ptrs: &Vec<u32>) -> (res: Result<
        Vec<Edge>,
        ReadError,
    >)
        requires
            at <= self.data().len(),
            header.wf(),
            ptrs@.len() == header@.lens.len(),
        ensures
            match res {
                Ok(edges) => {
                    &&& at + sum_tails(header@.lens) <= self.data().len()
                    &&& edges@.len() == header@.lens.len()
                    &&& forall|i: int|
                        0 <= i < edges@.len() ==> (#[trigger] edges@[i])@ == (EdgeModel {
                            is_terminal: header@.flags[i] == 1,
                            label: seq![header@.firsts[i] as u8] + self.data().subrange(
                                at + sum_tails(header@.lens.take(i)),
                                at + sum_tails(header@.lens.take(i + 1)),
                            ),
                            pointer: ptrs@[i] as nat,
                        })
                },
                Err(e) => {
                    &&& e == ReadError::Truncated
                    &&& at + sum_tails(header@.lens) > self.data().len()
                },
            },
    {
        let tail = slice_subrange(self.bytes, at, self.bytes.len());
        let mut br = BitReader::new(tail);
        let mut edges: Vec<Edge> = Vec::new();
        let mut i: usize = 0;
        let ghost lens = header@.lens;
        let ghost firsts = header@.firsts;
        proof {
            assert(lens.take(0) =~= Seq::<u32>::empty());
        }
        while i < header.term_lens.len()
            invariant
                i <= lens.len(),
                header.wf(),
                lens == header@.lens,
                firsts == header@.firsts,
                ptrs@.len() == lens.len(),
                at <= self.bytes@.len(),
                tail@ == self.bytes@.subrange(at as int, self.bytes@.len() as int),
                br.wf(),
                br.data() == tail@,
                br.cursor() == 8 * sum_tails(lens.take(i as int)),
                at + sum_tails(lens.take(i as int)) <= self.bytes@.len(),
                edges@.len() == i,
                forall|j: int|
                    0 <= j < i ==> (#[trigger] edges@[j])@ == (EdgeModel {
                        is_terminal: header@.flags[j] == 1,
                        label: seq![firsts[j] as u8] + self.bytes@.subrange(
                            at + sum_tails(lens.take(j)),
                            at + sum_tails(lens.take(j + 1)),
                        ),
                        pointer: ptrs@[j] as nat,
                    }),
            decreases lens.len() - i,
        {
            let ghost start = sum_tails(lens.take(i as int));
            proof {
                lemma_sum_tails_take(lens, i as int);
            }
            let mut label: Vec<u8> = Vec::new();
            label.push(header.firsts[i] as u8);
            let len = header.term_lens[i];
            let mut k: u32 = 0;
            proof {
                assert(label@ =~= seq![firsts[i as int] as u8] + self.bytes@.subrange(
                    at + start,
                    at + start + 0,
                ));
            }
            while k < len
                invariant
                    k <= len,
                    lens == header@.lens,
                    firsts == header@.firsts,
                    firsts.len() == lens.len(),
                    len == lens[i as int],
                    i < lens.len(),
                    start == sum_tails(lens.take(i as int)),
                    sum_tails(lens.take(i + 1)) == start + len,
                    sum_tails(lens.take(i + 1)) <= sum_tails(lens),
                    at <= self.bytes@.len(),
                    tail@ == self.bytes@.subrange(at as int, self.bytes@.len() as int),
                    br.wf(),
                    br.data() == tail@,
                    br.cursor() == 8 * (start + k),
                    at + start + k <= self.bytes@.len(),
                    label@ == seq![firsts[i as int] as u8] + self.bytes@.subrange(
                        at + start,
                        at + start + k,
                    ),
                decreases len - k,
            {
                match br.read(CHAR_BITS) {
                    Ok(c) => {
                        proof {
                            lemma_field_byte(tail@, start + k);
                            let done = self.bytes@.subrange(at + start, at + start + k);
                            let next = self.bytes@.subrange(at + start, at + start + k + 1);
                            assert(next =~= done.push(c as u8));
                        }
                        label.push(c as u8);
                    },
                    Err(e) => {
                        return Err(e);
                    },
                }
                k = k + 1;
            }
            edges.push(
                Edge { is_terminal: header.are_terminal[i] == 1, label: label, pointer: ptrs[i] },
            );
            i = i + 1;
        }
        proof {
            assert(lens.take(i as int) =~= lens);
        }
        Ok(edges)
    }

    /// Reads the record at `ptr`: the header, then the pointers, then the
    /// labels. Fails where the buffer ends before the record does.
    #[verifier::rlimit(50)]
    pub fn read_record(&self, ptr: usize) -> (res: Result<Vec<Edge>, ReadError>)
        ensures
            match res {
                Ok(edges) => {
                    &&& record_at(self.data(), ptr as nat) == Ok::<Seq<EdgeModel>, ReadError>(
                        edge_models(edges@),
                    )
                    &&& 1 <= edges@.len() <= MAX_CHILDREN
                    &&& forall|i: int|
                        0 <= i < edges@.len() ==> 1 <= (#[trigger] edges@[i]).label@.len()
                            <= MAX_EDGE
                },
                Err(e) => record_at(self.data(), ptr as nat) == Err::<Seq<EdgeModel>, ReadError>(e),
            },
    {
        let total = self.bytes.len();
        if ptr > total {
            return Err(ReadError::Truncated);
        }
        let bs = slice_subrange(self.bytes, ptr, total);
        let ghost rec = self.bytes@.skip(ptr as int);
        proof {
            assert(bs@ =~= rec);
        }
        let (header, header_bytes) = match read_header(bs) {
            Ok(v) => v,
            Err(e) => {
                return Err(e);
            },
        };
        let ghost hd = header_at(rec);
        let table = ptr + header_bytes;
        let (ptrs, tails_at) = match self.read_pointers(table, &header.ptr_sizes) {
            Ok(v) => v,
            Err(e) => {
                return Err(e);
            },
        };
        let edges = match self.read_edges(tails_at, &header, &ptrs) {
            Ok(v) => v,
            Err(e) => {
                return Err(e);
            },
        };
        proof {
            let size = count_at(rec);
            let h = header_len(size) as int;
            let t = h + sum_widths(hd.widths);
            assert forall|i: int| 0 <= i < size implies (#[trigger] edges@[i])@ == edge_at(
                rec,
                hd,
                i,
            ) by {
                lemma_sum_widths_take(hd.widths, i);
                lemma_sum_tails_take(hd.lens, i);
                let a = sum_widths(hd.widths.take(i)) as int;
                let b = sum_widths(hd.widths.take(i + 1)) as int;
                assert(self.bytes@.subrange(table + a, table + b) =~= rec.subrange(h + a, h + b));
                let c = sum_tails(hd.lens.take(i)) as int;
                let d = sum_tails(hd.lens.take(i + 1)) as int;
                assert(self.bytes@.subrange(tails_at + c, tails_at + d) =~= rec.subrange(
                    t + c,
                    t + d,
                ));
            }
            assert(edge_models(edges@) =~= Seq::new(size, |i: int| edge_at(rec, hd, i)));
            lemma_parsed_bounds(rec);
            assert forall|i: int| 0 <= i < edges@.len() implies 1 <= (
            #[trigger] edges@[i]).label@.len() <= MAX_EDGE by {
                assert(edge_models(edges@)[i] == edges@[i]@);
            }
        }
        Ok(edges)
    }

    /// The keys below the record at `ptr`, in stored order, each behind
    /// `sofar`. An empty buffer holds no key: nothing is read of it, and
    /// nothing fails.
    ///
    /// Fails where the buffer ends before a record does, and where the
    /// pointer to a record is zero or larger than the offset of the record
    /// that holds it: such a pointer does not point back into the buffer.
    #[verifier::rlimit(50)]
    pub fn traverse(&self, ptr: usize, sofar: Vec<u8>) -> (res: Result<Vec<Terminal>, ReadError>)
        ensures
            match res {
                Ok(found) => walk(self.data(), ptr as nat, sofar@) == Ok::<
                    Seq<TerminalModel>,
                    ReadError,
                >(terminal_models(found@)),
                Err(e) => walk(self.data(), ptr as nat, sofar@) == Err::<
                    Seq<TerminalModel>,
                    ReadError,
                >(e),
            },
        decreases ptr,
    {
        if self.bytes.len() == 0 {
            let found: Vec<Terminal> = Vec::new();
            proof {
                assert(terminal_models(found@) =~= Seq::<TerminalModel>::empty());
            }
            return Ok(found);
        }
        let edges = match self.read_record(ptr) {
            Ok(v) => v,
            Err(e) => {
                return Err(e);
            },
        };
        let ghost es = edge_models(edges@);
        let mut found: Vec<Terminal> = Vec::new();
        let mut i: usize = 0;
        proof {
            assert(es.take(0) =~= Seq::<EdgeModel>::empty());
            assert(terminal_models(found@) =~= Seq::<TerminalModel>::empty());
        }
        while i < edges.len()
            invariant
                i <= edges@.len(),
                es == edge_models(edges@),
                self.bytes@.len() > 0,
                record_at(self.bytes@, ptr as nat) == Ok::<Seq<EdgeModel>, ReadError>(es),
                walk_edges(self.bytes@, ptr as nat, sofar@, es.take(i as int)) == Ok::<
                    Seq<TerminalModel>,
                    ReadError,
                >(terminal_models(found@)),
            decreases edges@.len() - i,
        {
            let ghost before = terminal_models(found@);
            proof {
                assert(es.take(i + 1).drop_last() =~= es.take(i as int));
                assert(es.take(i + 1).last() == edges@[i as int]@);
            }
            let term = joined(&sofar, &edges[i].label);
            let pointer = edges[i].pointer;
            if edges[i].is_terminal {
                found.push(Terminal { key: term, term_id: pointer });
                proof {
                    assert(terminal_models(found@) =~= before.push(
                        TerminalModel {
                            key: sofar@ + edges@[i as int]@.label,
                            term_id: pointer as nat,
                        },
                    ));
                }
            } else {
                if pointer == 0 || pointer as usize > ptr {
                    proof {
                        lemma_walk_edges_fails(self.bytes@, ptr as nat, sofar@, es, i + 1);
                    }
                    return Err(ReadError::BadOffset);
                }
                match self.traverse(ptr - pointer as usize, term) {
                    Ok(mut below) => {
                        let ghost added = terminal_models(below@);
                        found.append(&mut below);
                        proof {
                            assert(terminal_models(found@) =~= before + added);
                        }
                    },
                    Err(e) => {
                        proof {
                            lemma_walk_edges_fails(self.bytes@, ptr as nat, sofar@, es, i + 1);
                        }
                        return Err(e);
                    },
                }
            }
            i = i + 1;
        }
        proof {
            assert(es.take(i as int) =~= es);
        }
        Ok(found)
    }

    /// The keys of the trie with their term ids, in ascending order of the
    /// keys. An empty buffer holds no key.
    pub fn entries(&self) -> (res: Result<Vec<Terminal>, ReadError>)
        ensures
            match res {
                Ok(found) => trie_entries(self.data(), self.root()) == Ok::<
                    Seq<TerminalModel>,
                    ReadError,
                >(terminal_models(found@)),
                Err(e) => trie_entries(self.data(), self.root()) == Err::<
                    Seq<TerminalModel>,
                    ReadError,
                >(e),
            },
    {
        self.traverse(self.root_ptr, Vec::new())
    }
}

} // verus!
