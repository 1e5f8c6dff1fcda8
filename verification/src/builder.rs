//! Building a trie from keys that arrive in ascending order.

use crate::bits::{lemma_unpack_add, lemma_unpack_one, pad8, unpack, BitWriter};
use crate::error::{BuildError, ReadError};
use crate::groups::{
    add_grouped, all_gathered, all_tagged, assign, close_grouped, finish_grouped, fork_gathered,
    gathered, group_of, key_gathered, leave_grouped, left_as, root_grouped, tagged, with_kid,
    Gathered, Groups, GroupsModel, Tagged,
};
use crate::keys::{common_prefix, common_prefix_len};
use crate::model::{
    add_step, build, child_fits, child_within, close_above, complete, deepest, edge_of, edges_of,
    finish_step, flush, flushable, grows, key_error, last_key, lemma_child_fits_grows,
    lemma_complete_only, lemma_deepest, lemma_edges_of_ok, lemma_shorten, lemma_shorten_all,
    lemma_shorten_all_fails, shorten_all, start, BuilderModel, MAX_OUTPUT,
};
use crate::node::{fork_node, node_models, terminal_node, ChildModel, NodeModel, TrieNode};
use crate::record::{
    be_bytes, edges_ok, firsts_of, flags_of, header_len, lemma_be_bytes_len,
    lemma_header_bits_len, lemma_stream_close, lemma_suffix_len, lemma_table_len, lens_of, log2,
    pointer_table, ptr_width, record_bytes, rows_of, suffixes, sum_tails, sum_widths, widths_of,
    write_header, EdgeModel, Header, CHAR_BITS, MAX_CHILDREN, MAX_EDGE,
};
use crate::soundness::{
    inv, keys_of, laid_out, lemma_add_step, lemma_build_failed, lemma_close_above,
    lemma_finish_step, lemma_leave, lemma_pending_depth, lemma_root_flushable, pending,
};
use crate::trie::{trie_entries, TerminalModel};
use vstd::arithmetic::power2::lemma2_to64;
use vstd::prelude::*;
use vstd::slice::{slice_subrange, slice_to_vec};

verus! {

/// The lowest byte of a number is its remainder by 256, and what is left
/// above it is its quotient.
proof fn lemma_low_byte(x: u32)
    by (bit_vector)
    ensures
        x & 0xff == x % 256,
        x >> 8 == x / 256,
        x & 0xff < 256,
{
}

/// A record is as long as its header, its pointers and its label bytes.
pub proof fn lemma_record_len(es: Seq<EdgeModel>)
    requires
        edges_ok(es),
    ensures
        record_bytes(es).len() == header_len(es.len()) + sum_widths(widths_of(es)) + sum_tails(
            lens_of(es),
        ),
{
    lemma_header_bits_len(es);
    lemma_table_len(es);
    lemma_suffix_len(es);
}

/// The labels of `es` are what the terms of the children of `node` add to
/// its term.
pub open spec fn labels_of(es: Seq<EdgeModel>, node: TrieNode) -> bool {
    &&& es.len() == node.children@.len()
    &&& forall|i: int|
        0 <= i < es.len() ==> {
            &&& (#[trigger] es[i]).label == node.children@[i].term@.skip(node.prefix_len as int)
            &&& node.children@[i].term@.len() > node.prefix_len
        }
}

/// The pointers of the children `es`.
pub open spec fn pointers_of(es: Seq<EdgeModel>) -> Seq<u32> {
    Seq::new(es.len(), |i: int| es[i].pointer as u32)
}

/// The rows of the header of the record of `node` at offset `at`, the
/// pointers of the record, and the number of bytes that the record takes.
#[verifier::rlimit(50)]
fn edge_rows(node: &TrieNode, at: usize) -> (res: (Header, Vec<u32>, usize))
    requires
        node.wf(),
        at <= MAX_OUTPUT,
        1 <= node.children@.len() <= MAX_CHILDREN,
        forall|i: int|
            0 <= i < node.children@.len() ==> child_within(
                #[trigger] node@.children[i],
                node@.term.len(),
                at as nat,
            ) && node@.children[i].term.len() <= node@.term.len() + MAX_EDGE,
    ensures
        ({
            let es = edges_of(node@.children, node@.term.len(), at as nat);
            &&& res.0.wf()
            &&& res.0@ == rows_of(es)
            &&& res.1@ == pointers_of(es)
            &&& res.2 == header_len(es.len()) + sum_widths(widths_of(es)) + sum_tails(lens_of(es))
        }),
{
    let depth = node.prefix_len;
    let size = node.children.len();
    let ghost es = edges_of(node@.children, node@.term.len(), at as nat);
    let mut are_terminal: Vec<u32> = Vec::new();
    let mut firsts: Vec<u32> = Vec::new();
    let mut ptr_sizes: Vec<u32> = Vec::new();
    let mut term_lens: Vec<u32> = Vec::new();
    let mut ptrs: Vec<u32> = Vec::new();
    let mut table: usize = 0;
    let mut tails: usize = 0;
    let mut i: usize = 0;
    proof {
        assert(widths_of(es).take(0) =~= Seq::<u32>::empty());
        assert(lens_of(es).take(0) =~= Seq::<u32>::empty());
    }
    while i < size
        invariant
            i <= size == node.children@.len() <= MAX_CHILDREN,
            node.wf(),
            depth == node.prefix_len,
            at <= MAX_OUTPUT,
            es == edges_of(node@.children, node@.term.len(), at as nat),
            forall|i: int|
                0 <= i < node.children@.len() ==> child_within(
                    #[trigger] node@.children[i],
                    node@.term.len(),
                    at as nat,
                ) && node@.children[i].term.len() <= node@.term.len() + MAX_EDGE,
            are_terminal@ == flags_of(es).take(i as int),
            firsts@ == firsts_of(es).take(i as int),
            ptr_sizes@ == widths_of(es).take(i as int),
            term_lens@ == lens_of(es).take(i as int),
            ptrs@ == pointers_of(es).take(i as int),
            table == sum_widths(widths_of(es).take(i as int)),
            tails == sum_tails(lens_of(es).take(i as int)),
            table <= 4 * i,
            tails <= MAX_EDGE * i,
        decreases size - i,
    {
        let ch = &node.children[i];
        proof {
            assert(node@.children[i as int] == ch.as_child());
            assert(ch.prefix_len == ch.term@.len());
            crate::record::lemma_sum_widths_take(widths_of(es), i as int);
            crate::record::lemma_sum_tails_take(lens_of(es), i as int);
        }
        let len = ch.prefix_len - depth;
        let ptr: u32 = if ch.is_terminal {
            ch.term_id
        } else {
            (at - ch.ptr) as u32
        };
        let width = log2(ptr);
        are_terminal.push(if ch.is_terminal { 1 } else { 0 });
        firsts.push(ch.term[depth] as u32);
        ptr_sizes.push(width - 1);
        term_lens.push((len - 1) as u32);
        ptrs.push(ptr);
        table = table + width as usize;
        tails = tails + (len - 1);
        proof {
            assert(es[i as int] == edge_of(ch.as_child(), depth as nat, at as nat));
            assert(are_terminal@ =~= flags_of(es).take(i + 1));
            assert(firsts@ =~= firsts_of(es).take(i + 1));
            assert(ptr_sizes@ =~= widths_of(es).take(i + 1));
            assert(term_lens@ =~= lens_of(es).take(i + 1));
            assert(ptrs@ =~= pointers_of(es).take(i + 1));
        }
        i = i + 1;
    }
    proof {
        assert(flags_of(es).take(size as int) =~= flags_of(es));
        assert(firsts_of(es).take(size as int) =~= firsts_of(es));
        assert(widths_of(es).take(size as int) =~= widths_of(es));
        assert(lens_of(es).take(size as int) =~= lens_of(es));
        assert(pointers_of(es).take(size as int) =~= pointers_of(es));
    }
    let header = Header {
        are_terminal: are_terminal,
        firsts: firsts,
        ptr_sizes: ptr_sizes,
        term_lens: term_lens,
    };
    let total = (8 + 15 * size + 7) / 8 + table + tails;
    (header, ptrs, total)
}

/// The depths of the nodes of a path.
pub open spec fn depths_of(path: Seq<NodeModel>) -> Seq<nat> {
    Seq::new(path.len(), |i: int| path[i].term.len())
}

/// Builds a trie from keys that are added in ascending order.
///
/// The builder keeps the path from the root to the key added last. A node
/// leaves the path, and is written to the output, when a key arrives that does
/// not lie below it.
pub struct TrieBuilder {
    stack: Vec<TrieNode>,
    bytes: Vec<u8>,
    term_id: u32,
    failed: Option<BuildError>,
    groups: Groups,
    threshold: Option<u32>,
}

impl View for TrieBuilder {
    type V = BuilderModel;

    closed spec fn view(&self) -> BuilderModel {
        match self.failed {
            Some(e) => BuilderModel::Failed(e),
            None => BuilderModel::Open {
                stack: node_models(self.stack@),
                bytes: self.bytes@,
                count: self.term_id as nat,
            },
        }
    }
}

impl TrieBuilder {
    /// The bytes written so far.
    pub closed spec fn output(&self) -> Seq<u8> {
        self.bytes@
    }

    /// The nodes on the path to the key added last, from the root.
    pub closed spec fn path(&self) -> Seq<NodeModel> {
        node_models(self.stack@)
    }

    /// The number of keys added so far.
    pub closed spec fn issued(&self) -> nat {
        self.term_id as nat
    }

    /// Why the builder has failed, if it has.
    pub closed spec fn failure(&self) -> Option<BuildError> {
        self.failed
    }

    /// The groups made so far.
    pub closed spec fn grouping(&self) -> GroupsModel {
        self.groups@
    }

    /// The frequency above which a node makes a group of its own, where the
    /// builder makes groups.
    pub closed spec fn limit(&self) -> Option<u32> {
        self.threshold
    }

    /// What grouping reads of the nodes on the path.
    pub closed spec fn gathered_path(&self) -> Seq<Gathered> {
        all_gathered(self.stack@)
    }

    /// The state of the builder, put together from its parts: a builder that
    /// has failed holds its failure, another its path, its output and the
    /// number of its keys.
    pub open spec fn parts(&self) -> BuilderModel {
        match self.failure() {
            Some(e) => BuilderModel::Failed(e),
            None => BuilderModel::Open {
                stack: self.path(),
                bytes: self.output(),
                count: self.issued(),
            },
        }
    }

    /// The view of a builder is made of its parts.
    pub proof fn lemma_view(&self)
        ensures
            self@ == self.parts(),
    {
    }

    /// The builder holds a path, each node of which is as deep as its term is
    /// long, and an output within `MAX_OUTPUT`.
    pub closed spec fn rep(&self) -> bool {
        &&& self.stack@.len() >= 1
        &&& self.bytes@.len() <= MAX_OUTPUT
        &&& forall|k: int| 0 <= k < self.stack@.len() ==> (#[trigger] self.stack@[k]).wf()
    }

    /// The bytes written so far.
    pub fn bytes(&self) -> (out: &Vec<u8>)
        ensures
            out@ == self.output(),
    {
        &self.bytes
    }

    /// The index of the node on top of the stack.
    pub fn st_top(&self) -> (top: usize)
        requires
            self.rep(),
        ensures
            top == self.path().len() - 1,
    {
        self.stack.len() - 1
    }

    /// Appends the bytes of `x` to the output, most significant first and
    /// without leading zero bytes.
    pub fn write_min_bytes(&mut self, x: u32)
        requires
            old(self).rep(),
            old(self).output().len() + ptr_width(x as nat) <= MAX_OUTPUT,
        ensures
            final(self).rep(),
            final(self)@ == final(self).parts(),
            final(self).output() == old(self).output() + be_bytes(x as nat),
            final(self).path() == old(self).path(),
            final(self).issued() == old(self).issued(),
            final(self).failure() == old(self).failure(),
            final(self).grouping() == old(self).grouping(),
            final(self).limit() == old(self).limit(),
            final(self).gathered_path() == old(self).gathered_path(),
    {
        let mut x = x;
        let ghost whole = x as nat;
        let mut tmp: Vec<u8> = Vec::new();
        proof {
            assert(be_bytes(whole) =~= be_bytes(x as nat) + tmp@.reverse());
        }
        loop
            invariant_except_break
                be_bytes(whole) == be_bytes(x as nat) + tmp@.reverse(),
                tmp@.len() <= 3,
                tmp@.len() == 3 ==> x < 256,
                tmp@.len() == 2 ==> x <= 0xffff,
                tmp@.len() == 1 ==> x <= 0xffffff,
            ensures
                be_bytes(whole) == tmp@.reverse(),
                tmp@.len() <= 4,
            decreases 4 - tmp@.len(),
        {
            let byte = 0xff & x;
            let ghost rest = tmp@;
            proof {
                lemma_low_byte(x);
                assert(0xff & x == x & 0xff) by (bit_vector);
            }
            tmp.push(byte as u8);
            proof {
                assert(tmp@.reverse() =~= seq![byte as u8] + rest.reverse());
                if x >= 256 {
                    assert(be_bytes(x as nat) == be_bytes((x / 256) as nat).push(byte as u8));
                    assert(be_bytes(whole) =~= be_bytes((x / 256) as nat) + tmp@.reverse());
                } else {
                    assert(be_bytes(x as nat) == seq![byte as u8]);
                    assert(be_bytes(whole) =~= tmp@.reverse());
                }
            }
            x = x >> 8;
            if x == 0 {
                break ;
            }
        }
        proof {
            lemma_be_bytes_len(whole);
        }
        let ghost turned = tmp@.reverse();
        let mut i: usize = tmp.len();
        proof {
            assert(self.bytes@ =~= old(self).bytes@ + turned.take(0));
        }
        while i > 0
            invariant
                i <= tmp@.len() <= 4,
                turned == tmp@.reverse(),
                self.bytes@ == old(self).bytes@ + turned.take(tmp@.len() - i),
                self.stack == old(self).stack,
                self.term_id == old(self).term_id,
                self.failed == old(self).failed,
                self.groups == old(self).groups,
                self.threshold == old(self).threshold,
            decreases i,
        {
            i = i - 1;
            self.bytes.push(tmp[i]);
            proof {
                assert(self.bytes@ =~= old(self).bytes@ + turned.take(tmp@.len() - i));
            }
        }
        proof {
            assert(turned.take(tmp@.len() as int) =~= turned);
        }
    }

    /// Appends the pointers of a record to the output.
    fn write_pointers(&mut self, ptrs: &Vec<u32>, Ghost(es): Ghost<Seq<EdgeModel>>)
        requires
            old(self).rep(),
            edges_ok(es),
            ptrs@ == pointers_of(es),
            old(self).output().len() + pointer_table(es).len() <= MAX_OUTPUT,
        ensures
            final(self).rep(),
            final(self).output() == old(self).output() + pointer_table(es),
            final(self).path() == old(self).path(),
            final(self).issued() == old(self).issued(),
            final(self).failure() == old(self).failure(),
            final(self).grouping() == old(self).grouping(),
            final(self).limit() == old(self).limit(),
            final(self).gathered_path() == old(self).gathered_path(),
    {
        let mut i: usize = 0;
        proof {
            assert(es.take(0) =~= Seq::<EdgeModel>::empty());
            assert(self.bytes@ =~= old(self).bytes@ + pointer_table(es.take(0)));
        }
        while i < ptrs.len()
            invariant
                i <= ptrs@.len() == es.len(),
                self.rep(),
                edges_ok(es),
                ptrs@ == pointers_of(es),
                old(self).output().len() + pointer_table(es).len() <= MAX_OUTPUT,
                self.output() == old(self).output() + pointer_table(es.take(i as int)),
                self.path() == old(self).path(),
                self.issued() == old(self).issued(),
                self.failure() == old(self).failure(),
                self.grouping() == old(self).grouping(),
                self.limit() == old(self).limit(),
                self.gathered_path() == old(self).gathered_path(),
            decreases ptrs@.len() - i,
        {
            proof {
                crate::record::lemma_table_prefix(es, i + 1);
                assert(es.take(i + 1).drop_last() =~= es.take(i as int));
                assert(es.take(i + 1).last() == es[i as int]);
                lemma_be_bytes_len(es[i as int].pointer);
            }
            self.write_min_bytes(ptrs[i]);
            proof {
                assert(self.output() =~= old(self).output() + pointer_table(es.take(i + 1)));
            }
            i = i + 1;
        }
        proof {
            assert(es.take(i as int) =~= es);
        }
    }

    /// Appends to the output the label bytes of a record that its header
    /// does not hold: of each child of `node`, what its term adds to the
    /// term of `node`, but for the first byte.
    #[verifier::rlimit(50)]
    fn write_tails(&mut self, node: &TrieNode, Ghost(es): Ghost<Seq<EdgeModel>>)
        requires
            old(self).rep(),
            node.wf(),
            edges_ok(es),
            es.len() == node.children@.len(),
            labels_of(es, *node),
            old(self).output().len() + suffixes(es).len() <= MAX_OUTPUT,
        ensures
            final(self).rep(),
            final(self).output() == old(self).output() + suffixes(es),
            final(self).path() == old(self).path(),
            final(self).issued() == old(self).issued(),
            final(self).failure() == old(self).failure(),
            final(self).grouping() == old(self).grouping(),
            final(self).limit() == old(self).limit(),
            final(self).gathered_path() == old(self).gathered_path(),
    {
        let mut ba = BitWriter::new();
        let depth = node.prefix_len;
        let mut i: usize = 0;
        proof {
            assert(es.take(0) =~= Seq::<EdgeModel>::empty());
            assert(unpack(self.bytes@) + ba@ =~= unpack(old(self).bytes@ + suffixes(es.take(0))));
            lemma2_to64();
        }
        while i < node.children.len()
            invariant
                i <= node.children@.len() == es.len(),
                node.wf(),
                depth == node.prefix_len,
                edges_ok(es),
                labels_of(es, *node),
                ba.wf(),
                unpack(self.bytes@) + ba@ == unpack(old(self).bytes@ + suffixes(es.take(i as int))),
                self.stack == old(self).stack,
                self.term_id == old(self).term_id,
                self.failed == old(self).failed,
                self.groups == old(self).groups,
                self.threshold == old(self).threshold,
            decreases node.children@.len() - i,
        {
            let term = &node.children[i].term;
            let ghost label = es[i as int].label;
            let ghost before = old(self).bytes@ + suffixes(es.take(i as int));
            let mut j: usize = depth + 1;
            proof {
                assert(edges_ok(es));
                assert(crate::record::edge_ok(es[i as int]));
                assert(label.skip(1).take(0) =~= Seq::<u8>::empty());
                assert(before + label.skip(1).take(0) =~= before);
            }
            while j < term.len()
                invariant
                    depth + 1 <= j <= term@.len(),
                    label == term@.skip(depth as int),
                    label.len() >= 1,
                    ba.wf(),
                    unpack(self.bytes@) + ba@ == unpack(before + label.skip(1).take(j - depth - 1)),
                    self.stack == old(self).stack,
                    self.term_id == old(self).term_id,
                    self.failed == old(self).failed,
                    self.groups == old(self).groups,
                    self.threshold == old(self).threshold,
                decreases term@.len() - j,
            {
                let c = term[j];
                let ghost done = before + label.skip(1).take(j - depth - 1);
                proof {
                    lemma2_to64();
                }
                ba.write(&mut self.bytes, CHAR_BITS, c as u32);
                proof {
                    lemma_unpack_one(c);
                    lemma_unpack_add(done, seq![c]);
                    assert(done + seq![c] =~= before + label.skip(1).take(j + 1 - depth - 1));
                }
                j = j + 1;
            }
            proof {
                assert(label.skip(1).take(j - depth - 1) =~= label.skip(1));
                assert(es.take(i + 1).drop_last() =~= es.take(i as int));
                assert(es.take(i + 1).last() == es[i as int]);
                assert(before + label.skip(1) =~= old(self).bytes@ + suffixes(es.take(i + 1)));
            }
            i = i + 1;
        }
        proof {
            assert(es.take(i as int) =~= es);
            let whole = old(self).bytes@ + suffixes(es);
            assert(unpack(self.bytes@) + ba@ =~= unpack(whole) + Seq::<bool>::empty());
            lemma_stream_close(whole, Seq::<bool>::empty(), self.bytes@, ba@);
            assert(pad8(Seq::<bool>::empty()) =~= Seq::<bool>::empty());
            crate::bits::lemma_pack_len(Seq::<bool>::empty());
            assert(crate::bits::pack(Seq::<bool>::empty()) =~= Seq::<u8>::empty());
            assert(whole + crate::bits::pack(pad8(Seq::<bool>::empty())) =~= whole);
        }
        ba.close(&mut self.bytes);
    }

    /// Makes the edges from `node` to its children at most `maxlen` bytes
    /// long.
    ///
    /// A child that lies deeper gives way to a node with that child alone,
    /// `maxlen` bytes below `node`, which is written out at once. Fails where
    /// the output would outgrow `MAX_OUTPUT`.
    #[verifier::rlimit(50)]
    pub fn phantomize_children(&mut self, node: &mut TrieNode, maxlen: usize) -> (res: Result<
        (),
        BuildError,
    >)
        requires
            old(self).rep(),
            old(self).failure() is None,
            old(node).wf(),
            1 <= maxlen <= MAX_EDGE,
            forall|i: int|
                0 <= i < old(node)@.children.len() ==> child_fits(
                    #[trigger] old(node)@.children[i],
                    old(node)@.term.len(),
                    old(self).output(),
                ),
        ensures
            final(self).rep(),
            final(self)@ == final(self).parts(),
            final(self).path() == old(self).path(),
            final(self).issued() == old(self).issued(),
            final(self).grouping() == old(self).grouping(),
            final(self).limit() == old(self).limit(),
            final(self).gathered_path() == old(self).gathered_path(),
            final(node).frequency == old(node).frequency,
            final(node).children_not_yet_tagged == old(node).children_not_yet_tagged,
            final(node).wf(),
            final(node).term == old(node).term,
            final(node).prefix_len == old(node).prefix_len,
            final(node).is_terminal == old(node).is_terminal,
            final(node).term_id == old(node).term_id,
            final(node).ptr == old(node).ptr,
            match res {
                Ok(_) => {
                    &&& final(self).failure() is None
                    &&& shorten_all(
                        old(self).output(),
                        old(node)@.term.len(),
                        old(node)@.children,
                        maxlen as nat,
                    ) == Some((final(self).output(), final(node)@.children))
                },
                Err(e) => {
                    &&& e == BuildError::FieldOverflow
                    &&& final(self).failure() == Some(BuildError::FieldOverflow)
                    &&& shorten_all(
                        old(self).output(),
                        old(node)@.term.len(),
                        old(node)@.children,
                        maxlen as nat,
                    ) is None
                },
            },
        decreases deepest(old(node)@.children) - old(node).prefix_len, 0nat,
    {
        let depth = node.prefix_len;
        let ghost orig = node@.children;
        let ghost start = self.bytes@;
        let mut i: usize = 0;
        proof {
            assert(orig.take(0) =~= Seq::<ChildModel>::empty());
            assert(node@.children.take(0) =~= Seq::<ChildModel>::empty());
            assert(start.take(start.len() as int) =~= start);
            assert(node@.children.skip(0) =~= orig.skip(0));
        }
        while i < node.children.len()
            invariant
                i <= node.children@.len() == orig.len(),
                1 <= maxlen <= MAX_EDGE,
                self.rep(),
                self.failed is None,
                self.path() == old(self).path(),
                self.issued() == old(self).issued(),
                self.grouping() == old(self).grouping(),
                self.limit() == old(self).limit(),
                self.gathered_path() == old(self).gathered_path(),
                node.frequency == old(node).frequency,
                node.children_not_yet_tagged == old(node).children_not_yet_tagged,
                node.wf(),
                node.term == old(node).term,
                node.prefix_len == old(node).prefix_len,
                node.is_terminal == old(node).is_terminal,
                node.term_id == old(node).term_id,
                node.ptr == old(node).ptr,
                depth == node.prefix_len,
                orig == old(node)@.children,
                start == old(self).bytes@,
                start.len() <= MAX_OUTPUT,
                grows(start, self.bytes@),
                forall|k: int|
                    0 <= k < orig.len() ==> child_fits(#[trigger] orig[k], depth as nat, start),
                shorten_all(start, depth as nat, orig.take(i as int), maxlen as nat) == Some(
                    (self.bytes@, node@.children.take(i as int)),
                ),
                node@.children.skip(i as int) == orig.skip(i as int),
            decreases node.children@.len() - i,
        {
            let ghost before = self.bytes@;
            let ghost done = node@.children.take(i as int);
            let ghost c = orig[i as int];
            proof {
                assert(node@.children[i as int] == node@.children.skip(i as int)[0]);
                assert(c == node.children@[i as int].as_child());
                assert(orig.take(i + 1).drop_last() =~= orig.take(i as int));
                assert(orig.take(i + 1).last() == c);
                lemma_child_fits_grows(c, depth as nat, start, before);
                lemma_shorten(before, depth as nat, c, maxlen as nat);
                lemma_deepest(orig, i as int);
            }
            if node.children[i].prefix_len - depth > maxlen {
                let cut = depth + maxlen;
                let term = slice_to_vec(slice_subrange(node.children[i].term.as_slice(), 0, cut));
                let mut phantom = TrieNode::new(cut, 1338, term, false);
                let mut taken = TrieNode::new(0, 0, Vec::new(), false);
                node.children.set_and_swap(i, &mut taken);
                phantom.children.push(taken);
                proof {
                    assert(phantom@.children =~= seq![c]);
                    assert(deepest(seq![c]) == c.term.len()) by {
                        reveal_with_fuel(deepest, 2);
                        assert(seq![c].drop_last() =~= Seq::<ChildModel>::empty());
                    }
                    lemma_complete_only(before, phantom@, c);
                }
                match self.flush_children(&mut phantom) {
                    Err(e) => {
                        proof {
                            lemma_shorten_all_fails(
                                start,
                                depth as nat,
                                orig,
                                maxlen as nat,
                                i + 1,
                            );
                        }
                        return Err(e);
                    },
                    Ok(_) => {},
                }
                node.children.set(i, phantom);
            }
            proof {
                let now = node@.children;
                assert(now.take(i + 1) =~= done.push(now[i as int]));
                let tail = now.skip(i + 1);
                assert(tail =~= orig.skip(i + 1)) by {
                    assert forall|k: int| 0 <= k < orig.len() - i - 1 implies #[trigger] tail[k]
                        == orig.skip(i + 1)[k] by {
                        assert(orig.skip(i as int)[k + 1] == orig[i + 1 + k]);
                    }
                }
                assert(self.bytes@.take(start.len() as int) =~= before.take(start.len() as int));
            }
            i = i + 1;
        }
        proof {
            assert(orig.take(i as int) =~= orig);
            assert(node@.children.take(i as int) =~= node@.children);
        }
        Ok(())
    }

    /// Writes out `node`, whose children are complete: its edges are made
    /// at most `MAX_EDGE` bytes long, then its record follows, with the
    /// header first, the pointers next and the rest of the labels last. The
    /// node has the offset of its record afterwards, and its children are
    /// gone. A key is left as it is, and so is the output: a key has no
    /// record.
    ///
    /// Fails where the output would outgrow `MAX_OUTPUT`.
    #[verifier::rlimit(50)]
    pub fn flush_children(&mut self, node: &mut TrieNode) -> (res: Result<(), BuildError>)
        requires
            old(self).rep(),
            old(self).failure() is None,
            old(node).wf(),
            !old(node).is_terminal ==> flushable(old(node)@, old(self).output()),
        ensures
            final(self).rep(),
            final(self)@ == final(self).parts(),
            final(self).path() == old(self).path(),
            final(self).issued() == old(self).issued(),
            final(self).grouping() == old(self).grouping(),
            final(self).limit() == old(self).limit(),
            final(self).gathered_path() == old(self).gathered_path(),
            final(node).frequency == old(node).frequency,
            final(node).children_not_yet_tagged == old(node).children_not_yet_tagged,
            final(node).wf(),
            final(node).term == old(node).term,
            final(node).prefix_len == old(node).prefix_len,
            final(node).is_terminal == old(node).is_terminal,
            final(node).term_id == old(node).term_id,
            old(node).is_terminal ==> final(node).ptr == old(node).ptr && final(node).children == old(
                node,
            ).children && final(self).output() == old(self).output(),
            !old(node).is_terminal && res is Ok ==> final(node).children@.len() == 0,
            match res {
                Ok(_) => {
                    &&& final(self).failure() is None
                    &&& complete(old(self).output(), old(node)@) == Some(
                        (final(self).output(), final(node).as_child()),
                    )
                },
                Err(e) => {
                    &&& e == BuildError::FieldOverflow
                    &&& final(self).failure() == Some(BuildError::FieldOverflow)
                    &&& complete(old(self).output(), old(node)@) is None
                },
            },
        decreases deepest(old(node)@.children) - old(node).prefix_len, 1nat,
    {
        if node.is_terminal {
            return Ok(());
        }
        let ghost start = self.bytes@;
        let ghost given = node@.children;
        let ghost depth = node@.term.len();
        proof {
            lemma_shorten_all(start, depth, given, MAX_EDGE as nat);
        }
        match self.phantomize_children(node, MAX_EDGE) {
            Err(e) => {
                return Err(e);
            },
            Ok(_) => {},
        }
        let at = self.bytes.len();
        node.ptr = at;
        let ghost below = self.bytes@;
        let ghost es = edges_of(node@.children, depth, at as nat);
        proof {
            assert forall|i: int| 0 <= i < node.children@.len() implies child_within(
                #[trigger] node@.children[i],
                node@.term.len(),
                at as nat,
            ) && node@.children[i].term.len() <= node@.term.len() + MAX_EDGE by {
                assert(child_fits(node@.children[i], depth, below));
            }
            lemma_edges_of_ok(node@.children, depth, below);
            lemma_record_len(es);
            lemma_table_len(es);
            lemma_suffix_len(es);
            lemma_header_bits_len(es);
        }
        let (header, ptrs, total) = edge_rows(node, at);
        if total > MAX_OUTPUT - at {
            self.failed = Some(BuildError::FieldOverflow);
            return Err(BuildError::FieldOverflow);
        }
        write_header(&mut self.bytes, &header);
        self.write_pointers(&ptrs, Ghost(es));
        proof {
            assert forall|i: int| 0 <= i < es.len() implies {
                &&& (#[trigger] es[i]).label == node.children@[i].term@.skip(node.prefix_len as int)
                &&& node.children@[i].term@.len() > node.prefix_len
            } by {
                assert(node@.children[i] == node.children@[i].as_child());
                assert(child_fits(node@.children[i], depth, below));
            }
            assert(labels_of(es, *node));
        }
        self.write_tails(node, Ghost(es));
        node.children = Vec::new();
        proof {
            assert(self.bytes@ =~= below + record_bytes(es));
        }
        Ok(())
    }

    /// The builder is as it is between two keys.
    pub open spec fn wf(&self) -> bool {
        &&& self.rep()
        &&& inv(self@)
    }

    /// The keys added so far, with their term ids.
    pub open spec fn keys(&self) -> Seq<TerminalModel> {
        keys_of(self@)
    }

    /// A builder without keys.
    pub fn new() -> (b: TrieBuilder)
        ensures
            b.wf(),
            b@ == start(),
            b@ == b.parts(),
            b.output() == Seq::<u8>::empty(),
            b.path() == seq![fork_node(Seq::empty())],
            b.issued() == 0,
            b.failure() is None,
            b.keys() == Seq::<TerminalModel>::empty(),
            b.limit() is None,
            b.grouping() == (GroupsModel { map: seq![0u16], id: 0, failed: false }),
            b.gathered_path() == seq![fork_gathered()],
    {
        let mut stack: Vec<TrieNode> = Vec::new();
        stack.push(TrieNode::new(0, 0, Vec::new(), false));
        let b = TrieBuilder {
            stack: stack,
            bytes: Vec::new(),
            term_id: 0,
            failed: None,
            groups: Groups::new(0),
            threshold: None,
        };
        proof {
            assert(b.stack@[0]@.children =~= Seq::<ChildModel>::empty());
            assert(node_models(b.stack@) =~= seq![fork_node(Seq::empty())]);
            assert(b.bytes@ =~= Seq::<u8>::empty());
            assert(b.groups@.map =~= seq![0u16]);
            assert(b.stack@[0].children_not_yet_tagged@ =~= Seq::<(u32, u32)>::empty());
            assert(all_tagged(b.stack@[0].children@) =~= Seq::<Tagged>::empty());
            assert(all_gathered(b.stack@) =~= seq![fork_gathered()]);
        }
        b
    }

    /// A builder without keys that makes groups: `num_groups` groups are
    /// wanted for `num_words` keys that occur `num_occurrences` times in all,
    /// so that a node makes a group of its own where it occurs more often than
    /// `num_occurrences / num_groups` times, cut to 32 bits.
    pub fn with_groups(num_groups: usize, num_words: usize, num_occurrences: usize) -> (b:
        TrieBuilder)
        requires
            num_groups > 0,
            num_words < usize::MAX,
        ensures
            b.wf(),
            b@ == start(),
            b@ == b.parts(),
            b.output() == Seq::<u8>::empty(),
            b.path() == seq![fork_node(Seq::empty())],
            b.issued() == 0,
            b.failure() is None,
            b.keys() == Seq::<TerminalModel>::empty(),
            b.limit() == Some((num_occurrences / num_groups) as u32),
            b.grouping() == (GroupsModel {
                map: Seq::new((num_words + 1) as nat, |i: int| 0u16),
                id: 0,
                failed: false,
            }),
            b.gathered_path() == seq![fork_gathered()],
    {
        let per_group = num_occurrences / num_groups;
        let threshold = #[verifier::truncate] (per_group as u32);
        let mut stack: Vec<TrieNode> = Vec::new();
        stack.push(TrieNode::new(0, 0, Vec::new(), false));
        let b = TrieBuilder {
            stack: stack,
            bytes: Vec::new(),
            term_id: 0,
            failed: None,
            groups: Groups::new(num_words),
            threshold: Some(threshold),
        };
        proof {
            assert(b.stack@[0]@.children =~= Seq::<ChildModel>::empty());
            assert(node_models(b.stack@) =~= seq![fork_node(Seq::empty())]);
            assert(b.bytes@ =~= Seq::<u8>::empty());
            assert(b.stack@[0].children_not_yet_tagged@ =~= Seq::<(u32, u32)>::empty());
            assert(all_tagged(b.stack@[0].children@) =~= Seq::<Tagged>::empty());
            assert(all_gathered(b.stack@) =~= seq![fork_gathered()]);
        }
        b
    }

    /// Goes through the children of `node`, which are complete: a child
    /// that occurs more often than `threshold` makes a group of its own; of
    /// the others the frequencies are added to that of `node`, and their keys
    /// without a group join those of `node`. The trie is left as it is.
    pub fn assign_group(&mut self, node: &mut TrieNode, threshold: u32)
        ensures
            ({
                let went = assign(
                    old(self).grouping(),
                    old(node).children_not_yet_tagged@,
                    all_tagged(old(node).children@),
                    threshold,
                );
                let total = old(node).frequency + went.1;
                &&& final(self).grouping() == (GroupsModel {
                    failed: went.0.failed || total > u32::MAX,
                    ..went.0
                })
                &&& final(node).frequency == if total > u32::MAX {
                    u32::MAX as int
                } else {
                    total
                }
                &&& final(node).children_not_yet_tagged@ == went.2
            }),
            final(node).prefix_len == old(node).prefix_len,
            final(node).term_id == old(node).term_id,
            final(node).term == old(node).term,
            final(node).ptr == old(node).ptr,
            final(node).is_terminal == old(node).is_terminal,
            final(node).children@.len() == old(node).children@.len(),
            forall|i: int|
                0 <= i < old(node).children@.len() ==> {
                    let before = #[trigger] old(node).children@[i];
                    let after = final(node).children@[i];
                    &&& tagged(after) == left_as(tagged(before), threshold)
                    &&& after.prefix_len == before.prefix_len
                    &&& after.term == before.term
                    &&& after.ptr == before.ptr
                    &&& after.children == before.children
                },
            final(self)@ == old(self)@,
            final(self).rep() == old(self).rep(),
            final(self).output() == old(self).output(),
            final(self).path() == old(self).path(),
            final(self).gathered_path() == old(self).gathered_path(),
            final(self).issued() == old(self).issued(),
            final(self).failure() == old(self).failure(),
            final(self).limit() == old(self).limit(),
    {
        self.groups.assign_group(node, threshold);
    }

    /// Makes a group of `node`, where it is a key, and of the keys below it
    /// that are in no group yet. The trie is left as it is.
    pub fn create_group(&mut self, node: &mut TrieNode)
        ensures
            final(self).grouping() == group_of(old(self).grouping(), tagged(*old(node))),
            final(node).children_not_yet_tagged@ == Seq::<(u32, u32)>::empty(),
            final(node).prefix_len == old(node).prefix_len,
            final(node).term_id == old(node).term_id,
            final(node).term == old(node).term,
            final(node).ptr == old(node).ptr,
            final(node).is_terminal == old(node).is_terminal,
            final(node).frequency == old(node).frequency,
            final(node).children == old(node).children,
            final(self)@ == old(self)@,
            final(self).rep() == old(self).rep(),
            final(self).output() == old(self).output(),
            final(self).path() == old(self).path(),
            final(self).gathered_path() == old(self).gathered_path(),
            final(self).issued() == old(self).issued(),
            final(self).failure() == old(self).failure(),
            final(self).limit() == old(self).limit(),
    {
        self.groups.create_group(node);
    }

    /// Goes through the children of `node` for groups, where the builder
    /// makes groups.
    fn group_children(&mut self, node: &mut TrieNode)
        ensures
            final(self)@ == old(self)@,
            final(self).rep() == old(self).rep(),
            final(self).output() == old(self).output(),
            final(self).path() == old(self).path(),
            final(self).gathered_path() == old(self).gathered_path(),
            final(self).issued() == old(self).issued(),
            final(self).failure() == old(self).failure(),
            final(self).limit() == old(self).limit(),
            old(self).limit() is None ==> final(self).grouping() == old(self).grouping(),
            final(node)@ == old(node)@,
            final(node).wf() == old(node).wf(),
            final(node).as_child() == old(node).as_child(),
            (final(self).grouping(), tagged(*final(node))) == leave_grouped(
                old(self).grouping(),
                tagged(*old(node)),
                all_tagged(old(node).children@),
                old(self).limit(),
            ),
    {
        match self.threshold {
            Some(threshold) => {
                self.assign_group(node, threshold);
                proof {
                    assert forall|i: int| 0 <= i < node.children@.len() implies {
                        &&& (#[trigger] node.children@[i]).prefix_len == old(
                            node,
                        ).children@[i].prefix_len
                        &&& node.children@[i].term == old(node).children@[i].term
                        &&& node.children@[i].as_child() == old(node).children@[i].as_child()
                    } by {
                        let before = old(node).children@[i];
                        assert(tagged(node.children@[i]) == left_as(tagged(before), threshold));
                    }
                    assert(node@.children =~= old(node)@.children);
                }
            },
            None => {},
        }
    }

    /// Gives up: the builder fails with `e` and stays failed.
    fn fail(&mut self, e: BuildError)
        requires
            old(self).rep(),
        ensures
            final(self).rep(),
            final(self)@ == BuilderModel::Failed(e),
            final(self).failure() == Some(e),
            final(self).limit() == old(self).limit(),
            final(self).grouping() == old(self).grouping(),
            final(self).gathered_path() == old(self).gathered_path(),
    {
        self.failed = Some(e);
    }

    /// Lets the node on top of the stack leave it: the node takes `flushed`
    /// as its last child and is written out. Returns that node.
    fn leave_one(&mut self, flushed: TrieNode) -> (res: Result<TrieNode, BuildError>)
        requires
            old(self).rep(),
            old(self).failure() is None,
            old(self).path().len() >= 2,
            flushed.wf(),
            !old(self).path().last().is_terminal,
            flushable(old(self).path().last().with_child(flushed.as_child()), old(self).output()),
        ensures
            final(self).rep(),
            final(self).issued() == old(self).issued(),
            final(self).limit() == old(self).limit(),
            old(self).limit() is None ==> final(self).grouping() == old(self).grouping(),
            match res {
                Ok(parent) => {
                    &&& final(self).failure() is None
                    &&& parent.wf()
                    &&& final(self).path() == old(self).path().drop_last()
                    &&& final(self).gathered_path() == old(self).gathered_path().drop_last()
                    &&& (final(self).grouping(), tagged(parent)) == leave_grouped(
                        old(self).grouping(),
                        old(self).gathered_path().last().own,
                        old(self).gathered_path().last().kids.push(tagged(flushed)),
                        old(self).limit(),
                    )
                    &&& complete(
                        old(self).output(),
                        old(self).path().last().with_child(flushed.as_child()),
                    ) == Some((final(self).output(), parent.as_child()))
                },
                Err(e) => {
                    &&& e == BuildError::FieldOverflow
                    &&& final(self).failure() == Some(BuildError::FieldOverflow)
                    &&& complete(
                        old(self).output(),
                        old(self).path().last().with_child(flushed.as_child()),
                    ) is None
                },
            },
    {
        let ghost path = self.path();
        let ghost child = flushed.as_child();
        let ghost held = self.gathered_path();
        let mut parent = self.stack.pop().unwrap();
        proof {
            assert(self.path() =~= path.drop_last());
            assert(parent@ == path.last());
            assert(self.gathered_path() =~= held.drop_last());
            assert(gathered(parent) == held.last());
        }
        parent.children.push(flushed);
        proof {
            assert(parent@.children =~= path.last().children.push(child));
            assert(parent@ == path.last().with_child(child));
            assert(all_tagged(parent.children@) =~= held.last().kids.push(tagged(flushed)));
        }
        self.group_children(&mut parent);
        match self.flush_children(&mut parent) {
            Err(e) => Err(e),
            Ok(_) => Ok(parent),
        }
    }

    /// Writes out the root, which is alone on the stack, with `flushed` as
    /// its last child. Returns the offset of its record.
    fn leave_root(&mut self, flushed: TrieNode) -> (res: Result<usize, BuildError>)
        requires
            old(self).rep(),
            old(self).failure() is None,
            flushed.wf(),
            !old(self).path().last().is_terminal,
            flushable(old(self).path().last().with_child(flushed.as_child()), old(self).output()),
        ensures
            final(self).rep(),
            final(self).limit() == old(self).limit(),
            old(self).limit() is None ==> final(self).grouping() == old(self).grouping(),
            match res {
                Ok(at) => {
                    &&& final(self).failure() is None
                    &&& final(self).grouping() == root_grouped(
                        old(self).grouping(),
                        old(self).gathered_path().last(),
                        tagged(flushed),
                        old(self).limit(),
                    )
                    &&& flush(
                        old(self).output(),
                        old(self).path().last().with_child(flushed.as_child()),
                    ) == Some((final(self).output(), at as nat))
                },
                Err(e) => {
                    &&& e == BuildError::FieldOverflow
                    &&& final(self).failure() == Some(BuildError::FieldOverflow)
                    &&& flush(
                        old(self).output(),
                        old(self).path().last().with_child(flushed.as_child()),
                    ) is None
                },
            },
    {
        let ghost path = self.path();
        let ghost child = flushed.as_child();
        let ghost held = self.gathered_path();
        let top = self.st_top();
        let mut root = TrieNode::new(0, 0, Vec::new(), false);
        self.stack.set_and_swap(top, &mut root);
        proof {
            assert(root@ == path.last());
            assert(gathered(root) == held.last());
        }
        root.children.push(flushed);
        proof {
            assert(root@.children =~= path.last().children.push(child));
            assert(root@ == path.last().with_child(child));
            assert(all_tagged(root.children@) =~= held.last().kids.push(tagged(flushed)));
        }
        self.group_children(&mut root);
        match self.flush_children(&mut root) {
            Err(e) => Err(e),
            Ok(_) => {
                match self.threshold {
                    Some(_) => {
                        self.create_group(&mut root);
                    },
                    None => {},
                }
                Ok(root.ptr)
            },
        }
    }

    /// Lets the nodes leave the stack that lie deeper than `depth`, from the
    /// top: each takes the node that left before it as its last child and is
    /// written out. Returns the node that left last.
    #[verifier::rlimit(50)]
    fn leave_above(&mut self, flushed: TrieNode, depth: usize, Ghost(last): Ghost<Seq<u8>>) -> (res:
        Result<TrieNode, BuildError>)
        requires
            old(self).rep(),
            old(self).failure() is None,
            flushed.wf(),
            pending(
                old(self).path(),
                old(self).output(),
                flushed.as_child(),
                last,
                old(self).issued(),
            ),
        ensures
            final(self).rep(),
            final(self).issued() == old(self).issued(),
            final(self).limit() == old(self).limit(),
            old(self).limit() is None ==> final(self).grouping() == old(self).grouping(),
            match res {
                Ok(parent) => {
                    &&& final(self).failure() is None
                    &&& parent.wf()
                    &&& close_above(
                        old(self).path(),
                        old(self).output(),
                        flushed.as_child(),
                        depth as nat,
                    ) == Some((final(self).path(), final(self).output(), parent.as_child()))
                    &&& close_grouped(
                        old(self).gathered_path(),
                        depths_of(old(self).path()),
                        old(self).grouping(),
                        tagged(flushed),
                        depth as nat,
                        old(self).limit(),
                    ) == (
                        final(self).gathered_path(),
                        depths_of(final(self).path()),
                        final(self).grouping(),
                        tagged(parent),
                    )
                },
                Err(e) => {
                    &&& e == BuildError::FieldOverflow
                    &&& final(self).failure() == Some(BuildError::FieldOverflow)
                    &&& close_above(
                        old(self).path(),
                        old(self).output(),
                        flushed.as_child(),
                        depth as nat,
                    ) is None
                },
            },
    {
        let mut leaving = flushed;
        let ghost count = self.issued();
        let ghost whole = close_above(self.path(), self.output(), flushed.as_child(), depth as nat);
        let ghost grouped = close_grouped(
            self.gathered_path(),
            depths_of(self.path()),
            self.grouping(),
            tagged(flushed),
            depth as nat,
            self.limit(),
        );
        while depth < self.stack[self.st_top()].prefix_len
            invariant
                self.rep(),
                self.failed is None,
                self.issued() == count,
                count == old(self).issued(),
                self.limit() == old(self).limit(),
                old(self).limit() is None ==> self.grouping() == old(self).grouping(),
                leaving.wf(),
                pending(self.path(), self.output(), leaving.as_child(), last, count),
                whole == close_above(self.path(), self.output(), leaving.as_child(), depth as nat),
                grouped == close_grouped(
                    self.gathered_path(),
                    depths_of(self.path()),
                    self.grouping(),
                    tagged(leaving),
                    depth as nat,
                    self.limit(),
                ),
                grouped == close_grouped(
                    old(self).gathered_path(),
                    depths_of(old(self).path()),
                    old(self).grouping(),
                    tagged(flushed),
                    depth as nat,
                    old(self).limit(),
                ),
                whole == close_above(
                    old(self).path(),
                    old(self).output(),
                    flushed.as_child(),
                    depth as nat,
                ),
            decreases self.stack@.len(),
        {
            let ghost path = self.path();
            let ghost bytes = self.output();
            let ghost child = leaving.as_child();
            proof {
                lemma_leave(path, bytes, child, last, count);
                assert(path.last() == self.stack@[self.stack@.len() - 1]@);
                assert(path.last().term.len() > depth);
                assert(whole == match complete(bytes, path.last().with_child(child)) {
                    None => None,
                    Some((after, parent)) => close_above(
                        path.drop_last(),
                        after,
                        parent,
                        depth as nat,
                    ),
                });
                assert(depths_of(path).last() == path.last().term.len());
                assert(depths_of(path).drop_last() =~= depths_of(path.drop_last()));
                assert(self.gathered_path().len() == path.len());
            }
            leaving = match self.leave_one(leaving) {
                Err(e) => {
                    return Err(e);
                },
                Ok(parent) => parent,
            };
        }
        proof {
            assert(self.path().last() == self.stack@[self.stack@.len() - 1]@);
            assert(depths_of(self.path()).last() == self.path().last().term.len());
        }
        Ok(leaving)
    }

    /// Adds `word`, which is not empty, is larger than the key added before
    /// it, and is no prefix of that key nor that key one of it. Returns the
    /// term id of `word`: the number of keys added so far.
    ///
    /// The nodes of the key before that do not lie on the way to `word` leave
    /// the stack and are written out. The builder fails, and stays failed,
    /// where `word` cannot follow the key before it, where it would be key
    /// number `2^32`, and where the output would outgrow `MAX_OUTPUT`.
    pub fn add(&mut self, word: Vec<u8>) -> (res: Result<u32, BuildError>)
        requires
            old(self).wf(),
        ensures
            final(self).wf(),
            final(self)@ == add_step(old(self)@, word@).0,
            final(self)@ == final(self).parts(),
            final(self).limit() == old(self).limit(),
            old(self).limit() is None ==> final(self).grouping() == old(self).grouping(),
            match res {
                Ok(id) => {
                    &&& add_step(old(self)@, word@).1 == Ok::<nat, BuildError>(id as nat)
                    &&& id == old(self).keys().len() + 1
                    &&& final(self).keys() == old(self).keys().push(
                        TerminalModel { key: word@, term_id: id as nat },
                    )
                    &&& (final(self).gathered_path(), final(self).grouping()) == add_grouped(
                        old(self).gathered_path(),
                        depths_of(old(self).path()),
                        old(self).grouping(),
                        old(self).limit(),
                        common_prefix(word@, old(self).path().last().term),
                        id,
                        0,
                    )
                },
                Err(e) => {
                    &&& add_step(old(self)@, word@).1 == Err::<nat, BuildError>(e)
                    &&& final(self)@ == BuilderModel::Failed(e)
                },
            },
    {
        self.add_with_frequency(word, 0)
    }

    /// Adds `word` as `add` does, and notes that it occurs `frequency`
    /// times. A builder that makes groups goes by the frequencies: of every
    /// node that leaves the stack the children are gone through, so that those
    /// that occur often make groups of their own and the others are gathered
    /// in the node.
    #[verifier::rlimit(50)]
    pub fn add_with_frequency(&mut self, word: Vec<u8>, frequency: u32) -> (res: Result<
        u32,
        BuildError,
    >)
        requires
            old(self).wf(),
        ensures
            final(self).wf(),
            final(self)@ == add_step(old(self)@, word@).0,
            final(self)@ == final(self).parts(),
            final(self).limit() == old(self).limit(),
            old(self).limit() is None ==> final(self).grouping() == old(self).grouping(),
            match res {
                Ok(id) => {
                    &&& add_step(old(self)@, word@).1 == Ok::<nat, BuildError>(id as nat)
                    &&& id == old(self).keys().len() + 1
                    &&& final(self).keys() == old(self).keys().push(
                        TerminalModel { key: word@, term_id: id as nat },
                    )
                    &&& (final(self).gathered_path(), final(self).grouping()) == add_grouped(
                        old(self).gathered_path(),
                        depths_of(old(self).path()),
                        old(self).grouping(),
                        old(self).limit(),
                        common_prefix(word@, old(self).path().last().term),
                        id,
                        frequency,
                    )
                },
                Err(e) => {
                    &&& add_step(old(self)@, word@).1 == Err::<nat, BuildError>(e)
                    &&& final(self)@ == BuilderModel::Failed(e)
                },
            },
    {
        proof {
            lemma_add_step(self@, word@);
        }
        match self.failed {
            Some(e) => {
                return Err(e);
            },
            None => {},
        }
        let ghost path = self.path();
        let ghost bytes = self.output();
        let ghost count = self.issued();
        let ghost held = self.gathered_path();
        let ghost depths = depths_of(path);
        let l = self.st_top();
        proof {
            assert(path.last() == self.stack@[l as int]@);
            assert(depths.last() == path.last().term.len());
        }
        let prefix_len = common_prefix_len(word.as_slice(), self.stack[l].term.as_slice());
        let last_len = self.stack[l].term.len();
        let ghost last = self.stack@[l as int].term@;
        if word.len() == 0 {
            self.fail(BuildError::PrefixKey);
            return Err(BuildError::PrefixKey);
        }
        if self.term_id > 0 {
            if prefix_len == last_len || prefix_len == word.len() {
                self.fail(BuildError::PrefixKey);
                return Err(BuildError::PrefixKey);
            }
            if word[prefix_len] < self.stack[l].term[prefix_len] {
                self.fail(BuildError::OutOfOrderKey);
                return Err(BuildError::OutOfOrderKey);
            }
        }
        if self.term_id == u32::MAX {
            self.fail(BuildError::FieldOverflow);
            return Err(BuildError::FieldOverflow);
        }
        proof {
            assert(key_error(last_key(path, count), word@) is None);
        }
        if prefix_len < last_len {
            let flushed = self.stack.pop().unwrap();
            proof {
                assert(self.path() =~= path.drop_last());
                assert(flushed@ == path.last());
                assert(flushed.as_child() == path.last().as_child());
                assert(self.gathered_path() =~= held.drop_last());
                assert(tagged(flushed) == held.last().own);
                assert(depths_of(self.path()) =~= depths.drop_last());
                lemma_close_above(
                    path.drop_last(),
                    bytes,
                    flushed.as_child(),
                    last,
                    count,
                    prefix_len as nat,
                );
            }
            let parent = match self.leave_above(flushed, prefix_len, Ghost(last)) {
                Err(e) => {
                    return Err(e);
                },
                Ok(node) => node,
            };
            let ghost left = self.path();
            let ghost left_held = self.gathered_path();
            let top = self.st_top();
            proof {
                assert(left.last() == self.stack@[top as int]@);
                assert(depths_of(left).last() == left.last().term.len());
            }
            if prefix_len > self.stack[top].prefix_len {
                let term = slice_to_vec(slice_subrange(word.as_slice(), 0, prefix_len));
                self.stack.push(TrieNode::new(prefix_len, 0, term, false));
                proof {
                    let fork = self.stack@[self.stack@.len() - 1];
                    assert(fork@.children =~= Seq::<ChildModel>::empty());
                    assert(self.path() =~= left.push(fork_node(word@.take(prefix_len as int))));
                    assert(fork.children_not_yet_tagged@ =~= Seq::<(u32, u32)>::empty());
                    assert(all_tagged(fork.children@) =~= Seq::<Tagged>::empty());
                    assert(self.gathered_path() =~= left_held.push(fork_gathered()));
                }
            }
            let ghost forked = self.path();
            let ghost forked_held = self.gathered_path();
            let mut host = self.stack.pop().unwrap();
            proof {
                assert(self.path() =~= forked.drop_last());
                assert(host@ == forked.last());
                assert(self.gathered_path() =~= forked_held.drop_last());
                assert(gathered(host) == forked_held.last());
            }
            host.children.push(parent);
            proof {
                assert(host@.children =~= forked.last().children.push(parent.as_child()));
                assert(all_tagged(host.children@) =~= forked_held.last().kids.push(tagged(parent)));
            }
            self.stack.push(host);
            proof {
                assert(self.path() =~= forked.drop_last().push(
                    forked.last().with_child(parent.as_child()),
                ));
                assert(self.gathered_path() =~= with_kid(forked_held, tagged(parent)));
            }
        }
        let ghost below = self.path();
        let ghost below_held = self.gathered_path();
        self.term_id = self.term_id + 1;
        let id = self.term_id;
        let mut node = TrieNode::new(word.len(), id, word, true);
        node.frequency = frequency;
        self.stack.push(node);
        proof {
            let top = self.stack@[self.stack@.len() - 1];
            assert(top@.children =~= Seq::<ChildModel>::empty());
            assert(self.path() =~= below.push(terminal_node(word@, id as nat)));
            assert(top.children_not_yet_tagged@ =~= Seq::<(u32, u32)>::empty());
            assert(all_tagged(top.children@) =~= Seq::<Tagged>::empty());
            assert(self.gathered_path() =~= below_held.push(key_gathered(id, frequency)));
        }
        Ok(id)
    }

    /// Ends the construction: the nodes still on the stack are written out,
    /// the root last. Returns the output and the offset of the root record in
    /// it; without keys, an empty output and the offset zero.
    ///
    /// What is returned reads back as the keys that were added, each with its
    /// term id, in the order in which they were added. The output is made of
    /// records, one behind the other, and of nothing else.
    pub fn finish(self) -> (res: Result<(Vec<u8>, u32), BuildError>)
        requires
            self.wf(),
        ensures
            match res {
                Ok((buf, root)) => {
                    &&& finish_step(self@) == Ok::<(Seq<u8>, nat), BuildError>((buf@, root as nat))
                    &&& trie_entries(buf@, root as nat) == Ok::<Seq<TerminalModel>, ReadError>(
                        self.keys(),
                    )
                    &&& laid_out(buf@)
                    &&& self.keys().len() == 0 ==> buf@.len() == 0 && root == 0
                },
                Err(e) => finish_step(self@) == Err::<(Seq<u8>, nat), BuildError>(e),
            },
    {
        match self.finish_with_groups() {
            Ok((buf, root, _)) => Ok((buf, root)),
            Err(e) => Err(e),
        }
    }

    /// Ends the construction as `finish` does, and returns the groups with
    /// the output: where the builder makes groups, the root makes the last
    /// group, of the keys that are in no group yet; without keys that group is
    /// empty.
    #[verifier::rlimit(50)]
    pub fn finish_with_groups(self) -> (res: Result<(Vec<u8>, u32, Groups), BuildError>)
        requires
            self.wf(),
        ensures
            match res {
                Ok((buf, root, groups)) => {
                    &&& finish_step(self@) == Ok::<(Seq<u8>, nat), BuildError>((buf@, root as nat))
                    &&& trie_entries(buf@, root as nat) == Ok::<Seq<TerminalModel>, ReadError>(
                        self.keys(),
                    )
                    &&& laid_out(buf@)
                    &&& self.keys().len() == 0 ==> buf@.len() == 0 && root == 0
                    &&& groups@ == if self.issued() == 0 {
                        match self.limit() {
                            Some(_) => group_of(self.grouping(), self.gathered_path().last().own),
                            None => self.grouping(),
                        }
                    } else {
                        finish_grouped(
                            self.gathered_path(),
                            depths_of(self.path()),
                            self.grouping(),
                            self.limit(),
                        )
                    }
                },
                Err(e) => finish_step(self@) == Err::<(Seq<u8>, nat), BuildError>(e),
            },
    {
        let mut this = self;
        proof {
            lemma_finish_step(this@);
        }
        match this.failed {
            Some(e) => {
                return Err(e);
            },
            None => {},
        }
        if this.term_id == 0 {
            match this.threshold {
                Some(_) => {
                    let top = this.st_top();
                    let mut root = TrieNode::new(0, 0, Vec::new(), false);
                    this.stack.set_and_swap(top, &mut root);
                    this.create_group(&mut root);
                },
                None => {},
            }
            return Ok((this.bytes, 0, this.groups));
        }
        let ghost path = this.path();
        let ghost bytes = this.output();
        let ghost count = this.issued();
        let ghost held = this.gathered_path();
        let ghost depths = depths_of(path);
        let flushed = this.stack.pop().unwrap();
        let ghost last = flushed.term@;
        proof {
            assert(this.path() =~= path.drop_last());
            assert(flushed@ == path.last());
            assert(flushed.as_child() == path.last().as_child());
            assert(this.gathered_path() =~= held.drop_last());
            assert(tagged(flushed) == held.last().own);
            assert(depths_of(this.path()) =~= depths.drop_last());
            assert(common_prefix(Seq::<u8>::empty(), last) == 0);
            lemma_pending_depth(path.drop_last(), bytes, flushed.as_child(), last, count);
            lemma_close_above(path.drop_last(), bytes, flushed.as_child(), last, count, 0);
        }
        let parent = match this.leave_above(flushed, 0, Ghost(last)) {
            Err(e) => {
                return Err(e);
            },
            Ok(node) => node,
        };
        proof {
            let left = this.path();
            assert(left.drop_last().push(left.last().with_child(parent.as_child())).last()
                == left.last().with_child(parent.as_child()));
            lemma_root_flushable(left, this.output(), parent.as_child(), last, count);
        }
        match this.leave_root(parent) {
            Err(e) => Err(e),
            Ok(at) => Ok((this.bytes, at as u32, this.groups)),
        }
    }
}

/// The keys that a row of byte vectors stands for.
pub open spec fn key_views(keys: Seq<Vec<u8>>) -> Seq<Seq<u8>> {
    Seq::new(keys.len(), |i: int| keys[i]@)
}

/// Builds the trie of `keys`: adds them in turn to a new builder and
/// finishes it. Returns the output and the offset of the root record in it.
///
/// The outcome is that of the steps of the construction on the keys, and so
/// the same for the same keys. It fails with the first key that cannot follow
/// the key before it, and where the number of keys or the output outgrows 32
/// bits.
pub fn build_trie(keys: &[Vec<u8>]) -> (res: Result<(Vec<u8>, u32), BuildError>)
    ensures
        match res {
            Ok((buf, root)) => {
                &&& finish_step(build(key_views(keys@))) == Ok::<(Seq<u8>, nat), BuildError>(
                    (buf@, root as nat),
                )
                &&& trie_entries(buf@, root as nat) == Ok::<Seq<TerminalModel>, ReadError>(
                    keys_of(build(key_views(keys@))),
                )
                &&& laid_out(buf@)
            },
            Err(e) => finish_step(build(key_views(keys@))) == Err::<(Seq<u8>, nat), BuildError>(e),
        },
{
    let mut t = TrieBuilder::new();
    let ghost all = key_views(keys@);
    let mut i: usize = 0;
    proof {
        assert(all.take(0) =~= Seq::<Seq<u8>>::empty());
    }
    while i < keys.len()
        invariant
            i <= keys@.len(),
            all == key_views(keys@),
            t.wf(),
            t@ == build(all.take(i as int)),
        decreases keys@.len() - i,
    {
        let word = slice_to_vec(keys[i].as_slice());
        proof {
            assert(all.take(i + 1).drop_last() =~= all.take(i as int));
            assert(all.take(i + 1).last() == word@);
        }
        match t.add(word) {
            Err(e) => {
                proof {
                    lemma_build_failed(all, i + 1);
                }
                return Err(e);
            },
            Ok(_) => {},
        }
        i = i + 1;
    }
    proof {
        assert(all.take(i as int) =~= all);
    }
    t.finish()
}

} // verus!
