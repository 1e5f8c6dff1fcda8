//! What holds of the builder between two keys, and why the trie that it
//! writes reads back as the keys that went in.

use crate::error::{BuildError, ReadError};
use crate::keys::{
    chained, common_prefix, follows, lemma_common_prefix, lemma_sorted_chained,
    sorted_with_sentinel,
};
use crate::model::{
    add_step, build, child_fits, close_above, complete, edge_of, edges_of, finish_step,
    flush, flushable, grows, key_error, last_key, lemma_edges_of_ok, lemma_record_not_empty,
    lemma_shorten, lemma_shorten_all, put_record, shorten, shorten_all, start, BuilderModel,
    MAX_OUTPUT,
};
use crate::node::{fork_node, terminal_node, ChildModel, NodeModel};
use crate::model::lemma_edge_of_ok;
use crate::record::{
    edges_ok, lemma_parse_extend, lemma_parse_written, record_bytes, record_len,
    EdgeModel, MAX_CHILDREN, MAX_EDGE,
};
use crate::trie::{record_at, trie_entries, walk, walk_edges, TerminalModel};
use vstd::prelude::*;

verus! {

/// The record at `at` is read the same once the buffer has grown.
pub proof fn lemma_record_at_grows(before: Seq<u8>, after: Seq<u8>, at: nat)
    requires
        grows(before, after),
        record_at(before, at) is Ok,
    ensures
        record_at(after, at) == record_at(before, at),
{
    let more = after.skip(before.len() as int);
    assert(after =~= before + more);
    assert(after.skip(at as int) =~= before.skip(at as int) + more);
    lemma_parse_extend(before.skip(at as int), more);
}

/// A walk that succeeds in a buffer that is not empty gives the same keys
/// once the buffer has grown.
pub proof fn lemma_walk_grows(before: Seq<u8>, after: Seq<u8>, at: nat, prefix: Seq<u8>)
    requires
        grows(before, after),
        before.len() > 0,
        walk(before, at, prefix) is Ok,
    ensures
        walk(after, at, prefix) == walk(before, at, prefix),
    decreases at, 1nat, 0nat,
{
    lemma_record_at_grows(before, after, at);
    lemma_walk_edges_grows(before, after, at, prefix, record_at(before, at)->Ok_0);
}

/// A walk over children that succeeds in a buffer that is not empty gives
/// the same keys once the buffer has grown.
pub proof fn lemma_walk_edges_grows(
    before: Seq<u8>,
    after: Seq<u8>,
    at: nat,
    prefix: Seq<u8>,
    es: Seq<EdgeModel>,
)
    requires
        grows(before, after),
        before.len() > 0,
        walk_edges(before, at, prefix, es) is Ok,
    ensures
        walk_edges(after, at, prefix, es) == walk_edges(before, at, prefix, es),
    decreases at, 0nat, es.len(),
{
    if es.len() > 0 {
        lemma_walk_edges_grows(before, after, at, prefix, es.drop_last());
        let e = es.last();
        if !e.is_terminal {
            lemma_walk_grows(before, after, (at - e.pointer) as nat, prefix + e.label);
        }
    }
}

/// The keys below a child read back: of a key, itself; of another child,
/// what a walk from its record gives.
pub open spec fn child_reads(bytes: Seq<u8>, c: ChildModel) -> bool {
    c.is_terminal || walk(bytes, c.value, c.term) is Ok
}

/// The keys below a child, with their term ids.
pub open spec fn child_keys(bytes: Seq<u8>, c: ChildModel) -> Seq<TerminalModel> {
    if c.is_terminal {
        seq![TerminalModel { key: c.term, term_id: c.value }]
    } else {
        walk(bytes, c.value, c.term)->Ok_0
    }
}

/// The keys below the children `cs`, in their order.
pub open spec fn keys_below(bytes: Seq<u8>, cs: Seq<ChildModel>) -> Seq<TerminalModel>
    decreases cs.len(),
{
    if cs.len() == 0 {
        Seq::empty()
    } else {
        keys_below(bytes, cs.drop_last()) + child_keys(bytes, cs.last())
    }
}

/// The child `c` hangs below a node with the term `term`: the node can hold
/// it, its term starts with the term of the node, and the keys below it read
/// back.
pub open spec fn hangs(c: ChildModel, term: Seq<u8>, bytes: Seq<u8>) -> bool {
    &&& child_fits(c, term.len(), bytes)
    &&& c.term.take(term.len() as int) == term
    &&& child_reads(bytes, c)
}

/// The first bytes of the labels to the children `cs` of a node at depth
/// `depth` ascend.
pub open spec fn ascending(cs: Seq<ChildModel>, depth: nat) -> bool {
    forall|i: int, j: int|
        0 <= i < j < cs.len() ==> (#[trigger] cs[i]).term[depth as int] < (
        #[trigger] cs[j]).term[depth as int]
}

/// The node is no key, its children hang below it, and their labels ascend.
pub open spec fn node_sound(node: NodeModel, bytes: Seq<u8>) -> bool {
    &&& !node.is_terminal
    &&& forall|i: int|
        0 <= i < node.children.len() ==> hangs(#[trigger] node.children[i], node.term, bytes)
    &&& ascending(node.children, node.term.len())
}

/// A node with the term `term` lies below `node`, to the right of its
/// children: `term` is longer than the term of `node` and starts with it, and
/// goes on with a byte that is larger than the first byte of each label.
pub open spec fn lies_below(node: NodeModel, term: Seq<u8>) -> bool {
    &&& node.term.len() < term.len()
    &&& term.take(node.term.len() as int) == node.term
    &&& forall|i: int|
        0 <= i < node.children.len() ==> (#[trigger] node.children[i]).term[node.term.len() as int]
            < term[node.term.len() as int]
}

/// The keys below the children of the nodes of `stack`, from the root.
pub open spec fn path_keys(bytes: Seq<u8>, stack: Seq<NodeModel>) -> Seq<TerminalModel>
    decreases stack.len(),
{
    if stack.len() == 0 {
        Seq::empty()
    } else {
        path_keys(bytes, stack.drop_last()) + keys_below(bytes, stack.last().children)
    }
}

/// The keys `ks` are `count` many, and their term ids count from one.
pub open spec fn numbered(ks: Seq<TerminalModel>, count: nat) -> bool {
    &&& ks.len() == count
    &&& forall|i: int| 0 <= i < ks.len() ==> (#[trigger] ks[i]).term_id == i + 1
}

/// A path of sound nodes from the root, each below the one before it and to
/// the right of that one's children, and each but the root with a child.
pub open spec fn sound_path(stack: Seq<NodeModel>, bytes: Seq<u8>) -> bool {
    &&& stack.len() >= 1
    &&& stack[0].term.len() == 0
    &&& forall|k: int| 0 <= k < stack.len() ==> node_sound(#[trigger] stack[k], bytes)
    &&& forall|k: int| 0 < k < stack.len() ==> (#[trigger] stack[k]).children.len() >= 1
    &&& forall|k: int|
        0 <= k < stack.len() - 1 ==> lies_below(#[trigger] stack[k], stack[k + 1].term)
}

/// What holds while nodes leave the stack: `stack` is a path of sound nodes
/// from the root, `flushed` hangs below its last node to the right of that
/// node's children, its term starts the key `last`, and the keys below the
/// nodes of the stack followed by those below `flushed` are the `count` keys
/// added so far.
#[verifier::opaque]
pub open spec fn pending(
    stack: Seq<NodeModel>,
    bytes: Seq<u8>,
    flushed: ChildModel,
    last: Seq<u8>,
    count: nat,
) -> bool {
    &&& sound_path(stack, bytes)
    &&& bytes.len() <= MAX_OUTPUT
    &&& laid_out(bytes)
    &&& 1 <= count <= u32::MAX
    &&& lies_below(stack.last(), flushed.term)
    &&& hangs(flushed, stack.last().term, bytes)
    &&& flushed.term.len() <= last.len()
    &&& flushed.term == last.take(flushed.term.len() as int)
    &&& numbered(path_keys(bytes, stack) + child_keys(bytes, flushed), count)
}

/// What holds of the builder between two keys. Before the first key the
/// stack holds the root alone, and there is no output. After a key the node of
/// that key is on top of the stack, and below it the stack is as while nodes
/// leave it, with the key about to leave.
pub open spec fn inv(m: BuilderModel) -> bool {
    match m {
        BuilderModel::Failed(_) => true,
        BuilderModel::Open { stack, bytes, count } => if count == 0 {
            &&& stack == seq![fork_node(Seq::empty())]
            &&& bytes.len() == 0
        } else {
            &&& stack.len() >= 2
            &&& stack.last() == terminal_node(stack.last().term, count)
            &&& pending(stack.drop_last(), bytes, stack.last().as_child(), stack.last().term, count)
        },
    }
}

/// The keys that were added to the builder, with their term ids.
pub open spec fn keys_of(m: BuilderModel) -> Seq<TerminalModel> {
    match m {
        BuilderModel::Failed(_) => Seq::empty(),
        BuilderModel::Open { stack, bytes, count } => if count == 0 {
            Seq::empty()
        } else {
            path_keys(bytes, stack.drop_last()) + child_keys(bytes, stack.last().as_child())
        },
    }
}

/// From offset `at` to its end, `bytes` holds `n` records, one behind the
/// other, and nothing else.
pub open spec fn laid(bytes: Seq<u8>, at: nat, n: nat) -> bool
    decreases n,
{
    if n == 0 {
        at == bytes.len()
    } else {
        &&& record_at(bytes, at) is Ok
        &&& laid(bytes, at + record_len(bytes.skip(at as int)), (n - 1) as nat)
    }
}

/// The buffer is made of records, one behind the other, and of nothing
/// else.
pub open spec fn laid_out(bytes: Seq<u8>) -> bool {
    exists|n: nat| laid(bytes, 0, n)
}

/// Records that lie one behind the other to the end of the buffer start
/// within it.
proof fn lemma_laid_within(bytes: Seq<u8>, at: nat, n: nat)
    requires
        laid(bytes, at, n),
    ensures
        at <= bytes.len(),
    decreases n,
{
    if n > 0 {
        lemma_laid_within(bytes, at + record_len(bytes.skip(at as int)), (n - 1) as nat);
    }
}

/// Records that lie one behind the other still do with one more record
/// behind them.
proof fn lemma_laid_more(bytes: Seq<u8>, at: nat, n: nat, es: Seq<EdgeModel>)
    requires
        laid(bytes, at, n),
        at <= bytes.len(),
        edges_ok(es),
    ensures
        laid(bytes + record_bytes(es), at, n + 1),
    decreases n,
{
    let rec = record_bytes(es);
    let after = bytes + rec;
    if n == 0 {
        assert(after.skip(at as int) =~= rec + Seq::<u8>::empty());
        lemma_parse_written(es, Seq::<u8>::empty());
        assert(laid(after, at + record_len(after.skip(at as int)), 0));
    } else {
        assert(after.skip(at as int) =~= bytes.skip(at as int) + rec);
        lemma_parse_extend(bytes.skip(at as int), rec);
        let next = at + record_len(bytes.skip(at as int));
        lemma_laid_within(bytes, next, (n - 1) as nat);
        lemma_laid_more(bytes, next, (n - 1) as nat, es);
    }
}

/// A buffer made of records is made of records with one more record at its
/// end.
pub proof fn lemma_put_record_laid(bytes: Seq<u8>, es: Seq<EdgeModel>)
    requires
        laid_out(bytes),
        edges_ok(es),
    ensures
        laid_out(bytes + record_bytes(es)),
{
    let n = choose|n: nat| laid(bytes, 0, n);
    lemma_laid_more(bytes, 0, n, es);
}

/// Making an edge short enough leaves the output made of records.
pub proof fn lemma_shorten_laid(bytes: Seq<u8>, depth: nat, c: ChildModel, maxlen: nat)
    requires
        child_fits(c, depth, bytes),
        1 <= maxlen <= MAX_EDGE,
        bytes.len() <= MAX_OUTPUT,
        laid_out(bytes),
    ensures
        match shorten(bytes, depth, c, maxlen) {
            Some((after, short)) => laid_out(after),
            None => true,
        },
    decreases c.term.len() - depth,
{
    if c.term.len() > depth + maxlen {
        let cut = (depth + maxlen) as nat;
        lemma_shorten_laid(bytes, cut, c, MAX_EDGE as nat);
        lemma_shorten(bytes, cut, c, MAX_EDGE as nat);
        match shorten(bytes, cut, c, MAX_EDGE as nat) {
            None => {},
            Some((below, only)) => {
                let es = seq![edge_of(only, cut, below.len())];
                lemma_edge_of_ok(only, cut, below);
                lemma_put_record_laid(below, es);
            },
        }
    }
}

/// Making the edges to all children short enough leaves the output made of
/// records.
pub proof fn lemma_shorten_all_laid(
    bytes: Seq<u8>,
    depth: nat,
    cs: Seq<ChildModel>,
    maxlen: nat,
)
    requires
        forall|i: int| 0 <= i < cs.len() ==> child_fits(#[trigger] cs[i], depth, bytes),
        1 <= maxlen <= MAX_EDGE,
        bytes.len() <= MAX_OUTPUT,
        laid_out(bytes),
    ensures
        match shorten_all(bytes, depth, cs, maxlen) {
            Some((after, short)) => laid_out(after),
            None => true,
        },
    decreases cs.len(),
{
    if cs.len() > 0 {
        let rest = cs.drop_last();
        assert forall|i: int| 0 <= i < rest.len() implies child_fits(
            #[trigger] rest[i],
            depth,
            bytes,
        ) by {
            assert(rest[i] == cs[i]);
        }
        lemma_shorten_all_laid(bytes, depth, rest, maxlen);
        lemma_shorten_all(bytes, depth, rest, maxlen);
        match shorten_all(bytes, depth, rest, maxlen) {
            None => {},
            Some((before, done)) => {
                assert(child_fits(cs.last(), depth, bytes));
                lemma_shorten_laid(before, depth, cs.last(), maxlen);
            },
        }
    }
}

/// Writing out a node leaves the output made of records.
pub proof fn lemma_flush_laid(bytes: Seq<u8>, node: NodeModel)
    requires
        flushable(node, bytes),
        laid_out(bytes),
    ensures
        match flush(bytes, node) {
            Some((after, at)) => laid_out(after),
            None => true,
        },
{
    let depth = node.term.len();
    lemma_shorten_all_laid(bytes, depth, node.children, MAX_EDGE as nat);
    lemma_shorten_all(bytes, depth, node.children, MAX_EDGE as nat);
    match shorten_all(bytes, depth, node.children, MAX_EDGE as nat) {
        None => {},
        Some((below, short)) => {
            lemma_edges_of_ok(short, depth, below);
            lemma_put_record_laid(below, edges_of(short, depth, below.len()));
        },
    }
}

/// A child that hangs below a node still does once the buffer has grown, and
/// the keys below it are the same.
pub proof fn lemma_hangs_grows(c: ChildModel, term: Seq<u8>, before: Seq<u8>, after: Seq<u8>)
    requires
        hangs(c, term, before),
        grows(before, after),
    ensures
        hangs(c, term, after),
        child_keys(after, c) == child_keys(before, c),
{
    if !c.is_terminal {
        lemma_walk_grows(before, after, c.value, c.term);
    }
}

/// The keys below children that hang below a node are the same once the
/// buffer has grown.
pub proof fn lemma_keys_below_grows(
    cs: Seq<ChildModel>,
    term: Seq<u8>,
    before: Seq<u8>,
    after: Seq<u8>,
)
    requires
        forall|i: int| 0 <= i < cs.len() ==> hangs(#[trigger] cs[i], term, before),
        grows(before, after),
    ensures
        forall|i: int| 0 <= i < cs.len() ==> hangs(#[trigger] cs[i], term, after),
        keys_below(after, cs) == keys_below(before, cs),
    decreases cs.len(),
{
    if cs.len() > 0 {
        lemma_keys_below_grows(cs.drop_last(), term, before, after);
        lemma_hangs_grows(cs.last(), term, before, after);
        assert forall|i: int| 0 <= i < cs.len() implies hangs(#[trigger] cs[i], term, after) by {
            if i < cs.len() - 1 {
                assert(cs.drop_last()[i] == cs[i]);
            }
        }
    }
}

/// The keys below a node that is sound are the same once the buffer has
/// grown, and the node is still sound.
pub proof fn lemma_node_sound_grows(node: NodeModel, before: Seq<u8>, after: Seq<u8>)
    requires
        node_sound(node, before),
        grows(before, after),
    ensures
        node_sound(node, after),
        keys_below(after, node.children) == keys_below(before, node.children),
{
    lemma_keys_below_grows(node.children, node.term, before, after);
}

/// The keys below the nodes of a path of sound nodes are the same once the
/// buffer has grown.
pub proof fn lemma_path_keys_grows(stack: Seq<NodeModel>, before: Seq<u8>, after: Seq<u8>)
    requires
        forall|k: int| 0 <= k < stack.len() ==> node_sound(#[trigger] stack[k], before),
        grows(before, after),
    ensures
        forall|k: int| 0 <= k < stack.len() ==> node_sound(#[trigger] stack[k], after),
        path_keys(after, stack) == path_keys(before, stack),
    decreases stack.len(),
{
    if stack.len() > 0 {
        assert forall|k: int| 0 <= k < stack.len() - 1 implies node_sound(
            #[trigger] stack.drop_last()[k],
            before,
        ) by {
            assert(stack.drop_last()[k] == stack[k]);
        }
        lemma_path_keys_grows(stack.drop_last(), before, after);
        lemma_node_sound_grows(stack.last(), before, after);
        assert forall|k: int| 0 <= k < stack.len() implies node_sound(
            #[trigger] stack[k],
            after,
        ) by {
            if k < stack.len() - 1 {
                assert(stack.drop_last()[k] == stack[k]);
            } else {
                assert(stack[k] == stack.last());
            }
        }
    }
}

/// Walking the edges to the first `k` of the children `cs`, from a record
/// behind `bytes`, gives the keys below those children.
proof fn lemma_walk_edges_of(
    bytes: Seq<u8>,
    after: Seq<u8>,
    term: Seq<u8>,
    cs: Seq<ChildModel>,
    k: int,
)
    requires
        grows(bytes, after),
        0 <= k <= cs.len(),
        forall|i: int| 0 <= i < cs.len() ==> hangs(#[trigger] cs[i], term, bytes),
    ensures
        walk_edges(after, bytes.len(), term, edges_of(cs, term.len(), bytes.len()).take(k)) == Ok::<
            Seq<TerminalModel>,
            ReadError,
        >(keys_below(bytes, cs.take(k))),
    decreases k,
{
    let at = bytes.len();
    let es = edges_of(cs, term.len(), at);
    if k == 0 {
        assert(es.take(0) =~= Seq::<EdgeModel>::empty());
        assert(cs.take(0) =~= Seq::<ChildModel>::empty());
    } else {
        lemma_walk_edges_of(bytes, after, term, cs, k - 1);
        assert(es.take(k).drop_last() =~= es.take(k - 1));
        assert(cs.take(k).drop_last() =~= cs.take(k - 1));
        let c = cs[k - 1];
        let e = es[k - 1];
        assert(es.take(k).last() == e);
        assert(cs.take(k).last() == c);
        assert(hangs(c, term, bytes));
        assert(e == edge_of(c, term.len(), at));
        assert(term + e.label =~= c.term);
        let before = keys_below(bytes, cs.take(k - 1));
        assert(walk_edges(after, at, term, es.take(k).drop_last()) == Ok::<
            Seq<TerminalModel>,
            ReadError,
        >(before));
        if c.is_terminal {
            assert(before.push(TerminalModel { key: term + e.label, term_id: e.pointer }) =~= before
                + child_keys(bytes, c));
        } else {
            assert(1 <= e.pointer <= at);
            assert((at - e.pointer) as nat == c.value);
            lemma_walk_grows(bytes, after, c.value, c.term);
            assert(walk(after, (at - e.pointer) as nat, term + e.label) == Ok::<
                Seq<TerminalModel>,
                ReadError,
            >(child_keys(bytes, c)));
        }
    }
}

/// A record that is written behind `bytes` for children that hang below its
/// node reads back as the keys below those children.
pub proof fn lemma_record_walk(bytes: Seq<u8>, term: Seq<u8>, cs: Seq<ChildModel>)
    requires
        edges_ok(edges_of(cs, term.len(), bytes.len())),
        forall|i: int| 0 <= i < cs.len() ==> hangs(#[trigger] cs[i], term, bytes),
    ensures
        walk(
            bytes + record_bytes(edges_of(cs, term.len(), bytes.len())),
            bytes.len(),
            term,
        ) == Ok::<Seq<TerminalModel>, ReadError>(keys_below(bytes, cs)),
{
    let at = bytes.len();
    let es = edges_of(cs, term.len(), at);
    let after = bytes + record_bytes(es);
    assert(after.skip(at as int) =~= record_bytes(es) + Seq::<u8>::empty());
    lemma_parse_written(es, Seq::<u8>::empty());
    assert(after.take(at as int) =~= bytes);
    lemma_walk_edges_of(bytes, after, term, cs, cs.len() as int);
    assert(es.take(cs.len() as int) =~= es);
    assert(cs.take(cs.len() as int) =~= cs);
}

/// A child that hangs below a node, once the edge to it is short enough,
/// hangs below the node as before, and the keys below it are the same.
#[verifier::rlimit(50)]
pub proof fn lemma_shorten_keeps(bytes: Seq<u8>, term: Seq<u8>, c: ChildModel, maxlen: nat)
    requires
        hangs(c, term, bytes),
        1 <= maxlen <= MAX_EDGE,
        bytes.len() <= MAX_OUTPUT,
    ensures
        match shorten(bytes, term.len(), c, maxlen) {
            Some((after, short)) => {
                &&& hangs(short, term, after)
                &&& child_keys(after, short) == child_keys(bytes, c)
                &&& short.term[term.len() as int] == c.term[term.len() as int]
            },
            None => true,
        },
    decreases c.term.len() - term.len(),
{
    let depth = term.len();
    lemma_shorten(bytes, depth, c, maxlen);
    if c.term.len() > depth + maxlen {
        let cut = depth + maxlen;
        let inner = c.term.take(cut as int);
        assert(c.term.take(cut as int) == inner);
        assert(hangs(c, inner, bytes));
        lemma_shorten_keeps(bytes, inner, c, MAX_EDGE as nat);
        lemma_shorten(bytes, cut, c, MAX_EDGE as nat);
        match shorten(bytes, cut, c, MAX_EDGE as nat) {
            None => {},
            Some((below, only)) => {
                let es = seq![edge_of(only, cut, below.len())];
                assert(es =~= edges_of(seq![only], cut, below.len()));
                lemma_edges_of_ok(seq![only], cut, below);
                match put_record(below, es) {
                    None => {},
                    Some(after) => {
                        lemma_record_walk(below, inner, seq![only]);
                        assert(keys_below(below, seq![only]) =~= child_keys(below, only)) by {
                            reveal_with_fuel(keys_below, 2);
                            assert(seq![only].drop_last() =~= Seq::<ChildModel>::empty());
                        }
                        assert(inner.take(depth as int) =~= c.term.take(depth as int));
                        lemma_record_not_empty(es);
                    },
                }
            },
        }
    }
}

/// Children that hang below a node, once the edges to them are short
/// enough, hang below the node as before, the keys below them are the same,
/// and so are the first bytes of their labels.
#[verifier::rlimit(50)]
pub proof fn lemma_shorten_all_keeps(
    bytes: Seq<u8>,
    term: Seq<u8>,
    cs: Seq<ChildModel>,
    maxlen: nat,
)
    requires
        forall|i: int| 0 <= i < cs.len() ==> hangs(#[trigger] cs[i], term, bytes),
        1 <= maxlen <= MAX_EDGE,
        bytes.len() <= MAX_OUTPUT,
    ensures
        match shorten_all(bytes, term.len(), cs, maxlen) {
            Some((after, short)) => {
                &&& short.len() == cs.len()
                &&& forall|i: int| 0 <= i < short.len() ==> hangs(#[trigger] short[i], term, after)
                &&& keys_below(after, short) == keys_below(bytes, cs)
            },
            None => true,
        },
    decreases cs.len(),
{
    let depth = term.len();
    if cs.len() > 0 {
        let rest = cs.drop_last();
        assert forall|i: int| 0 <= i < rest.len() implies hangs(
            #[trigger] rest[i],
            term,
            bytes,
        ) by {
            assert(rest[i] == cs[i]);
        }
        lemma_shorten_all_keeps(bytes, term, rest, maxlen);
        assert forall|i: int| 0 <= i < rest.len() implies child_fits(
            #[trigger] rest[i],
            depth,
            bytes,
        ) by {
            assert(hangs(rest[i], term, bytes));
        }
        lemma_shorten_all(bytes, depth, rest, maxlen);
        match shorten_all(bytes, depth, rest, maxlen) {
            None => {},
            Some((before, done)) => {
                assert(hangs(cs.last(), term, bytes));
                lemma_hangs_grows(cs.last(), term, bytes, before);
                lemma_shorten_keeps(before, term, cs.last(), maxlen);
                lemma_shorten(before, depth, cs.last(), maxlen);
                match shorten(before, depth, cs.last(), maxlen) {
                    None => {},
                    Some((after, c)) => {
                        let short = done.push(c);
                        lemma_keys_below_grows(done, term, before, after);
                        assert(short.drop_last() =~= done);
                        assert forall|i: int| 0 <= i < short.len() implies hangs(
                            #[trigger] short[i],
                            term,
                            after,
                        ) by {
                            if i < done.len() {
                                assert(short[i] == done[i]);
                            }
                        }
                    },
                }
            },
        }
    }
}

/// A node that is sound, once it is written out, reads back as the keys
/// below its children.
#[verifier::rlimit(50)]
pub proof fn lemma_flush_walk(bytes: Seq<u8>, node: NodeModel)
    requires
        node_sound(node, bytes),
        1 <= node.children.len() <= MAX_CHILDREN,
        bytes.len() <= MAX_OUTPUT,
    ensures
        flushable(node, bytes),
        match flush(bytes, node) {
            Some((after, at)) => {
                &&& grows(bytes, after)
                &&& after.len() <= MAX_OUTPUT
                &&& at < after.len()
                &&& walk(after, at, node.term) == Ok::<Seq<TerminalModel>, ReadError>(
                    keys_below(bytes, node.children),
                )
            },
            None => true,
        },
{
    let depth = node.term.len();
    let cs = node.children;
    assert forall|i: int| 0 <= i < cs.len() implies child_fits(#[trigger] cs[i], depth, bytes) by {
        assert(hangs(cs[i], node.term, bytes));
    }
    lemma_shorten_all(bytes, depth, cs, MAX_EDGE as nat);
    lemma_shorten_all_keeps(bytes, node.term, cs, MAX_EDGE as nat);
    match shorten_all(bytes, depth, cs, MAX_EDGE as nat) {
        None => {},
        Some((below, short)) => {
            let es = edges_of(short, depth, below.len());
            lemma_edges_of_ok(short, depth, below);
            lemma_record_not_empty(es);
            match put_record(below, es) {
                None => {},
                Some(after) => {
                    lemma_record_walk(below, node.term, short);
                    assert(after.take(bytes.len() as int) =~= below.take(bytes.len() as int));
                },
            }
        },
    }
}

/// Labels whose first bytes ascend are at most 256.
pub proof fn lemma_ascending_bound(cs: Seq<ChildModel>, depth: nat)
    requires
        ascending(cs, depth),
    ensures
        cs.len() <= MAX_CHILDREN,
{
    lemma_ascending_from(cs, depth, cs.len() as int - 1);
}

/// The first byte of label `i` among ascending ones is at least `i`.
proof fn lemma_ascending_from(cs: Seq<ChildModel>, depth: nat, i: int)
    requires
        ascending(cs, depth),
        i < cs.len(),
    ensures
        0 <= i ==> cs[i].term[depth as int] >= i,
    decreases i,
{
    if i > 0 {
        lemma_ascending_from(cs, depth, i - 1);
        assert(cs[i - 1].term[depth as int] < cs[i].term[depth as int]);
    }
}

/// The keys below children with one more child are the keys below the
/// children followed by those below that one.
pub proof fn lemma_keys_below_push(bytes: Seq<u8>, cs: Seq<ChildModel>, c: ChildModel)
    ensures
        keys_below(bytes, cs.push(c)) == keys_below(bytes, cs) + child_keys(bytes, c),
{
    assert(cs.push(c).drop_last() =~= cs);
}

/// The keys below the nodes of a path with one more node are the keys below
/// the nodes of the path followed by those below the children of that one.
pub proof fn lemma_path_keys_push(bytes: Seq<u8>, stack: Seq<NodeModel>, node: NodeModel)
    ensures
        path_keys(bytes, stack.push(node)) == path_keys(bytes, stack) + keys_below(
            bytes,
            node.children,
        ),
{
    assert(stack.push(node).drop_last() =~= stack);
}

/// A node with the child that hangs below it to the right of its children
/// is sound with that child as its last.
pub proof fn lemma_with_child_sound(node: NodeModel, c: ChildModel, bytes: Seq<u8>)
    requires
        node_sound(node, bytes),
        lies_below(node, c.term),
        hangs(c, node.term, bytes),
    ensures
        node_sound(node.with_child(c), bytes),
        1 <= node.with_child(c).children.len() <= MAX_CHILDREN,
{
    let full = node.with_child(c);
    let cs = full.children;
    let depth = node.term.len();
    assert forall|i: int| 0 <= i < cs.len() implies hangs(#[trigger] cs[i], full.term, bytes) by {
        if i < node.children.len() {
            assert(cs[i] == node.children[i]);
        }
    }
    assert forall|i: int, j: int| 0 <= i < j < cs.len() implies (
    #[trigger] cs[i]).term[depth as int] < (#[trigger] cs[j]).term[depth as int] by {
        assert(cs[i] == node.children[i]);
        if j < node.children.len() {
            assert(cs[j] == node.children[j]);
        }
    }
    lemma_ascending_bound(cs, depth);
}

/// A sound path without its last node is a sound path.
pub proof fn lemma_sound_path_drop(stack: Seq<NodeModel>, bytes: Seq<u8>)
    requires
        sound_path(stack, bytes),
        stack.len() >= 2,
    ensures
        sound_path(stack.drop_last(), bytes),
        lies_below(stack.drop_last().last(), stack.last().term),
{
    let rest = stack.drop_last();
    assert(rest[0] == stack[0]);
    assert forall|k: int| 0 <= k < rest.len() implies node_sound(#[trigger] rest[k], bytes) by {
        assert(rest[k] == stack[k]);
    }
    assert forall|k: int| 0 < k < rest.len() implies (#[trigger] rest[k]).children.len() >= 1 by {
        assert(rest[k] == stack[k]);
    }
    assert forall|k: int| 0 <= k < rest.len() - 1 implies lies_below(
        #[trigger] rest[k],
        rest[k + 1].term,
    ) by {
        assert(rest[k] == stack[k]);
        assert(rest[k + 1] == stack[k + 1]);
    }
    assert(rest.last() == stack[stack.len() - 2]);
    assert(stack[stack.len() - 2 + 1] == stack.last());
}

/// A sound path with one more sound node, which has a child and lies below
/// the last node to the right of its children, is a sound path.
pub proof fn lemma_sound_path_push(stack: Seq<NodeModel>, bytes: Seq<u8>, node: NodeModel)
    requires
        sound_path(stack, bytes),
        node_sound(node, bytes),
        node.children.len() >= 1,
        lies_below(stack.last(), node.term),
    ensures
        sound_path(stack.push(node), bytes),
{
    let more = stack.push(node);
    assert(more[0] == stack[0]);
    assert forall|k: int| 0 <= k < more.len() implies node_sound(#[trigger] more[k], bytes) by {
        if k < stack.len() {
            assert(more[k] == stack[k]);
        }
    }
    assert forall|k: int| 0 < k < more.len() implies (#[trigger] more[k]).children.len() >= 1 by {
        if k < stack.len() {
            assert(more[k] == stack[k]);
        }
    }
    assert forall|k: int| 0 <= k < more.len() - 1 implies lies_below(
        #[trigger] more[k],
        more[k + 1].term,
    ) by {
        assert(more[k] == stack[k]);
        if k + 1 < stack.len() {
            assert(more[k + 1] == stack[k + 1]);
        } else {
            assert(stack[k] == stack.last());
        }
    }
}

/// A sound path whose last node has one more child, with which it is sound,
/// is a sound path.
pub proof fn lemma_sound_path_with_child(
    stack: Seq<NodeModel>,
    bytes: Seq<u8>,
    c: ChildModel,
)
    requires
        sound_path(stack, bytes),
        node_sound(stack.last().with_child(c), bytes),
    ensures
        sound_path(stack.drop_last().push(stack.last().with_child(c)), bytes),
{
    let full = stack.last().with_child(c);
    let path = stack.drop_last().push(full);
    if stack.len() >= 2 {
        lemma_sound_path_drop(stack, bytes);
        lemma_sound_path_push(stack.drop_last(), bytes, full);
    } else {
        assert(path[0] == full);
        assert(stack[0] == stack.last());
    }
}

/// One node leaves the stack: the node on top takes `flushed` as its last
/// child, can be written out, and once it is, what holds while nodes leave the
/// stack holds of the rest of the stack with that node about to leave.
#[verifier::rlimit(50)]
pub proof fn lemma_leave(
    stack: Seq<NodeModel>,
    bytes: Seq<u8>,
    flushed: ChildModel,
    last: Seq<u8>,
    count: nat,
)
    requires
        pending(stack, bytes, flushed, last, count),
        stack.last().term.len() > 0,
    ensures
        stack.len() >= 2,
        !stack.last().with_child(flushed).is_terminal,
        flushable(stack.last().with_child(flushed), bytes),
        match complete(bytes, stack.last().with_child(flushed)) {
            Some((after, parent)) => {
                &&& pending(stack.drop_last(), after, parent, last, count)
                &&& parent.term == stack.last().term
                &&& path_keys(after, stack.drop_last()) + child_keys(after, parent) == path_keys(
                    bytes,
                    stack,
                ) + child_keys(bytes, flushed)
            },
            None => true,
        },
{
    reveal(pending);
    let top = stack.last();
    let full = top.with_child(flushed);
    let rest = stack.drop_last();
    assert(node_sound(top, bytes)) by {
        assert(stack[stack.len() - 1] == top);
    }
    lemma_with_child_sound(top, flushed, bytes);
    lemma_flush_walk(bytes, full);
    lemma_flush_laid(bytes, full);
    lemma_sound_path_drop(stack, bytes);
    match complete(bytes, full) {
        None => {},
        Some((after, parent)) => {
            let at = flush(bytes, full)->Some_0.1;
            assert(parent == ChildModel { term: top.term, is_terminal: false, value: at });
            lemma_path_keys_grows(rest, bytes, after);
            lemma_keys_below_push(bytes, top.children, flushed);
            assert(stack =~= rest.push(top));
            lemma_path_keys_push(bytes, rest, top);
            assert(path_keys(after, rest) + child_keys(after, parent) =~= path_keys(bytes, stack)
                + child_keys(bytes, flushed));
            assert(parent.term =~= last.take(parent.term.len() as int)) by {
                assert(flushed.term.take(top.term.len() as int) == top.term);
            }
            assert(sound_path(rest, after));
        },
    }
}

/// The nodes deeper than `depth` leave the stack: what holds while nodes
/// leave the stack holds afterwards, the node on top of the stack is not
/// deeper than `depth`, the node left last is, and the keys are the same.
pub proof fn lemma_close_above(
    stack: Seq<NodeModel>,
    bytes: Seq<u8>,
    flushed: ChildModel,
    last: Seq<u8>,
    count: nat,
    depth: nat,
)
    requires
        pending(stack, bytes, flushed, last, count),
        flushed.term.len() > depth,
    ensures
        match close_above(stack, bytes, flushed, depth) {
            Some((left, after, parent)) => {
                &&& pending(left, after, parent, last, count)
                &&& left.last().term.len() <= depth < parent.term.len()
                &&& path_keys(after, left) + child_keys(after, parent) == path_keys(bytes, stack)
                    + child_keys(bytes, flushed)
            },
            None => true,
        },
    decreases stack.len(),
{
    reveal(pending);
    if stack.last().term.len() > depth {
        lemma_leave(stack, bytes, flushed, last, count);
        match complete(bytes, stack.last().with_child(flushed)) {
            None => {},
            Some((after, parent)) => {
                lemma_close_above(stack.drop_last(), after, parent, last, count, depth);
            },
        }
    }
}

/// What holds between two keys holds once the node of a new key is on top
/// of a sound path whose last node it lies below, to the right of that node's
/// children.
pub proof fn lemma_key_on_top(path: Seq<NodeModel>, bytes: Seq<u8>, word: Seq<u8>, count: nat)
    requires
        sound_path(path, bytes),
        bytes.len() <= MAX_OUTPUT,
        laid_out(bytes),
        1 <= count <= u32::MAX,
        lies_below(path.last(), word),
        numbered(path_keys(bytes, path), (count - 1) as nat),
    ensures
        inv(
            BuilderModel::Open {
                stack: path.push(terminal_node(word, count)),
                bytes: bytes,
                count: count,
            },
        ),
        keys_of(
            BuilderModel::Open {
                stack: path.push(terminal_node(word, count)),
                bytes: bytes,
                count: count,
            },
        ) == path_keys(bytes, path).push(TerminalModel { key: word, term_id: count }),
{
    reveal(pending);
    let node = terminal_node(word, count);
    let stack = path.push(node);
    let m = BuilderModel::Open { stack: stack, bytes: bytes, count: count };
    assert(stack.drop_last() =~= path);
    assert(stack.last() == node);
    assert(word.take(word.len() as int) =~= word);
    let before = path_keys(bytes, path);
    assert(keys_of(m) =~= before.push(TerminalModel { key: word, term_id: count }));
    assert(numbered(keys_of(m), count));
}

/// Where the new key leaves the key before it, in terms of the node left
/// last, whose term starts that key, and the node that it hangs below.
proof fn lemma_parting(below: NodeModel, flushed: ChildModel, last: Seq<u8>, word: Seq<u8>)
    requires
        lies_below(below, flushed.term),
        flushed.term.len() <= last.len(),
        flushed.term == last.take(flushed.term.len() as int),
        common_prefix(word, last) < word.len(),
        common_prefix(word, last) < last.len(),
        word[common_prefix(word, last) as int] > last[common_prefix(word, last) as int],
        below.term.len() <= common_prefix(word, last) < flushed.term.len(),
    ensures
        ({
            let depth = common_prefix(word, last) as int;
            &&& below.term == word.take(below.term.len() as int)
            &&& flushed.term.take(depth) == word.take(depth)
            &&& flushed.term[depth] < word[depth]
            &&& below.term.len() < depth ==> lies_below(below, word.take(depth))
            &&& below.term.len() == depth ==> below.term == word.take(depth)
            &&& forall|i: int|
                0 <= i < below.children.len() && below.term.len() == depth ==> (
                #[trigger] below.children[i]).term[depth] < word[depth]
        }),
{
    let depth = common_prefix(word, last) as int;
    let n = below.term.len() as int;
    lemma_common_prefix(word, last);
    assert(flushed.term.take(depth) =~= word.take(depth)) by {
        assert forall|j: int| 0 <= j < depth implies flushed.term[j] == word[j] by {
            assert(flushed.term[j] == last.take(flushed.term.len() as int)[j]);
        }
    }
    assert(flushed.term[depth] == last.take(flushed.term.len() as int)[depth]);
    assert(below.term =~= word.take(n)) by {
        assert forall|j: int| 0 <= j < n implies below.term[j] == word[j] by {
            assert(below.term[j] == flushed.term.take(n)[j]);
            assert(flushed.term[j] == flushed.term.take(depth)[j]);
        }
    }
    if n < depth {
        assert(word.take(depth).take(n) =~= below.term);
        assert(word.take(depth)[n] == flushed.term.take(depth)[n]);
    }
}

/// The new key goes below a node that is put on the stack for it.
#[verifier::rlimit(50)]
proof fn lemma_attach_fresh(
    left: Seq<NodeModel>,
    bytes: Seq<u8>,
    flushed: ChildModel,
    last: Seq<u8>,
    count: nat,
    word: Seq<u8>,
)
    requires
        pending(left, bytes, flushed, last, count),
        count < u32::MAX,
        common_prefix(word, last) < word.len(),
        common_prefix(word, last) < last.len(),
        word[common_prefix(word, last) as int] > last[common_prefix(word, last) as int],
        left.last().term.len() < common_prefix(word, last) < flushed.term.len(),
    ensures
        ({
            let depth = common_prefix(word, last);
            let path = left.push(fork_node(word.take(depth as int)).with_child(flushed));
            let m = BuilderModel::Open {
                stack: path.push(terminal_node(word, count + 1)),
                bytes: bytes,
                count: count + 1,
            };
            &&& inv(m)
            &&& keys_of(m) == (path_keys(bytes, left) + child_keys(bytes, flushed)).push(
                TerminalModel { key: word, term_id: count + 1 },
            )
        }),
{
    reveal(pending);
    let depth = common_prefix(word, last);
    let below = left.last();
    lemma_parting(below, flushed, last, word);
    let fork = fork_node(word.take(depth as int));
    let full = fork.with_child(flushed);
    assert(hangs(flushed, fork.term, bytes));
    assert(lies_below(fork, flushed.term));
    lemma_with_child_sound(fork, flushed, bytes);
    lemma_sound_path_push(left, bytes, full);
    let path = left.push(full);
    assert(lies_below(full, word)) by {
        assert(full.children =~= seq![flushed]);
        assert(word.take(depth as int) == full.term);
    }
    lemma_path_keys_push(bytes, left, full);
    lemma_keys_below_push(bytes, fork.children, flushed);
    assert(keys_below(bytes, fork.children) =~= Seq::<TerminalModel>::empty());
    assert(path_keys(bytes, path) =~= path_keys(bytes, left) + child_keys(bytes, flushed));
    lemma_key_on_top(path, bytes, word, count + 1);
}

/// The new key goes below the node on top of the stack.
#[verifier::rlimit(50)]
proof fn lemma_attach_there(
    left: Seq<NodeModel>,
    bytes: Seq<u8>,
    flushed: ChildModel,
    last: Seq<u8>,
    count: nat,
    word: Seq<u8>,
)
    requires
        pending(left, bytes, flushed, last, count),
        count < u32::MAX,
        common_prefix(word, last) < word.len(),
        common_prefix(word, last) < last.len(),
        word[common_prefix(word, last) as int] > last[common_prefix(word, last) as int],
        left.last().term.len() == common_prefix(word, last) < flushed.term.len(),
    ensures
        ({
            let path = left.drop_last().push(left.last().with_child(flushed));
            let m = BuilderModel::Open {
                stack: path.push(terminal_node(word, count + 1)),
                bytes: bytes,
                count: count + 1,
            };
            &&& inv(m)
            &&& keys_of(m) == (path_keys(bytes, left) + child_keys(bytes, flushed)).push(
                TerminalModel { key: word, term_id: count + 1 },
            )
        }),
{
    reveal(pending);
    let depth = common_prefix(word, last);
    let below = left.last();
    lemma_parting(below, flushed, last, word);
    assert(node_sound(below, bytes)) by {
        assert(left[left.len() - 1] == below);
    }
    let full = below.with_child(flushed);
    lemma_with_child_sound(below, flushed, bytes);
    lemma_sound_path_with_child(left, bytes, flushed);
    let path = left.drop_last().push(full);
    assert(lies_below(full, word)) by {
        assert forall|i: int| 0 <= i < full.children.len() implies (
        #[trigger] full.children[i]).term[depth as int] < word[depth as int] by {
            if i < below.children.len() {
                assert(full.children[i] == below.children[i]);
            }
        }
    }
    lemma_path_keys_push(bytes, left.drop_last(), full);
    lemma_keys_below_push(bytes, below.children, flushed);
    assert(left =~= left.drop_last().push(below));
    lemma_path_keys_push(bytes, left.drop_last(), below);
    assert(path_keys(bytes, path) =~= path_keys(bytes, left) + child_keys(bytes, flushed));
    lemma_key_on_top(path, bytes, word, count + 1);
}

/// The new key goes below the node at the depth that it shares with the key
/// before it: what holds between two keys holds once the node left last is a
/// child of that node and the node of the key is on top of the stack, and the
/// keys are those before and the new one.
pub proof fn lemma_attach(
    left: Seq<NodeModel>,
    bytes: Seq<u8>,
    flushed: ChildModel,
    last: Seq<u8>,
    count: nat,
    word: Seq<u8>,
)
    requires
        pending(left, bytes, flushed, last, count),
        count < u32::MAX,
        common_prefix(word, last) < word.len(),
        common_prefix(word, last) < last.len(),
        word[common_prefix(word, last) as int] > last[common_prefix(word, last) as int],
        left.last().term.len() <= common_prefix(word, last) < flushed.term.len(),
    ensures
        ({
            let depth = common_prefix(word, last);
            let forked = if left.last().term.len() < depth {
                left.push(fork_node(word.take(depth as int)))
            } else {
                left
            };
            let path = forked.drop_last().push(forked.last().with_child(flushed));
            let m = BuilderModel::Open {
                stack: path.push(terminal_node(word, count + 1)),
                bytes: bytes,
                count: count + 1,
            };
            &&& inv(m)
            &&& keys_of(m) == (path_keys(bytes, left) + child_keys(bytes, flushed)).push(
                TerminalModel { key: word, term_id: count + 1 },
            )
        }),
{
    let depth = common_prefix(word, last);
    if left.last().term.len() < depth {
        let fork = fork_node(word.take(depth as int));
        lemma_attach_fresh(left, bytes, flushed, last, count, word);
        assert(left.push(fork).drop_last() =~= left);
        assert(left.push(fork).last() == fork);
    } else {
        lemma_attach_there(left, bytes, flushed, last, count, word);
    }
}

/// Node `k` of a sound path lies at least `k` bytes deep.
pub proof fn lemma_path_depths(stack: Seq<NodeModel>, bytes: Seq<u8>, k: int)
    requires
        sound_path(stack, bytes),
        0 <= k < stack.len(),
    ensures
        stack[k].term.len() >= k,
    decreases k,
{
    if k > 0 {
        lemma_path_depths(stack, bytes, k - 1);
        assert(lies_below(stack[k - 1], stack[k - 1 + 1].term));
    }
}

/// The keys that were added are numbered from one.
pub proof fn lemma_keys_numbered(m: BuilderModel)
    requires
        inv(m),
    ensures
        match m {
            BuilderModel::Failed(_) => true,
            BuilderModel::Open { stack, bytes, count } => numbered(keys_of(m), count),
        },
{
    reveal(pending);
}

/// Adding a key keeps what holds between two keys. Where the key is
/// accepted, the keys are those before and the new one, and its term id is
/// their number.
#[verifier::rlimit(50)]
pub proof fn lemma_add_step(m: BuilderModel, word: Seq<u8>)
    requires
        inv(m),
    ensures
        inv(add_step(m, word).0),
        match add_step(m, word).1 {
            Ok(id) => {
                &&& m is Open
                &&& add_step(m, word).0 is Open
                &&& id == keys_of(m).len() + 1
                &&& keys_of(add_step(m, word).0) == keys_of(m).push(
                    TerminalModel { key: word, term_id: id },
                )
            },
            Err(e) => add_step(m, word).0 == BuilderModel::Failed(e),
        },
{
    reveal(pending);
    match m {
        BuilderModel::Failed(_) => {},
        BuilderModel::Open { stack, bytes, count } => {
            if key_error(last_key(stack, count), word) is None && count < u32::MAX {
                if count == 0 {
                    let root = fork_node(Seq::empty());
                    assert(stack.last() == root);
                    assert(common_prefix(word, root.term) == 0);
                    assert(sound_path(stack, bytes));
                    assert(laid(bytes, 0, 0));
                    assert(word.take(0) =~= root.term);
                    assert(path_keys(bytes, stack) =~= Seq::<TerminalModel>::empty()) by {
                        reveal_with_fuel(path_keys, 2);
                        assert(stack.drop_last() =~= Seq::<NodeModel>::empty());
                    }
                    lemma_key_on_top(stack, bytes, word, 1);
                } else {
                    let top = stack.last();
                    let last = top.term;
                    let depth = common_prefix(word, last);
                    lemma_common_prefix(word, last);
                    lemma_close_above(stack.drop_last(), bytes, top.as_child(), last, count, depth);
                    match close_above(stack.drop_last(), bytes, top.as_child(), depth) {
                        None => {},
                        Some((left, after, parent)) => {
                            lemma_attach(left, after, parent, last, count, word);
                        },
                    }
                }
            }
        },
    }
}

/// What finishing the builder returns reads back as the keys that were
/// added, and the root offset fits in 32 bits.
#[verifier::rlimit(50)]
pub proof fn lemma_finish_step(m: BuilderModel)
    requires
        inv(m),
    ensures
        match finish_step(m) {
            Ok((buf, root)) => {
                &&& m is Open
                &&& trie_entries(buf, root) == Ok::<Seq<TerminalModel>, ReadError>(keys_of(m))
                &&& laid_out(buf)
                &&& buf.len() <= MAX_OUTPUT
                &&& root <= buf.len()
                &&& (keys_of(m).len() == 0 ==> buf.len() == 0 && root == 0)
            },
            Err(e) => m == BuilderModel::Failed(e) || e == BuildError::FieldOverflow,
        },
{
    reveal(pending);
    match m {
        BuilderModel::Failed(_) => {},
        BuilderModel::Open { stack, bytes, count } => {
            if count == 0 {
                assert(laid(bytes, 0, 0));
            }
            if count > 0 {
                let top = stack.last();
                let last = top.term;
                let word = Seq::<u8>::empty();
                assert(common_prefix(word, last) == 0);
                lemma_close_above(stack.drop_last(), bytes, top.as_child(), last, count, 0);
                match close_above(stack.drop_last(), bytes, top.as_child(), 0) {
                    None => {},
                    Some((left, after, parent)) => {
                        let root = left.last();
                        let full = root.with_child(parent);
                        let path = left.drop_last().push(full);
                        assert(path.last() == full);
                        assert(left.len() == 1) by {
                            lemma_path_depths(left, after, left.len() - 1);
                        }
                        assert(node_sound(root, after)) by {
                            assert(left[0] == root);
                        }
                        lemma_with_child_sound(root, parent, after);
                        lemma_flush_walk(after, full);
                        lemma_flush_laid(after, full);
                        lemma_keys_below_push(after, root.children, parent);
                        assert(path_keys(after, left) =~= keys_below(after, root.children)) by {
                            reveal_with_fuel(path_keys, 2);
                            assert(left.drop_last() =~= Seq::<NodeModel>::empty());
                        }
                        assert(full.term =~= Seq::<u8>::empty());
                    },
                }
            }
        },
    }
}

/// The node on top of the stack can be written out with the node that left
/// last as its last child.
pub proof fn lemma_root_flushable(
    stack: Seq<NodeModel>,
    bytes: Seq<u8>,
    flushed: ChildModel,
    last: Seq<u8>,
    count: nat,
)
    requires
        pending(stack, bytes, flushed, last, count),
    ensures
        !stack.last().with_child(flushed).is_terminal,
        flushable(stack.last().with_child(flushed), bytes),
{
    reveal(pending);
    let top = stack.last();
    assert(node_sound(top, bytes)) by {
        assert(stack[stack.len() - 1] == top);
    }
    lemma_with_child_sound(top, flushed, bytes);
    lemma_flush_walk(bytes, top.with_child(flushed));
}

/// While nodes leave the stack, the node about to leave lies deeper than the
/// node on top of the stack, and is no longer than the key added last.
pub proof fn lemma_pending_depth(
    stack: Seq<NodeModel>,
    bytes: Seq<u8>,
    flushed: ChildModel,
    last: Seq<u8>,
    count: nat,
)
    requires
        pending(stack, bytes, flushed, last, count),
    ensures
        stack.len() >= 1,
        stack.last().term.len() < flushed.term.len() <= last.len(),
        stack.last().term.len() > 0 ==> stack.len() >= 2,
{
    reveal(pending);
}

/// A key is refused after another exactly where it cannot be added after
/// it.
pub proof fn lemma_key_error(prev: Seq<u8>, word: Seq<u8>)
    ensures
        key_error(Some(prev), word) is None <==> follows(prev, word),
        key_error(None, word) is None <==> word.len() > 0,
{
    lemma_common_prefix(word, prev);
}

/// The keys `keys` with their term ids: the first has the term id one.
pub open spec fn numbered_keys(keys: Seq<Seq<u8>>) -> Seq<TerminalModel> {
    Seq::new(keys.len(), |i: int| TerminalModel { key: keys[i], term_id: (i + 1) as nat })
}

/// Keys of which each can be added after the one before it are all
/// accepted, unless their number or the output outgrows 32 bits: the builder
/// then holds these keys, each with its place in the row as its term id.
#[verifier::rlimit(50)]
pub proof fn lemma_build(keys: Seq<Seq<u8>>)
    requires
        chained(keys),
    ensures
        inv(build(keys)),
        match build(keys) {
            BuilderModel::Open { stack, bytes, count } => {
                &&& keys_of(build(keys)) == numbered_keys(keys)
                &&& count == keys.len()
                &&& count > 0 ==> stack.last().term == keys.last()
            },
            BuilderModel::Failed(e) => e == BuildError::FieldOverflow,
        },
    decreases keys.len(),
{
    if keys.len() > 0 {
        let rest = keys.drop_last();
        let word = keys.last();
        assert(chained(rest)) by {
            assert forall|i: int| 0 <= i < rest.len() - 1 implies follows(
                #[trigger] rest[i],
                rest[i + 1],
            ) by {
                assert(rest[i] == keys[i]);
                assert(rest[i + 1] == keys[i + 1]);
            }
            if rest.len() > 0 {
                assert(rest[0] == keys[0]);
            }
        }
        lemma_build(rest);
        let before = build(rest);
        lemma_add_step(before, word);
        match before {
            BuilderModel::Failed(_) => {},
            BuilderModel::Open { stack, bytes, count } => {
                if count > 0 {
                    assert(rest.last() == keys[keys.len() - 2]);
                    assert(follows(keys[keys.len() - 2], keys[keys.len() - 2 + 1]));
                    lemma_key_error(stack.last().term, word);
                } else {
                    assert(word == keys[0]);
                }
                match add_step(before, word).1 {
                    Err(_) => {},
                    Ok(id) => {
                        assert(keys_of(build(keys)) =~= numbered_keys(keys));
                    },
                }
            },
        }
    } else {
        assert(keys_of(build(keys)) =~= numbered_keys(keys));
    }
}

/// Keys that a builder has accepted are keys of which each can be added
/// after the one before it; the key on top of the stack is the last of them.
pub proof fn lemma_build_open(keys: Seq<Seq<u8>>)
    requires
        build(keys) is Open,
    ensures
        chained(keys),
        match build(keys) {
            BuilderModel::Open { stack, bytes, count } => {
                &&& count == keys.len()
                &&& count > 0 ==> stack.last().term == keys.last()
            },
            BuilderModel::Failed(_) => false,
        },
    decreases keys.len(),
{
    if keys.len() > 0 {
        let rest = keys.drop_last();
        let word = keys.last();
        let before = build(rest);
        assert(add_step(before, word).0 is Open);
        lemma_build_open(rest);
        match before {
            BuilderModel::Failed(_) => {},
            BuilderModel::Open { stack, bytes, count } => {
                assert(key_error(last_key(stack, count), word) is None);
                if count > 0 {
                    lemma_key_error(stack.last().term, word);
                    assert(rest.last() == keys[keys.len() - 2]);
                }
                assert forall|i: int| 0 <= i < keys.len() - 1 implies follows(
                    #[trigger] keys[i],
                    keys[i + 1],
                ) by {
                    if i < rest.len() - 1 {
                        assert(rest[i] == keys[i]);
                        assert(rest[i + 1] == keys[i + 1]);
                    }
                }
                if rest.len() > 0 {
                    assert(rest[0] == keys[0]);
                }
            },
        }
    }
}

/// Building a trie from keys of which each can be added after the one
/// before it, and reading it, gives the keys back, each with its place in the
/// row as its term id. The construction fails only where the number of keys or
/// the output outgrows 32 bits.
pub proof fn lemma_round_trip(keys: Seq<Seq<u8>>)
    requires
        chained(keys),
    ensures
        match finish_step(build(keys)) {
            Ok((buf, root)) => trie_entries(buf, root) == Ok::<Seq<TerminalModel>, ReadError>(
                numbered_keys(keys),
            ),
            Err(e) => e == BuildError::FieldOverflow,
        },
{
    lemma_build(keys);
    lemma_finish_step(build(keys));
}

/// Building a trie from keys that ascend and end with a sentinel, and
/// reading it, gives the keys back, each with its place in the row as its term
/// id.
pub proof fn lemma_round_trip_sorted(keys: Seq<Seq<u8>>, sentinel: u8)
    requires
        sorted_with_sentinel(keys, sentinel),
    ensures
        match finish_step(build(keys)) {
            Ok((buf, root)) => trie_entries(buf, root) == Ok::<Seq<TerminalModel>, ReadError>(
                numbered_keys(keys),
            ),
            Err(e) => e == BuildError::FieldOverflow,
        },
{
    lemma_sorted_chained(keys, sentinel);
    if keys.len() > 0 {
        assert(crate::keys::ends_with(keys[0], sentinel));
    }
    lemma_round_trip(keys);
}

/// A builder that has failed stays as it is, whatever is added.
pub proof fn lemma_build_failed(keys: Seq<Seq<u8>>, k: int)
    requires
        0 <= k <= keys.len(),
        build(keys.take(k)) is Failed,
    ensures
        build(keys) == build(keys.take(k)),
    decreases keys.len() - k,
{
    if k == keys.len() {
        assert(keys.take(k) =~= keys);
    } else {
        assert(keys.take(k + 1).drop_last() =~= keys.take(k));
        lemma_build_failed(keys, k + 1);
    }
}

/// The child that the record of `c` leads to, where it holds one child
/// alone.
pub open spec fn only_child(bytes: Seq<u8>, c: ChildModel) -> Option<ChildModel> {
    if c.is_terminal {
        None
    } else {
        match record_at(bytes, c.value) {
            Err(_) => None,
            Ok(es) => if es.len() == 1 && (es[0].is_terminal || 0 < es[0].pointer <= c.value) {
                Some(
                    ChildModel {
                        term: c.term + es[0].label,
                        is_terminal: es[0].is_terminal,
                        value: if es[0].is_terminal {
                            es[0].pointer
                        } else {
                            (c.value - es[0].pointer) as nat
                        },
                    },
                )
            } else {
                None
            },
        }
    }
}

/// The child that is reached from `c` through `n` records that hold one
/// child each.
pub open spec fn descend_only(bytes: Seq<u8>, c: ChildModel, n: nat) -> Option<ChildModel>
    decreases n,
{
    if n == 0 {
        Some(c)
    } else {
        match only_child(bytes, c) {
            None => None,
            Some(below) => descend_only(bytes, below, (n - 1) as nat),
        }
    }
}

/// The number of nodes that are put on an edge of `len` bytes to make every
/// edge at most `MAX_EDGE` bytes long: `len / MAX_EDGE`, rounded up, less one.
pub open spec fn phantoms(len: nat) -> nat {
    if len == 0 {
        0
    } else {
        ((len - 1) / (MAX_EDGE as int)) as nat
    }
}

/// What is reached through records that hold one child each is reached the
/// same once the buffer has grown.
proof fn lemma_descend_only_grows(before: Seq<u8>, after: Seq<u8>, c: ChildModel, n: nat)
    requires
        grows(before, after),
        descend_only(before, c, n) is Some,
    ensures
        descend_only(after, c, n) == descend_only(before, c, n),
    decreases n,
{
    if n > 0 {
        lemma_record_at_grows(before, after, c.value);
        lemma_descend_only_grows(before, after, only_child(before, c)->Some_0, (n - 1) as nat);
    }
}

/// An edge of `len` bytes to a child is made short enough by exactly
/// `phantoms(len)` nodes: so many records are written, one behind the other,
/// each holds one child alone, and through them the child that takes the
/// place of the first leads to it.
#[verifier::rlimit(50)]
pub proof fn lemma_phantom_chain(bytes: Seq<u8>, depth: nat, c: ChildModel)
    requires
        child_fits(c, depth, bytes),
        bytes.len() <= MAX_OUTPUT,
    ensures
        match shorten(bytes, depth, c, MAX_EDGE as nat) {
            Some((after, short)) => {
                let n = phantoms((c.term.len() - depth) as nat);
                &&& laid(after, bytes.len(), n)
                &&& descend_only(after, short, n) == Some(c)
            },
            None => true,
        },
    decreases c.term.len() - depth,
{
    let len = (c.term.len() - depth) as nat;
    if c.term.len() > depth + MAX_EDGE {
        let cut = (depth + MAX_EDGE) as nat;
        lemma_phantom_chain(bytes, cut, c);
        lemma_shorten(bytes, cut, c, MAX_EDGE as nat);
        match shorten(bytes, cut, c, MAX_EDGE as nat) {
            None => {},
            Some((below, only)) => {
                let e = edge_of(only, cut, below.len());
                let es = seq![e];
                lemma_edge_of_ok(only, cut, below);
                match put_record(below, es) {
                    None => {},
                    Some(after) => {
                        let short = ChildModel {
                            term: c.term.take(cut as int),
                            is_terminal: false,
                            value: below.len(),
                        };
                        let n = phantoms(len);
                        let m = phantoms((c.term.len() - cut) as nat);
                        assert(n == m + 1);
                        lemma_laid_within(below, bytes.len(), m);
                        lemma_laid_more(below, bytes.len(), m, es);
                        assert(after.skip(below.len() as int) =~= record_bytes(es) + Seq::<
                            u8,
                        >::empty());
                        lemma_parse_written(es, Seq::<u8>::empty());
                        assert(c.term.take(cut as int) + only.term.skip(cut as int)
                            =~= only.term) by {
                            assert(only.term.take(cut as int) =~= c.term.take(cut as int));
                        }
                        assert(only_child(after, short) == Some(only));
                        assert(after.take(below.len() as int) =~= below);
                        lemma_descend_only_grows(below, after, only, m);
                    },
                }
            },
        }
    }
}

} // verus!
