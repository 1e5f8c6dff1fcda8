//! What the builder computes, on sequences: the steps of the construction
//! from one state of the builder to the next.

use crate::error::BuildError;
use crate::keys::common_prefix;
use crate::node::{fork_node, terminal_node, ChildModel, NodeModel};
use crate::record::{
    edge_ok, edges_ok, header_len, lemma_header_bits_len, record_bytes, EdgeModel, MAX_CHILDREN,
    MAX_EDGE,
};
use vstd::prelude::*;

verus! {

/// The most bytes that the output can hold: offsets are 32 bits wide.
pub const MAX_OUTPUT: usize = 0xffff_ffff;

/// What the record at offset `at` of a node at depth `depth` says of its
/// child `c`: the label is what the child's term adds to the node's, and the
/// pointer is the term id of a key and the distance back to another record.
pub open spec fn edge_of(c: ChildModel, depth: nat, at: nat) -> EdgeModel {
    EdgeModel {
        is_terminal: c.is_terminal,
        label: c.term.skip(depth as int),
        pointer: if c.is_terminal {
            c.value
        } else {
            (at - c.value) as nat
        },
    }
}

/// What the record at offset `at` of a node at depth `depth` says of its
/// children `cs`.
pub open spec fn edges_of(cs: Seq<ChildModel>, depth: nat, at: nat) -> Seq<EdgeModel> {
    Seq::new(cs.len(), |i: int| edge_of(cs[i], depth, at))
}

/// The output with one more record at its end, or `None` where it would
/// outgrow `MAX_OUTPUT`.
pub open spec fn put_record(bytes: Seq<u8>, es: Seq<EdgeModel>) -> Option<Seq<u8>> {
    if bytes.len() + record_bytes(es).len() > MAX_OUTPUT {
        None
    } else {
        Some(bytes + record_bytes(es))
    }
}

/// Makes the edge from a node at depth `depth` to its child `c` at most
/// `maxlen` bytes long.
///
/// Where it is longer, a node with `c` as its only child is put `maxlen`
/// bytes below the node and written out, with its own edge made short enough
/// in the same way but to `MAX_EDGE` bytes; that node takes the place of `c`.
/// Gives the output and the child afterwards, or `None` where the output would
/// outgrow `MAX_OUTPUT`.
pub open spec fn shorten(bytes: Seq<u8>, depth: nat, c: ChildModel, maxlen: nat) -> Option<
    (Seq<u8>, ChildModel),
>
    decreases c.term.len() - depth,
{
    if maxlen >= 1 && c.term.len() > depth + maxlen {
        let cut = depth + maxlen;
        match shorten(bytes, cut, c, MAX_EDGE as nat) {
            None => None,
            Some((below, only)) => match put_record(below, seq![edge_of(only, cut, below.len())]) {
                None => None,
                Some(after) => Some(
                    (
                        after,
                        ChildModel {
                            term: c.term.take(cut as int),
                            is_terminal: false,
                            value: below.len(),
                        },
                    ),
                ),
            },
        }
    } else {
        Some((bytes, c))
    }
}

/// Makes the edges from a node at depth `depth` to its children `cs` at most
/// `maxlen` bytes long, one child after the other.
pub open spec fn shorten_all(
    bytes: Seq<u8>,
    depth: nat,
    cs: Seq<ChildModel>,
    maxlen: nat,
) -> Option<(Seq<u8>, Seq<ChildModel>)>
    decreases cs.len(),
{
    if cs.len() == 0 {
        Some((bytes, Seq::empty()))
    } else {
        match shorten_all(bytes, depth, cs.drop_last(), maxlen) {
            None => None,
            Some((before, done)) => match shorten(before, depth, cs.last(), maxlen) {
                None => None,
                Some((after, c)) => Some((after, done.push(c))),
            },
        }
    }
}

/// Writes out a node that is no key and whose children are complete: its edges
/// are made at most `MAX_EDGE` bytes long, then its record follows. Gives the
/// output afterwards and the offset of the record, or `None` where the output
/// would outgrow `MAX_OUTPUT`.
pub open spec fn flush(bytes: Seq<u8>, node: NodeModel) -> Option<(Seq<u8>, nat)> {
    match shorten_all(bytes, node.term.len(), node.children, MAX_EDGE as nat) {
        None => None,
        Some((below, cs)) => match put_record(below, edges_of(cs, node.term.len(), below.len())) {
            None => None,
            Some(after) => Some((after, below.len())),
        },
    }
}

/// A node once it is complete, as a child: a key as it is, another node
/// written out.
pub open spec fn complete(bytes: Seq<u8>, node: NodeModel) -> Option<(Seq<u8>, ChildModel)> {
    if node.is_terminal {
        Some((bytes, node.as_child()))
    } else {
        match flush(bytes, node) {
            None => None,
            Some((after, at)) => Some(
                (after, ChildModel { term: node.term, is_terminal: false, value: at }),
            ),
        }
    }
}

/// Leaves the nodes on the stack that lie deeper than `depth`, from the top:
/// each takes the node that was left before it, `flushed`, as its last child
/// and is complete with it. Gives the stack, the output and the node left last,
/// or `None` where the output would outgrow `MAX_OUTPUT`.
pub open spec fn close_above(
    stack: Seq<NodeModel>,
    bytes: Seq<u8>,
    flushed: ChildModel,
    depth: nat,
) -> Option<(Seq<NodeModel>, Seq<u8>, ChildModel)>
    decreases stack.len(),
{
    if stack.len() > 0 && stack.last().term.len() > depth {
        match complete(bytes, stack.last().with_child(flushed)) {
            None => None,
            Some((after, parent)) => close_above(stack.drop_last(), after, parent, depth),
        }
    } else {
        Some((stack, bytes, flushed))
    }
}

/// Makes room on the stack for a key that shares `depth` bytes with the key
/// on top of it, where that key is longer: the key on top and the nodes deeper
/// than `depth` leave the stack, a node at `depth` is put on it unless there is
/// one, and that node takes the node left last as its child.
pub open spec fn descend(stack: Seq<NodeModel>, bytes: Seq<u8>, word: Seq<u8>) -> Option<
    (Seq<NodeModel>, Seq<u8>),
> {
    let top = stack.last();
    let depth = common_prefix(word, top.term);
    if depth < top.term.len() {
        match close_above(stack.drop_last(), bytes, top.as_child(), depth) {
            None => None,
            Some((left, after, flushed)) => {
                let forked = if left.last().term.len() < depth {
                    left.push(fork_node(word.take(depth as int)))
                } else {
                    left
                };
                Some((forked.drop_last().push(forked.last().with_child(flushed)), after))
            },
        }
    } else {
        Some((stack, bytes))
    }
}

/// Why `word` cannot follow the key `last`, if it cannot: a key is not empty,
/// it is no prefix of the key before it nor that one of it, and it is larger.
pub open spec fn key_error(last: Option<Seq<u8>>, word: Seq<u8>) -> Option<BuildError> {
    if word.len() == 0 {
        Some(BuildError::PrefixKey)
    } else {
        match last {
            None => None,
            Some(prev) => {
                let p = common_prefix(word, prev);
                if p == prev.len() || p == word.len() {
                    Some(BuildError::PrefixKey)
                } else if word[p as int] < prev[p as int] {
                    Some(BuildError::OutOfOrderKey)
                } else {
                    None
                }
            },
        }
    }
}

/// A state of the builder.
pub enum BuilderModel {
    /// The builder has failed and accepts nothing more.
    Failed(BuildError),
    /// The builder accepts keys: `stack` is the path to the last key, `bytes`
    /// the output so far, `count` the number of keys so far.
    Open { stack: Seq<NodeModel>, bytes: Seq<u8>, count: nat },
}

/// The builder before the first key: the root alone, and no output.
pub open spec fn start() -> BuilderModel {
    BuilderModel::Open { stack: seq![fork_node(Seq::empty())], bytes: Seq::empty(), count: 0 }
}

/// The key that was added last, if there is one.
pub open spec fn last_key(stack: Seq<NodeModel>, count: nat) -> Option<Seq<u8>> {
    if count == 0 {
        None
    } else {
        Some(stack.last().term)
    }
}

/// The builder after `word` is added, and what adding it returns: the term
/// id of `word`, or why the builder failed.
pub open spec fn add_step(m: BuilderModel, word: Seq<u8>) -> (
    BuilderModel,
    Result<nat, BuildError>,
) {
    match m {
        BuilderModel::Failed(e) => (m, Err(e)),
        BuilderModel::Open { stack, bytes, count } => match key_error(
            last_key(stack, count),
            word,
        ) {
            Some(e) => (BuilderModel::Failed(e), Err(e)),
            None => if count >= u32::MAX {
                (BuilderModel::Failed(BuildError::FieldOverflow), Err(BuildError::FieldOverflow))
            } else {
                match descend(stack, bytes, word) {
                    None => (
                        BuilderModel::Failed(BuildError::FieldOverflow),
                        Err(BuildError::FieldOverflow),
                    ),
                    Some((path, after)) => (
                        BuilderModel::Open {
                            stack: path.push(terminal_node(word, count + 1)),
                            bytes: after,
                            count: count + 1,
                        },
                        Ok(count + 1),
                    ),
                }
            },
        },
    }
}

/// What finishing the builder returns: the output and the offset of the root
/// record in it, or why the builder failed. Without keys the output is left as
/// it is, and the offset is zero.
pub open spec fn finish_step(m: BuilderModel) -> Result<(Seq<u8>, nat), BuildError> {
    match m {
        BuilderModel::Failed(e) => Err(e),
        BuilderModel::Open { stack, bytes, count } => if count == 0 {
            Ok((bytes, 0))
        } else {
            match descend(stack, bytes, Seq::empty()) {
                None => Err(BuildError::FieldOverflow),
                Some((path, after)) => match flush(after, path.last()) {
                    None => Err(BuildError::FieldOverflow),
                    Some((done, root)) => Ok((done, root)),
                },
            }
        },
    }
}

/// The builder after the keys `keys` are added in turn.
pub open spec fn build(keys: Seq<Seq<u8>>) -> BuilderModel
    decreases keys.len(),
{
    if keys.len() == 0 {
        start()
    } else {
        add_step(build(keys.drop_last()), keys.last()).0
    }
}

/// A child that a node at depth `depth` can hold when the output is `bytes`:
/// it lies deeper than the node, a key has a term id that is not zero, and the
/// record of another child lies in the output.
pub open spec fn child_fits(c: ChildModel, depth: nat, bytes: Seq<u8>) -> bool {
    child_within(c, depth, bytes.len())
}

/// A child that a node at depth `depth` can hold when the output is `limit`
/// bytes long.
pub open spec fn child_within(c: ChildModel, depth: nat, limit: nat) -> bool {
    &&& c.term.len() > depth
    &&& c.is_terminal ==> 1 <= c.value <= u32::MAX
    &&& !c.is_terminal ==> c.value < limit
}

/// A node that can be written out behind `bytes`: it has between 1 and
/// `MAX_CHILDREN` children, each of which it can hold.
pub open spec fn flushable(node: NodeModel, bytes: Seq<u8>) -> bool {
    &&& 1 <= node.children.len() <= MAX_CHILDREN
    &&& bytes.len() <= MAX_OUTPUT
    &&& forall|i: int|
        0 <= i < node.children.len() ==> child_fits(
            #[trigger] node.children[i],
            node.term.len(),
            bytes,
        )
}

/// `after` is `before` with more bytes at its end.
pub open spec fn grows(before: Seq<u8>, after: Seq<u8>) -> bool {
    &&& before.len() <= after.len()
    &&& after.take(before.len() as int) == before
}

/// The length of the longest term among `cs`.
pub open spec fn deepest(cs: Seq<ChildModel>) -> nat
    decreases cs.len(),
{
    if cs.len() == 0 {
        0
    } else if cs.last().term.len() > deepest(cs.drop_last()) {
        cs.last().term.len()
    } else {
        deepest(cs.drop_last())
    }
}

/// No term among `cs` is longer than the longest.
pub proof fn lemma_deepest(cs: Seq<ChildModel>, i: int)
    requires
        0 <= i < cs.len(),
    ensures
        cs[i].term.len() <= deepest(cs),
    decreases cs.len(),
{
    if i < cs.len() - 1 {
        lemma_deepest(cs.drop_last(), i);
    }
}

/// The edge to a child that a node can hold, and that lies at most
/// `MAX_EDGE` bytes below it, is one that a record can hold.
pub proof fn lemma_edge_of_ok(c: ChildModel, depth: nat, bytes: Seq<u8>)
    requires
        child_fits(c, depth, bytes),
        c.term.len() <= depth + MAX_EDGE,
        bytes.len() <= MAX_OUTPUT,
    ensures
        edge_ok(edge_of(c, depth, bytes.len())),
{
}

/// A record is not empty.
pub proof fn lemma_record_not_empty(es: Seq<EdgeModel>)
    ensures
        record_bytes(es).len() >= header_len(es.len()),
        header_len(es.len()) >= 1,
{
    lemma_header_bits_len(es);
}

/// What making an edge short enough keeps and what it reaches: the output
/// grows, the child that comes out can be held and lies at most `maxlen` bytes
/// below the node, its term starts the term of the child that went in, and a
/// child that was near enough is left as it is.
#[verifier::rlimit(50)]
pub proof fn lemma_shorten(bytes: Seq<u8>, depth: nat, c: ChildModel, maxlen: nat)
    requires
        child_fits(c, depth, bytes),
        1 <= maxlen <= MAX_EDGE,
        bytes.len() <= MAX_OUTPUT,
    ensures
        match shorten(bytes, depth, c, maxlen) {
            Some((after, short)) => {
                &&& grows(bytes, after)
                &&& after.len() <= MAX_OUTPUT
                &&& child_fits(short, depth, after)
                &&& short.term.len() <= depth + maxlen
                &&& short.term.len() <= c.term.len()
                &&& short.term == c.term.take(short.term.len() as int)
                &&& (c.term.len() <= depth + maxlen ==> short == c && after == bytes)
                &&& (c.term.len() > depth + maxlen ==> !short.is_terminal && short.term.len()
                    == depth + maxlen)
            },
            None => true,
        },
    decreases c.term.len() - depth,
{
    if c.term.len() > depth + maxlen {
        let cut = depth + maxlen;
        lemma_shorten(bytes, cut, c, MAX_EDGE as nat);
        match shorten(bytes, cut, c, MAX_EDGE as nat) {
            None => {},
            Some((below, only)) => {
                let es = seq![edge_of(only, cut, below.len())];
                lemma_edge_of_ok(only, cut, below);
                lemma_record_not_empty(es);
                match put_record(below, es) {
                    None => {},
                    Some(after) => {
                        assert(after.take(bytes.len() as int) =~= below.take(bytes.len() as int));
                    },
                }
            },
        }
    } else {
        assert(bytes.take(bytes.len() as int) =~= bytes);
        assert(c.term.take(c.term.len() as int) =~= c.term);
    }
}

/// A child that a node can hold, it can hold when the output has grown.
pub proof fn lemma_child_fits_grows(c: ChildModel, depth: nat, before: Seq<u8>, after: Seq<u8>)
    requires
        child_fits(c, depth, before),
        before.len() <= after.len(),
    ensures
        child_fits(c, depth, after),
{
}

/// What making the edges to all children short enough keeps and what it
/// reaches: as for one child, for each.
#[verifier::rlimit(50)]
pub proof fn lemma_shorten_all(bytes: Seq<u8>, depth: nat, cs: Seq<ChildModel>, maxlen: nat)
    requires
        forall|i: int| 0 <= i < cs.len() ==> child_fits(#[trigger] cs[i], depth, bytes),
        1 <= maxlen <= MAX_EDGE,
        bytes.len() <= MAX_OUTPUT,
    ensures
        match shorten_all(bytes, depth, cs, maxlen) {
            Some((after, short)) => {
                &&& grows(bytes, after)
                &&& after.len() <= MAX_OUTPUT
                &&& short.len() == cs.len()
                &&& forall|i: int|
                    0 <= i < cs.len() ==> {
                        &&& child_fits(#[trigger] short[i], depth, after)
                        &&& short[i].term.len() <= depth + maxlen
                        &&& short[i].term.len() <= cs[i].term.len()
                        &&& short[i].term == cs[i].term.take(short[i].term.len() as int)
                    }
            },
            None => true,
        },
    decreases cs.len(),
{
    if cs.len() == 0 {
        assert(bytes.take(bytes.len() as int) =~= bytes);
    } else {
        let rest = cs.drop_last();
        lemma_shorten_all(bytes, depth, rest, maxlen);
        match shorten_all(bytes, depth, rest, maxlen) {
            None => {},
            Some((before, done)) => {
                lemma_child_fits_grows(cs.last(), depth, bytes, before);
                lemma_shorten(before, depth, cs.last(), maxlen);
                match shorten(before, depth, cs.last(), maxlen) {
                    None => {},
                    Some((after, c)) => {
                        assert(after.take(bytes.len() as int) =~= before.take(bytes.len() as int));
                        let short = done.push(c);
                        assert forall|i: int| 0 <= i < cs.len() implies {
                            &&& child_fits(#[trigger] short[i], depth, after)
                            &&& short[i].term.len() <= depth + maxlen
                            &&& short[i].term.len() <= cs[i].term.len()
                            &&& short[i].term == cs[i].term.take(short[i].term.len() as int)
                        } by {
                            if i < rest.len() {
                                assert(short[i] == done[i]);
                                lemma_child_fits_grows(done[i], depth, before, after);
                            }
                        }
                    },
                }
            },
        }
    }
}

/// The edges to children that a node can hold, and that lie at most
/// `MAX_EDGE` bytes below it, make a record.
pub proof fn lemma_edges_of_ok(cs: Seq<ChildModel>, depth: nat, bytes: Seq<u8>)
    requires
        1 <= cs.len() <= MAX_CHILDREN,
        bytes.len() <= MAX_OUTPUT,
        forall|i: int|
            0 <= i < cs.len() ==> child_fits(#[trigger] cs[i], depth, bytes) && cs[i].term.len()
                <= depth + MAX_EDGE,
    ensures
        edges_ok(edges_of(cs, depth, bytes.len())),
{
    let es = edges_of(cs, depth, bytes.len());
    assert forall|i: int| 0 <= i < es.len() implies edge_ok(#[trigger] es[i]) by {
        lemma_edge_of_ok(cs[i], depth, bytes);
    }
}

/// Writing out a node with one child is making the edge to that child short
/// enough and writing a record with that edge alone.
pub proof fn lemma_complete_only(bytes: Seq<u8>, node: NodeModel, c: ChildModel)
    requires
        !node.is_terminal,
        node.children == seq![c],
    ensures
        complete(bytes, node) == match shorten(bytes, node.term.len(), c, MAX_EDGE as nat) {
            None => None,
            Some((below, only)) => match put_record(
                below,
                seq![edge_of(only, node.term.len(), below.len())],
            ) {
                None => None,
                Some(after) => Some(
                    (after, ChildModel { term: node.term, is_terminal: false, value: below.len() }),
                ),
            },
        },
{
    let cut = node.term.len();
    assert(node.children.drop_last() =~= Seq::<ChildModel>::empty());
    assert(node.children.last() == c);
    reveal_with_fuel(shorten_all, 2);
    match shorten(bytes, cut, c, MAX_EDGE as nat) {
        None => {},
        Some((below, only)) => {
            assert(Seq::<ChildModel>::empty().push(only) =~= seq![only]);
            assert(edges_of(seq![only], cut, below.len()) =~= seq![
                edge_of(only, cut, below.len()),
            ]);
        },
    }
}

/// Where the output outgrows its limit at one of the first children, it
/// does so for all.
pub proof fn lemma_shorten_all_fails(
    bytes: Seq<u8>,
    depth: nat,
    cs: Seq<ChildModel>,
    maxlen: nat,
    k: int,
)
    requires
        0 <= k <= cs.len(),
        shorten_all(bytes, depth, cs.take(k), maxlen) is None,
    ensures
        shorten_all(bytes, depth, cs, maxlen) is None,
    decreases cs.len() - k,
{
    if k == cs.len() {
        assert(cs.take(k) =~= cs);
    } else {
        assert(cs.take(k + 1).drop_last() =~= cs.take(k));
        lemma_shorten_all_fails(bytes, depth, cs, maxlen, k + 1);
    }
}

} // verus!
