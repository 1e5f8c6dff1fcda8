//! Groups of keys by frequency: a key that occurs often makes a group of its
//! own, and keys that occur rarely are gathered up the trie until together
//! they occur often enough.

use crate::node::TrieNode;
use vstd::prelude::*;

verus! {

/// The groups made so far: for each term id its group, zero where it has
/// none; the number of the group made last; and whether something did not fit:
/// a group beyond number 65535, a term id beyond the map, or a sum of
/// frequencies beyond 32 bits.
pub struct GroupsModel {
    pub map: Seq<u16>,
    pub id: nat,
    pub failed: bool,
}

/// The groups with the term `term_id` put in the group made last.
pub open spec fn tag(g: GroupsModel, term_id: nat) -> GroupsModel {
    if term_id < g.map.len() {
        GroupsModel { map: g.map.update(term_id as int, g.id as u16), ..g }
    } else {
        GroupsModel { failed: true, ..g }
    }
}

/// The groups with the terms of `tags` put in the group made last.
pub open spec fn tag_all(g: GroupsModel, tags: Seq<(u32, u32)>) -> GroupsModel
    decreases tags.len(),
{
    if tags.len() == 0 {
        g
    } else {
        tag(tag_all(g, tags.drop_last()), tags.last().0 as nat)
    }
}

/// The groups with one group more, which is empty.
pub open spec fn open_group(g: GroupsModel) -> GroupsModel {
    if g.id < u16::MAX {
        GroupsModel { id: g.id + 1, ..g }
    } else {
        GroupsModel { failed: true, ..g }
    }
}

/// What grouping reads of a node.
pub struct Tagged {
    pub is_terminal: bool,
    pub term_id: u32,
    pub frequency: u32,
    pub tags: Seq<(u32, u32)>,
}

/// What grouping reads of `node`.
pub open spec fn tagged(node: TrieNode) -> Tagged {
    Tagged {
        is_terminal: node.is_terminal,
        term_id: node.term_id,
        frequency: node.frequency,
        tags: node.children_not_yet_tagged@,
    }
}

/// What grouping reads of a row of nodes.
pub open spec fn all_tagged(nodes: Seq<TrieNode>) -> Seq<Tagged> {
    Seq::new(nodes.len(), |i: int| tagged(nodes[i]))
}

/// The groups with one group more, made of the node itself, where it is a
/// key, and of the keys below it that were in no group yet.
pub open spec fn group_of(g: GroupsModel, node: Tagged) -> GroupsModel {
    let opened = open_group(g);
    let own = if node.is_terminal {
        tag(opened, node.term_id as nat)
    } else {
        opened
    };
    tag_all(own, node.tags)
}

/// What becomes of the groups `g` and of the keys `tags` of a node that are
/// in no group yet, when its children `cs` are gone through.
///
/// A child that occurs more often than `threshold` makes a group of its own.
/// Of another, the frequency is added up, and the keys below it that are in no
/// group yet, and the child itself where it is a key, join those of the node.
pub open spec fn assign(g: GroupsModel, tags: Seq<(u32, u32)>, cs: Seq<Tagged>, threshold: u32) -> (
    GroupsModel,
    nat,
    Seq<(u32, u32)>,
)
    decreases cs.len(),
{
    if cs.len() == 0 {
        (g, 0, tags)
    } else {
        let (h, sum, ts) = assign(g, tags, cs.drop_last(), threshold);
        let c = cs.last();
        if c.frequency > threshold {
            (group_of(h, c), sum, ts)
        } else {
            (
                h,
                sum + c.frequency as nat,
                ts + c.tags + if c.is_terminal {
                    seq![(c.term_id, c.frequency)]
                } else {
                    Seq::<(u32, u32)>::empty()
                },
            )
        }
    }
}

/// The child as it is left: one that made a group of its own has no keys
/// without a group any more.
pub open spec fn left_as(c: Tagged, threshold: u32) -> Tagged {
    if c.frequency > threshold {
        Tagged { tags: Seq::empty(), ..c }
    } else {
        c
    }
}

/// What grouping reads of a node on the stack: of the node itself, and of
/// the children that it has collected.
pub struct Gathered {
    pub own: Tagged,
    pub kids: Seq<Tagged>,
}

/// What grouping reads of `node` on the stack.
pub open spec fn gathered(node: TrieNode) -> Gathered {
    Gathered { own: tagged(node), kids: all_tagged(node.children@) }
}

/// What grouping reads of the nodes on the stack.
pub open spec fn all_gathered(nodes: Seq<TrieNode>) -> Seq<Gathered> {
    Seq::new(nodes.len(), |i: int| gathered(nodes[i]))
}

/// What grouping reads of the node of a key that occurs `frequency` times.
pub open spec fn key_gathered(term_id: u32, frequency: u32) -> Gathered {
    Gathered {
        own: Tagged {
            is_terminal: true,
            term_id: term_id,
            frequency: frequency,
            tags: Seq::empty(),
        },
        kids: Seq::empty(),
    }
}

/// What grouping reads of a node that is put on the stack for a fork.
pub open spec fn fork_gathered() -> Gathered {
    Gathered {
        own: Tagged { is_terminal: false, term_id: 0, frequency: 0, tags: Seq::empty() },
        kids: Seq::empty(),
    }
}

/// The groups, and a node as its parent sees it, once the node is complete
/// with the children `kids`: where groups are made above the frequency
/// `limit`, its children are gone through; else nothing changes.
pub open spec fn leave_grouped(
    g: GroupsModel,
    own: Tagged,
    kids: Seq<Tagged>,
    limit: Option<u32>,
) -> (GroupsModel, Tagged) {
    match limit {
        None => (g, own),
        Some(threshold) => {
            let went = assign(g, own.tags, kids, threshold);
            let total = own.frequency + went.1;
            (
                GroupsModel { failed: went.0.failed || total > u32::MAX, ..went.0 },
                Tagged {
                    frequency: if total > u32::MAX {
                        u32::MAX
                    } else {
                        total as u32
                    },
                    tags: went.2,
                    ..own
                },
            )
        },
    }
}

/// The stack with the depths of its nodes, the groups and the node left
/// last, once the nodes have left the stack that lie deeper than `depth`: each
/// takes the node that left before it, `flushed`, as its last child and is
/// complete with it. `depths` holds the depth of each node of the stack.
pub open spec fn close_grouped(
    stack: Seq<Gathered>,
    depths: Seq<nat>,
    g: GroupsModel,
    flushed: Tagged,
    depth: nat,
    limit: Option<u32>,
) -> (Seq<Gathered>, Seq<nat>, GroupsModel, Tagged)
    decreases stack.len(),
{
    if stack.len() > 0 && depths.len() == stack.len() && depths.last() > depth {
        let top = stack.last();
        let (h, parent) = leave_grouped(g, top.own, top.kids.push(flushed), limit);
        close_grouped(stack.drop_last(), depths.drop_last(), h, parent, depth, limit)
    } else {
        (stack, depths, g, flushed)
    }
}

/// The stack with `c` as one more child of the node on top.
pub open spec fn with_kid(stack: Seq<Gathered>, c: Tagged) -> Seq<Gathered> {
    stack.drop_last().push(Gathered { kids: stack.last().kids.push(c), ..stack.last() })
}

/// The stack and the groups after a key is added that shares `shared`
/// bytes with the key on top of the stack, gets the term id `term_id` and
/// occurs `frequency` times.
pub open spec fn add_grouped(
    stack: Seq<Gathered>,
    depths: Seq<nat>,
    g: GroupsModel,
    limit: Option<u32>,
    shared: nat,
    term_id: u32,
    frequency: u32,
) -> (Seq<Gathered>, GroupsModel) {
    if shared < depths.last() {
        let (left, above, h, parent) = close_grouped(
            stack.drop_last(),
            depths.drop_last(),
            g,
            stack.last().own,
            shared,
            limit,
        );
        let forked = if above.last() < shared {
            left.push(fork_gathered())
        } else {
            left
        };
        (with_kid(forked, parent).push(key_gathered(term_id, frequency)), h)
    } else {
        (stack.push(key_gathered(term_id, frequency)), g)
    }
}

/// The groups once the root is complete with `flushed` as its last child:
/// where groups are made, the root makes the last group.
pub open spec fn root_grouped(
    g: GroupsModel,
    root: Gathered,
    flushed: Tagged,
    limit: Option<u32>,
) -> GroupsModel {
    let (h, left) = leave_grouped(g, root.own, root.kids.push(flushed), limit);
    match limit {
        Some(_) => group_of(h, left),
        None => h,
    }
}

/// The groups after the construction is finished, with keys on the stack.
pub open spec fn finish_grouped(
    stack: Seq<Gathered>,
    depths: Seq<nat>,
    g: GroupsModel,
    limit: Option<u32>,
) -> GroupsModel {
    let (left, above, h, parent) = close_grouped(
        stack.drop_last(),
        depths.drop_last(),
        g,
        stack.last().own,
        0,
        limit,
    );
    root_grouped(h, left.last(), parent, limit)
}

/// The groups of the keys of a trie.
pub struct Groups {
    group_map: Vec<u16>,
    group_id: u16,
    failed: bool,
}

impl View for Groups {
    type V = GroupsModel;

    closed spec fn view(&self) -> GroupsModel {
        GroupsModel { map: self.group_map@, id: self.group_id as nat, failed: self.failed }
    }
}

impl Groups {
    /// No groups yet, for term ids up to `num_words`.
    pub fn new(num_words: usize) -> (g: Groups)
        requires
            num_words < usize::MAX,
        ensures
            g@ == (GroupsModel {
                map: Seq::new((num_words + 1) as nat, |i: int| 0u16),
                id: 0,
                failed: false,
            }),
    {
        let mut group_map: Vec<u16> = Vec::new();
        let mut i: usize = 0;
        while i <= num_words
            invariant
                i <= num_words + 1,
                num_words < usize::MAX,
                group_map@ == Seq::new(i as nat, |i: int| 0u16),
            decreases num_words + 1 - i,
        {
            group_map.push(0);
            proof {
                assert(group_map@ =~= Seq::new((i + 1) as nat, |i: int| 0u16));
            }
            i = i + 1;
        }
        Groups { group_map: group_map, group_id: 0, failed: false }
    }

    /// The group of each term id; zero where it has none.
    pub fn group_map(&self) -> (map: &Vec<u16>)
        ensures
            map@ == self@.map,
    {
        &self.group_map
    }

    /// The number of the group made last.
    pub fn group_id(&self) -> (id: u16)
        ensures
            id == self@.id,
    {
        self.group_id
    }

    /// Whether something did not fit.
    pub fn failed(&self) -> (failed: bool)
        ensures
            failed == self@.failed,
    {
        self.failed
    }

    /// Puts the term `term_id` in the group made last.
    fn tag(&mut self, term_id: u32)
        ensures
            final(self)@ == tag(old(self)@, term_id as nat),
    {
        if (term_id as usize) < self.group_map.len() {
            self.group_map.set(term_id as usize, self.group_id);
        } else {
            self.failed = true;
        }
    }

    /// Makes a group of `node`, where it is a key, and of the keys below it
    /// that are in no group yet; these are in a group afterwards.
    pub fn create_group(&mut self, node: &mut TrieNode)
        ensures
            final(self)@ == group_of(old(self)@, tagged(*old(node))),
            final(node).children_not_yet_tagged@ == Seq::<(u32, u32)>::empty(),
            final(node).prefix_len == old(node).prefix_len,
            final(node).term_id == old(node).term_id,
            final(node).term == old(node).term,
            final(node).ptr == old(node).ptr,
            final(node).is_terminal == old(node).is_terminal,
            final(node).frequency == old(node).frequency,
            final(node).children == old(node).children,
    {
        if self.group_id == u16::MAX {
            self.failed = true;
        } else {
            self.group_id = self.group_id + 1;
        }
        if node.is_terminal {
            self.tag(node.term_id);
        }
        let ghost own = self@;
        let ghost tags = node.children_not_yet_tagged@;
        let mut i: usize = 0;
        proof {
            assert(tags.take(0) =~= Seq::<(u32, u32)>::empty());
        }
        while i < node.children_not_yet_tagged.len()
            invariant
                i <= tags.len(),
                tags == node.children_not_yet_tagged@,
                self@ == tag_all(own, tags.take(i as int)),
            decreases tags.len() - i,
        {
            let t = node.children_not_yet_tagged[i];
            proof {
                assert(tags.take(i + 1).drop_last() =~= tags.take(i as int));
                assert(tags.take(i + 1).last() == t);
            }
            self.tag(t.0);
            i = i + 1;
        }
        proof {
            assert(tags.take(i as int) =~= tags);
        }
        node.children_not_yet_tagged = Vec::new();
        proof {
            assert(node.children_not_yet_tagged@ =~= Seq::<(u32, u32)>::empty());
        }
    }

    /// Goes through the children of `node`, which are complete: a child
    /// that occurs more often than `threshold` makes a group of its own; of
    /// the others the frequencies are added to that of `node`, and their keys
    /// without a group join those of `node`.
    ///
    /// A sum beyond 32 bits stays at the largest number of 32 bits and is
    /// recorded as a failure.
    #[verifier::rlimit(50)]
    pub fn assign_group(&mut self, node: &mut TrieNode, threshold: u32)
        ensures
            ({
                let went = assign(
                    old(self)@,
                    old(node).children_not_yet_tagged@,
                    all_tagged(old(node).children@),
                    threshold,
                );
                let total = old(node).frequency + went.1;
                &&& final(self)@ == (GroupsModel {
                    failed: went.0.failed || total > u32::MAX,
                    ..went.0
                })
                &&& final(node).frequency == if total > u32::MAX {
                    u32::MAX as int
                } else {
                    total
                }
                &&& final(node).children_not_yet_tagged@ == went.2
            }),
            final(node).prefix_len == old(node).prefix_len,
            final(node).term_id == old(node).term_id,
            final(node).term == old(node).term,
            final(node).ptr == old(node).ptr,
            final(node).is_terminal == old(node).is_terminal,
            final(node).children@.len() == old(node).children@.len(),
            forall|i: int|
                0 <= i < old(node).children@.len() ==> {
                    let before = #[trigger] old(node).children@[i];
                    let after = final(node).children@[i];
                    &&& tagged(after) == left_as(tagged(before), threshold)
                    &&& after.prefix_len == before.prefix_len
                    &&& after.term == before.term
                    &&& after.ptr == before.ptr
                    &&& after.children == before.children
                },
    {
        let ghost given = node.children@;
        let ghost g0 = self@;
        let ghost tags0 = node.children_not_yet_tagged@;
        let mut sum: u32 = 0;
        let mut over: bool = false;
        let mut i: usize = 0;
        proof {
            assert(all_tagged(given).take(0) =~= Seq::<Tagged>::empty());
        }
        while i < node.children.len()
            invariant
                i <= given.len() == node.children@.len(),
                node.prefix_len == old(node).prefix_len,
                node.term_id == old(node).term_id,
                node.term == old(node).term,
                node.ptr == old(node).ptr,
                node.is_terminal == old(node).is_terminal,
                node.frequency == old(node).frequency,
                given == old(node).children@,
                g0 == old(self)@,
                tags0 == old(node).children_not_yet_tagged@,
                ({
                    let went = assign(g0, tags0, all_tagged(given).take(i as int), threshold);
                    &&& self@ == went.0
                    &&& node.children_not_yet_tagged@ == went.2
                    &&& over == (went.1 > u32::MAX)
                    &&& sum == if went.1 > u32::MAX {
                        u32::MAX as int
                    } else {
                        went.1 as int
                    }
                }),
                forall|k: int|
                    0 <= k < i ==> {
                        let before = #[trigger] given[k];
                        let after = node.children@[k];
                        &&& tagged(after) == left_as(tagged(before), threshold)
                        &&& after.prefix_len == before.prefix_len
                        &&& after.term == before.term
                        &&& after.ptr == before.ptr
                        &&& after.children == before.children
                    },
                forall|k: int| i <= k < given.len() ==> node.children@[k] == #[trigger] given[k],
            decreases given.len() - i,
        {
            let ghost so_far = all_tagged(given).take(i as int);
            let ghost went = assign(g0, tags0, so_far, threshold);
            proof {
                assert(all_tagged(given).take(i + 1).drop_last() =~= so_far);
                assert(all_tagged(given).take(i + 1).last() == tagged(given[i as int]));
            }
            let mut ch = TrieNode::new(0, 0, Vec::new(), false);
            node.children.set_and_swap(i, &mut ch);
            let ghost kids = node.children@;
            if ch.frequency > threshold {
                self.create_group(&mut ch);
            } else {
                match sum.checked_add(ch.frequency) {
                    Some(s) => {
                        sum = s;
                    },
                    None => {
                        sum = u32::MAX;
                        over = true;
                    },
                }
                let ghost joined = node.children_not_yet_tagged@;
                let mut j: usize = 0;
                proof {
                    assert(joined + ch.children_not_yet_tagged@.take(0) =~= joined);
                }
                while j < ch.children_not_yet_tagged.len()
                    invariant
                        j <= ch.children_not_yet_tagged@.len(),
                        node.children_not_yet_tagged@ == joined + ch.children_not_yet_tagged@.take(
                            j as int,
                        ),
                        node.prefix_len == old(node).prefix_len,
                        node.term_id == old(node).term_id,
                        node.term == old(node).term,
                        node.ptr == old(node).ptr,
                        node.is_terminal == old(node).is_terminal,
                        node.frequency == old(node).frequency,
                        node.children@ == kids,
                    decreases ch.children_not_yet_tagged@.len() - j,
                {
                    let t = ch.children_not_yet_tagged[j];
                    node.children_not_yet_tagged.push(t);
                    proof {
                        assert(node.children_not_yet_tagged@ =~= joined
                            + ch.children_not_yet_tagged@.take(j + 1));
                    }
                    j = j + 1;
                }
                proof {
                    assert(ch.children_not_yet_tagged@.take(j as int)
                        =~= ch.children_not_yet_tagged@);
                }
                if ch.is_terminal {
                    node.children_not_yet_tagged.push((ch.term_id, ch.frequency));
                }
                proof {
                    let own = if ch.is_terminal {
                        seq![(ch.term_id, ch.frequency)]
                    } else {
                        Seq::<(u32, u32)>::empty()
                    };
                    assert(node.children_not_yet_tagged@ =~= went.2 + tagged(ch).tags + own);
                }
            }
            let ghost done = ch;
            node.children.set_and_swap(i, &mut ch);
            proof {
                assert(node.children@ =~= kids.update(i as int, done));
                assert(tagged(done) == left_as(tagged(given[i as int]), threshold));
                assert forall|k: int| 0 <= k < i implies node.children@[k] == kids[k] by {}
            }
            i = i + 1;
        }
        proof {
            assert(all_tagged(given).take(i as int) =~= all_tagged(given));
        }
        match node.frequency.checked_add(sum) {
            Some(f) => {
                node.frequency = f;
            },
            None => {
                node.frequency = u32::MAX;
                over = true;
            },
        }
        if over {
            self.failed = true;
        }
    }
}

} // verus!
