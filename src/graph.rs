use vstd::prelude::*;

verus! {

/// A processing graph as users build it: a chain of filters, a switch over
/// predicates, or a group of outputs. `F` starts filters, `P` tests events,
/// `O` is an output.
pub enum Node<F, P, O> {
    Filters(Vec<F>, Box<Node<F, P, O>>),
    Switch(Branches<F, P, O>),
    Outputs(Vec<O>),
}

/// The branches of a switch, in order.
pub enum Branches<F, P, O> {
    End,
    Branch(P, Box<Node<F, P, O>>, Box<Branches<F, P, O>>),
}

/// A lowered graph: filters and output groups are named by their index in
/// flat lists.
pub enum IntNode<P> {
    Filters(Vec<usize>, Box<IntNode<P>>),
    Switch(IntBranches<P>),
    OutputGroup(usize),
}

pub enum IntBranches<P> {
    End,
    Branch(P, Box<IntNode<P>>, Box<IntBranches<P>>),
}

/// The filter starters of a graph in depth-first order.
pub open spec fn node_filters<F, P, O>(n: Node<F, P, O>) -> Seq<F>
    decreases n,
{
    match n {
        Node::Filters(fs, next) => fs@ + node_filters(*next),
        Node::Switch(bs) => branches_filters(bs),
        Node::Outputs(_) => seq![],
    }
}

pub open spec fn branches_filters<F, P, O>(b: Branches<F, P, O>) -> Seq<F>
    decreases b,
{
    match b {
        Branches::End => seq![],
        Branches::Branch(_, n, rest) => node_filters(*n) + branches_filters(*rest),
    }
}

/// The output groups of a graph in depth-first order.
pub open spec fn node_groups<F, P, O>(n: Node<F, P, O>) -> Seq<Vec<O>>
    decreases n,
{
    match n {
        Node::Filters(_, next) => node_groups(*next),
        Node::Switch(bs) => branches_groups(bs),
        Node::Outputs(os) => seq![os],
    }
}

pub open spec fn branches_groups<F, P, O>(b: Branches<F, P, O>) -> Seq<Vec<O>>
    decreases b,
{
    match b {
        Branches::End => seq![],
        Branches::Branch(_, n, rest) => node_groups(*n) + branches_groups(*rest),
    }
}

/// The filter indices of a lowered graph in depth-first order.
pub open spec fn int_filters<P>(n: IntNode<P>) -> Seq<usize>
    decreases n,
{
    match n {
        IntNode::Filters(ids, next) => ids@ + int_filters(*next),
        IntNode::Switch(bs) => int_branches_filters(bs),
        IntNode::OutputGroup(_) => seq![],
    }
}

pub open spec fn int_branches_filters<P>(b: IntBranches<P>) -> Seq<usize>
    decreases b,
{
    match b {
        IntBranches::End => seq![],
        IntBranches::Branch(_, n, rest) => int_filters(*n) + int_branches_filters(*rest),
    }
}

/// The output group ids of a lowered graph in depth-first order.
pub open spec fn int_groups<P>(n: IntNode<P>) -> Seq<usize>
    decreases n,
{
    match n {
        IntNode::Filters(_, next) => int_groups(*next),
        IntNode::Switch(bs) => int_branches_groups(bs),
        IntNode::OutputGroup(g) => seq![g],
    }
}

pub open spec fn int_branches_groups<P>(b: IntBranches<P>) -> Seq<usize>
    decreases b,
{
    match b {
        IntBranches::End => seq![],
        IntBranches::Branch(_, n, rest) => int_groups(*n) + int_branches_groups(*rest),
    }
}

/// `r` has the shape of `n`: the same nodes in the same places, a filter
/// index for each filter starter, the same predicates in the same order.
pub open spec fn lowered_as<F, P, O>(n: Node<F, P, O>, r: IntNode<P>) -> bool
    decreases n,
{
    match (n, r) {
        (Node::Filters(fs, next), IntNode::Filters(ids, inext)) => ids@.len() == fs@.len() && lowered_as(*next, *inext),
        (Node::Switch(bs), IntNode::Switch(ibs)) => branches_lowered_as(bs, ibs),
        (Node::Outputs(_), IntNode::OutputGroup(_)) => true,
        _ => false,
    }
}

pub open spec fn branches_lowered_as<F, P, O>(b: Branches<F, P, O>, r: IntBranches<P>) -> bool
    decreases b,
{
    match (b, r) {
        (Branches::End, IntBranches::End) => true,
        (Branches::Branch(p, n, rest), IntBranches::Branch(q, m, irest)) => p == q && lowered_as(*n, *m)
            && branches_lowered_as(*rest, *irest),
        _ => false,
    }
}

/// `a, a + 1, ..., b - 1`.
pub open spec fn span_seq(a: int, b: int) -> Seq<usize> {
    Seq::new((b - a) as nat, |i: int| (a + i) as usize)
}

proof fn lemma_span_concat(a: int, b: int, c: int)
    requires
        a <= b <= c,
    ensures
        span_seq(a, b) + span_seq(b, c) == span_seq(a, c),
{
    assert(span_seq(a, b) + span_seq(b, c) =~= span_seq(a, c));
}

/// Lowers `node`: its filter starters are appended to `filters` and its
/// output groups to `groups`, and the result names each by its index there.
pub fn lower<F, P, O>(node: Node<F, P, O>, filters: &mut Vec<F>, groups: &mut Vec<Vec<O>>) -> (r: IntNode<P>)
    ensures
        final(filters)@ == old(filters)@ + node_filters(node),
        final(groups)@ == old(groups)@ + node_groups(node),
        int_filters(r) == span_seq(old(filters)@.len() as int, final(filters)@.len() as int),
        int_groups(r) == span_seq(old(groups)@.len() as int, final(groups)@.len() as int),
        lowered_as(node, r),
    decreases node,
{
    match node {
        Node::Filters(fs, next) => {
            let ghost fs_view = fs@;
            let ghost next_view = *next;
            let start = filters.len();
            let mut fs = fs;
            filters.append(&mut fs);
            let end = filters.len();
            let mut ids: Vec<usize> = Vec::new();
            let mut k: usize = start;
            while k < end
                invariant
                    start <= k <= end,
                    ids@ == span_seq(start as int, k as int),
                decreases end - k,
            {
                ids.push(k);
                proof {
                    assert(ids@ =~= span_seq(start as int, k + 1));
                }
                k = k + 1;
            }
            let lowered = lower(*next, filters, groups);
            proof {
                lemma_span_concat(start as int, end as int, filters@.len() as int);
                assert(filters@ =~= old(filters)@ + (fs_view + node_filters(next_view)));
            }
            IntNode::Filters(ids, Box::new(lowered))
        },
        Node::Switch(bs) => IntNode::Switch(lower_branches(bs, filters, groups)),
        Node::Outputs(os) => {
            let id = groups.len();
            groups.push(os);
            proof {
                assert(span_seq(id as int, id + 1) =~= seq![id]);
                assert(filters@ =~= old(filters)@ + Seq::<F>::empty());
            }
            IntNode::OutputGroup(id)
        },
    }
}

fn lower_branches<F, P, O>(b: Branches<F, P, O>, filters: &mut Vec<F>, groups: &mut Vec<Vec<O>>) -> (r: IntBranches<P>)
    ensures
        final(filters)@ == old(filters)@ + branches_filters(b),
        final(groups)@ == old(groups)@ + branches_groups(b),
        int_branches_filters(r) == span_seq(old(filters)@.len() as int, final(filters)@.len() as int),
        int_branches_groups(r) == span_seq(old(groups)@.len() as int, final(groups)@.len() as int),
        branches_lowered_as(b, r),
    decreases b,
{
    match b {
        Branches::End => {
            proof {
                assert(filters@ =~= old(filters)@ + Seq::<F>::empty());
                assert(groups@ =~= old(groups)@ + Seq::<Vec<O>>::empty());
                assert(span_seq(filters@.len() as int, filters@.len() as int) =~= Seq::<usize>::empty());
                assert(span_seq(groups@.len() as int, groups@.len() as int) =~= Seq::<usize>::empty());
            }
            IntBranches::End
        },
        Branches::Branch(p, n, rest) => {
            let ghost n_view = *n;
            let ghost rest_view = *rest;
            let f0 = filters.len();
            let g0 = groups.len();
            let lowered = lower(*n, filters, groups);
            let f1 = filters.len();
            let g1 = groups.len();
            let tail = lower_branches(*rest, filters, groups);
            proof {
                lemma_span_concat(f0 as int, f1 as int, filters@.len() as int);
                lemma_span_concat(g0 as int, g1 as int, groups@.len() as int);
                assert(filters@ =~= old(filters)@ + (node_filters(n_view) + branches_filters(rest_view)));
                assert(groups@ =~= old(groups)@ + (node_groups(n_view) + branches_groups(rest_view)));
            }
            IntBranches::Branch(p, Box::new(lowered), Box::new(tail))
        },
    }
}

/// Each index of a lowered graph names a distinct filter slot: no filter
/// instance is used twice.
pub proof fn lemma_lowered_filters_distinct(a: int, b: int)
    requires
        0 <= a <= b,
        b <= usize::MAX,
    ensures
        forall|i: int, j: int| 0 <= i < j < span_seq(a, b).len() ==> span_seq(a, b)[i] != span_seq(a, b)[j],
        forall|i: int| 0 <= i < span_seq(a, b).len() ==> a <= #[trigger] span_seq(a, b)[i] < b,
{
}

/// What a switch does after testing branch `i`.
#[derive(Clone, Copy, Debug, PartialEq, Eq, Structural)]
pub enum SwitchStep {
    /// Send the event down branch `i`.
    Route(usize),
    /// Test branch `i` next.
    Test(usize),
    /// Drop the event: no branch matched, or a predicate failed.
    Drop,
}

/// The branch that receives an event, given the outcome of each predicate
/// (`None` for an error): the first that matches, unless a predicate fails
/// before it.
pub open spec fn route_of(outcomes: Seq<Option<bool>>) -> Option<int>
    decreases outcomes.len(),
{
    if outcomes.len() == 0 {
        None
    } else {
        match outcomes[0] {
            Some(true) => Some(0),
            Some(false) => match route_of(outcomes.subrange(1, outcomes.len() as int)) {
                Some(i) => Some(i + 1),
                None => None,
            },
            None => None,
        }
    }
}

/// One step of a switch over `n` branches, after branch `i` tested
/// `outcome`.
pub fn switch_step(i: usize, n: usize, outcome: Option<bool>) -> (r: SwitchStep)
    requires
        i < n,
    ensures
        r == match outcome {
            Some(true) => SwitchStep::Route(i),
            Some(false) => if i + 1 < n { SwitchStep::Test((i + 1) as usize) } else { SwitchStep::Drop },
            None => SwitchStep::Drop,
        },
{
    match outcome {
        Some(true) => SwitchStep::Route(i),
        Some(false) => if i + 1 < n { SwitchStep::Test(i + 1) } else { SwitchStep::Drop },
        None => SwitchStep::Drop,
    }
}

/// Routes an event by the outcomes of the predicates, testing them in
/// order with `switch_step`.
pub fn route(outcomes: &Vec<Option<bool>>) -> (r: Option<usize>)
    ensures
        match r {
            Some(i) => route_of(outcomes@) == Some(i as int),
            None => route_of(outcomes@) is None,
        },
{
    let n = outcomes.len();
    if n == 0 {
        return None;
    }
    let mut i: usize = 0;
    proof {
        assert(outcomes@.subrange(0, n as int) =~= outcomes@);
    }
    loop
        invariant
            n == outcomes@.len(),
            i < n,
            route_of(outcomes@) == (match route_of(outcomes@.subrange(i as int, n as int)) {
                Some(j) => Some(j + i),
                None => None,
            }),
        decreases n - i,
    {
        let ghost rest = outcomes@.subrange(i as int, n as int);
        proof {
            assert(rest.subrange(1, rest.len() as int) =~= outcomes@.subrange(i + 1, n as int));
        }
        match switch_step(i, n, outcomes[i]) {
            SwitchStep::Route(j) => {
                return Some(j);
            },
            SwitchStep::Test(j) => {
                i = j;
            },
            SwitchStep::Drop => {
                proof {
                    assert(rest[0] == outcomes@[i as int]);
                    if i + 1 >= n && outcomes@[i as int] == Some(false) {
                        assert(rest.subrange(1, rest.len() as int) =~= Seq::<Option<bool>>::empty());
                        assert(route_of(Seq::<Option<bool>>::empty()) is None);
                    }
                }
                return None;
            },
        }
    }
}

/// The position among inputs named `name` that a new one takes, counting
/// from 1: ids default to `<name>-<position>`.
pub fn input_ordinal(names: &Vec<String>, name: &str) -> (r: usize)
    requires
        names@.len() < usize::MAX,
    ensures
        r == 1 + names@.filter(|s: String| s@ == name@).len(),
{
    let mut count: usize = 1;
    let mut k: usize = 0;
    while k < names.len()
        invariant
            k <= names@.len(),
            names@.len() < usize::MAX,
            count == 1 + names@.subrange(0, k as int).filter(|s: String| s@ == name@).len(),
            count <= k + 1,
        decreases names@.len() - k,
    {
        proof {
            let pre = names@.subrange(0, k as int);
            assert(names@.subrange(0, k + 1) =~= pre.push(names@[k as int]));
            pre.lemma_filter_push(names@[k as int], |s: String| s@ == name@);
        }
        if crate::text::str_eq(names[k].as_str(), name) {
            count = count + 1;
        }
        k = k + 1;
    }
    proof {
        assert(names@.subrange(0, names@.len() as int) =~= names@);
    }
    count
}

} // verus!
