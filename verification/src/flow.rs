//! The normalizing flow of the latent.

use crate::names;
use crate::names::numbered_name;
use crate::weights::{
    all_named, all_sensible, ask, convolution, named, plain, want, wanted, Kind, Layer, Request,
    Table, Wanted,
};
use vstd::prelude::*;

verus! {

/// The number of couplings.
pub const COUPLINGS: usize = 4;

/// The number of layers of the network in each coupling.
pub const LAYERS: usize = 4;

/// A convolution that lets a layer's channels pass or doubles them, the last
/// one not.
pub open spec fn skip_kind(index: nat) -> Kind {
    convolution(
        192,
        if index + 1 < LAYERS {
            384
        } else {
            192
        },
        1,
        0,
    )
}

/// One coupling: eleven requests. The couplings have the even numbers.
pub open spec fn coupling_requests(number: nat) -> Seq<Wanted> {
    let prefix = numbered_name("flow.flows."@, number, ""@);
    seq![
        want(prefix + ".pre"@, convolution(96, 192, 1, 0)),
        want(prefix + ".enc.cond_layer"@, convolution(768, 1536, 1, 0)),
        want(numbered_name(prefix + ".enc.in_layers."@, 0, ""@), convolution(192, 384, 5, 2)),
        want(numbered_name(prefix + ".enc.in_layers."@, 1, ""@), convolution(192, 384, 5, 2)),
        want(numbered_name(prefix + ".enc.in_layers."@, 2, ""@), convolution(192, 384, 5, 2)),
        want(numbered_name(prefix + ".enc.in_layers."@, 3, ""@), convolution(192, 384, 5, 2)),
        want(numbered_name(prefix + ".enc.res_skip_layers."@, 0, ""@), skip_kind(0)),
        want(numbered_name(prefix + ".enc.res_skip_layers."@, 1, ""@), skip_kind(1)),
        want(numbered_name(prefix + ".enc.res_skip_layers."@, 2, ""@), skip_kind(2)),
        want(numbered_name(prefix + ".enc.res_skip_layers."@, 3, ""@), skip_kind(3)),
        want(prefix + ".post"@, convolution(192, 96, 1, 0)),
    ]
}

/// The first `count` couplings.
pub open spec fn flow_requests(count: nat) -> Seq<Wanted>
    decreases count,
{
    if count == 0 {
        seq![]
    } else {
        flow_requests((count - 1) as nat) + coupling_requests((2 * (count - 1)) as nat)
    }
}

/// Adds the requests of one coupling.
fn ask_coupling(requests: &mut Vec<Request>, number: usize)
    requires
        all_sensible(wanted(old(requests)@)),
    ensures
        all_sensible(wanted(final(requests)@)),
        wanted(final(requests)@) == wanted(old(requests)@) + coupling_requests(number as nat),
{
    let prefix = names::numbered("flow.flows.", number, "");
    ask(requests, names::joined(prefix.as_str(), ".pre"), convolution(96, 192, 1, 0));
    ask(
        requests,
        names::joined(prefix.as_str(), ".enc.cond_layer"),
        convolution(768, 1536, 1, 0),
    );
    let inner = names::joined(prefix.as_str(), ".enc.in_layers.");
    ask(requests, names::numbered(inner.as_str(), 0, ""), convolution(192, 384, 5, 2));
    ask(requests, names::numbered(inner.as_str(), 1, ""), convolution(192, 384, 5, 2));
    ask(requests, names::numbered(inner.as_str(), 2, ""), convolution(192, 384, 5, 2));
    ask(requests, names::numbered(inner.as_str(), 3, ""), convolution(192, 384, 5, 2));
    let skip = names::joined(prefix.as_str(), ".enc.res_skip_layers.");
    ask(requests, names::numbered(skip.as_str(), 0, ""), convolution(192, 384, 1, 0));
    ask(requests, names::numbered(skip.as_str(), 1, ""), convolution(192, 384, 1, 0));
    ask(requests, names::numbered(skip.as_str(), 2, ""), convolution(192, 384, 1, 0));
    ask(requests, names::numbered(skip.as_str(), 3, ""), convolution(192, 192, 1, 0));
    ask(requests, names::joined(prefix.as_str(), ".post"), convolution(192, 96, 1, 0));
    assert(wanted(requests@) =~= wanted(old(requests)@) + coupling_requests(number as nat)) by {
        reveal_strlit("");
        assert(prefix@ =~= numbered_name("flow.flows."@, number as nat, ""@));
    }
}

/// Adds the requests of the flow.
pub fn ask_flow(requests: &mut Vec<Request>)
    requires
        all_sensible(wanted(old(requests)@)),
    ensures
        all_sensible(wanted(final(requests)@)),
        wanted(final(requests)@) == wanted(old(requests)@) + flow_requests(COUPLINGS as nat),
{
    let ghost start = wanted(requests@);
    let mut index: usize = 0;
    assert(start =~= start + flow_requests(0));
    while index < COUPLINGS
        invariant
            index <= COUPLINGS,
            all_sensible(wanted(requests@)),
            wanted(requests@) == start + flow_requests(index as nat),
        decreases COUPLINGS - index,
    {
        ask_coupling(requests, 2 * index);
        index = index + 1;
        assert(wanted(requests@) =~= start + flow_requests(index as nat));
    }
}

/// The layers of one coupling.
#[derive(Debug)]
pub struct ResidualCoupling {
    pub pre: Layer,
    pub cond_layer: Layer,
    pub in_layers: Vec<Layer>,
    pub res_skip_layers: Vec<Layer>,
    pub post: Layer,
}

impl ResidualCoupling {
    /// Whether the layers are those from `start` on.
    pub open spec fn holds(self, layers: Seq<Layer>, start: int) -> bool {
        &&& self.pre == layers[start]
        &&& self.cond_layer == layers[start + 1]
        &&& self.in_layers@ == layers.subrange(start + 2, start + 6)
        &&& self.res_skip_layers@ == layers.subrange(start + 6, start + 10)
        &&& self.post == layers[start + 10]
    }

    /// Groups the layers of one coupling.
    fn from_layers(layers: &Vec<Layer>, start: usize) -> (result: ResidualCoupling)
        requires
            start + 11 <= layers.len(),
        ensures
            result.holds(layers@, start as int),
    {
        let mut in_layers: Vec<Layer> = Vec::new();
        let mut res_skip_layers: Vec<Layer> = Vec::new();
        let mut index: usize = 0;
        while index < LAYERS
            invariant
                index <= LAYERS,
                start + 11 <= layers.len(),
                in_layers@ == layers@.subrange(start + 2, start + 2 + index),
                res_skip_layers@ == layers@.subrange(start + 6, start + 6 + index),
            decreases LAYERS - index,
        {
            in_layers.push(layers[start + 2 + index]);
            res_skip_layers.push(layers[start + 6 + index]);
            index = index + 1;
        }
        ResidualCoupling {
            pre: layers[start],
            cond_layer: layers[start + 1],
            in_layers,
            res_skip_layers,
            post: layers[start + 10],
        }
    }

    /// The channels of the speaker condition that one layer gets.
    pub fn condition_span(index: usize) -> (span: (i32, i32))
        requires
            index < LAYERS,
        ensures
            span.0 == 384 * index,
            span.1 == 384 * (index + 1),
            0 <= span.0 < span.1 <= 1536,
    {
        let offset: i32 = index as i32 * 384;
        (offset, offset + 384)
    }
}

/// The flow.
#[derive(Debug)]
pub struct ResidualCouplingBlock {
    pub couplings: Vec<ResidualCoupling>,
}

impl ResidualCouplingBlock {
    /// Whether the layers are those from `start` on.
    pub open spec fn holds(self, layers: Seq<Layer>, start: int) -> bool {
        &&& self.couplings@.len() == COUPLINGS
        &&& forall|i: int|
            0 <= i < COUPLINGS ==> (#[trigger] self.couplings@[i]).holds(layers, start + 11 * i)
    }

    /// Groups the layers that the flow's requests gave.
    pub fn from_layers(layers: &Vec<Layer>, start: usize) -> (result: ResidualCouplingBlock)
        requires
            start + 44 <= layers.len(),
        ensures
            result.holds(layers@, start as int),
    {
        let mut couplings: Vec<ResidualCoupling> = Vec::new();
        let mut index: usize = 0;
        while index < COUPLINGS
            invariant
                index <= COUPLINGS,
                start + 44 <= layers.len(),
                couplings@.len() == index,
                forall|i: int|
                    0 <= i < index ==> (#[trigger] couplings@[i]).holds(layers@, start + 11 * i),
            decreases COUPLINGS - index,
        {
            couplings.push(ResidualCoupling::from_layers(layers, start + 11 * index));
            index = index + 1;
        }
        ResidualCouplingBlock { couplings }
    }

    /// The couplings in the order in which they are undone: the last first.
    pub fn reverse_order(&self) -> (order: Vec<usize>)
        ensures
            order@.len() == self.couplings@.len(),
            forall|i: int|
                0 <= i < order@.len() ==> #[trigger] order@[i] == self.couplings@.len() - 1 - i,
    {
        let mut order: Vec<usize> = Vec::new();
        let mut left: usize = self.couplings.len();
        while left > 0
            invariant
                order@.len() + left == self.couplings@.len(),
                forall|i: int|
                    0 <= i < order@.len() ==> #[trigger] order@[i] == self.couplings@.len() - 1
                        - i,
            decreases left,
        {
            left = left - 1;
            order.push(left);
        }
        order
    }
}

impl ResidualCoupling {
    /// Whether the layers hold the tensors that are named for them. The last
    /// layer of the network gives no channels to go on with.
    pub open spec fn named(self, table: Table, number: nat) -> bool {
        let prefix = numbered_name("flow.flows."@, number, ""@);
        &&& plain(self.pre, table, prefix + ".pre"@, convolution(96, 192, 1, 0))
        &&& plain(
            self.cond_layer,
            table,
            prefix + ".enc.cond_layer"@,
            convolution(768, 1536, 1, 0),
        )
        &&& self.in_layers@.len() == 4
        &&& forall|i: int|
            0 <= i < 4 ==> plain(
                #[trigger] self.in_layers@[i],
                table,
                numbered_name(prefix + ".enc.in_layers."@, i as nat, ""@),
                convolution(192, 384, 5, 2),
            )
        &&& self.res_skip_layers@.len() == 4
        &&& forall|i: int|
            0 <= i < 3 ==> plain(
                #[trigger] self.res_skip_layers@[i],
                table,
                numbered_name(prefix + ".enc.res_skip_layers."@, i as nat, ""@),
                convolution(192, 384, 1, 0),
            )
        &&& plain(
            self.res_skip_layers@[3],
            table,
            numbered_name(prefix + ".enc.res_skip_layers."@, 3, ""@),
            convolution(192, 192, 1, 0),
        )
        &&& plain(self.post, table, prefix + ".post"@, convolution(192, 96, 1, 0))
    }
}

impl ResidualCouplingBlock {
    /// Whether every coupling holds the tensors that are named for it. The
    /// couplings have the even numbers.
    pub open spec fn named(self, table: Table) -> bool {
        &&& self.couplings@.len() == 4
        &&& forall|i: int|
            0 <= i < 4 ==> (#[trigger] self.couplings@[i]).named(table, (2 * i) as nat)
    }

    /// Every tensor of the flow goes to the layer that it is named for.
    pub proof fn lemma_tensors(self, table: Table, layers: Seq<Layer>, start: int)
        requires
            self.holds(layers, start),
            start >= 0,
            start + 44 <= layers.len(),
            all_named(layers, start, table, flow_requests(COUPLINGS as nat)),
        ensures
            self.named(table),
    {
        let requests = flow_requests(COUPLINGS as nat);
        assert forall|i: int| 0 <= i < 4 implies (#[trigger] self.couplings@[i]).named(
            table,
            (2 * i) as nat,
        ) by {
            let first = start + 11 * i;
            let coupling = self.couplings@[i];
            assert(coupling.holds(layers, start + 11 * i));
            let own = coupling_requests((2 * i) as nat);
            assert forall|part: int| 0 <= part < 11 implies named(
                layers[first + part],
                table,
                #[trigger] own[part],
            ) by {
                lemma_flow_places(COUPLINGS as nat, i as nat, part);
                assert(named(layers[start + (11 * i + part)], table, requests[11 * i + part]));
            }
            assert(own.len() == 11);
            assert(named(layers[first + 0], table, own[0]));
            assert(named(layers[first + 1], table, own[1]));
            assert(named(layers[first + 2], table, own[2]));
            assert(named(layers[first + 3], table, own[3]));
            assert(named(layers[first + 4], table, own[4]));
            assert(named(layers[first + 5], table, own[5]));
            assert(named(layers[first + 6], table, own[6]));
            assert(named(layers[first + 7], table, own[7]));
            assert(named(layers[first + 8], table, own[8]));
            assert(named(layers[first + 9], table, own[9]));
            assert(named(layers[first + 10], table, own[10]));
            assert forall|k: int| 0 <= k < 4 implies coupling.in_layers@[k] == layers[first + 2
                + k] && coupling.res_skip_layers@[k] == layers[first + 6 + k] by {
            }
        }
    }
}

/// The requests of the couplings stand at regular places.
pub proof fn lemma_flow_places(count: nat, index: nat, part: int)
    requires
        index < count,
        0 <= part < 11,
    ensures
        flow_requests(count).len() == 11 * count,
        flow_requests(count)[11 * index + part] == coupling_requests(2 * index)[part],
    decreases count,
{
    reveal_with_fuel(flow_requests, 2);
    assert(coupling_requests((2 * (count - 1)) as nat).len() == 11);
    if index < count - 1 {
        lemma_flow_places((count - 1) as nat, index, part);
    } else if count > 1 {
        lemma_flow_places((count - 1) as nat, 0, 0);
    }
}

/// Every network layer keeps the length, and takes as many channels as its
/// share of the condition and the layer before it give.
pub proof fn lemma_coupling_fits(number: nat, length: int, index: int)
    requires
        length > 0,
        0 <= index < 11,
    ensures
        coupling_requests(number)[index].kind.output_length(length) == length,
{
    vstd::arithmetic::div_mod::lemma_div_basics_2(length - 1);
    let kind = coupling_requests(number)[index].kind;
    assert(1 * (1 - 1) == 0 && 1 * (5 - 1) == 4);
    assert(kind matches Kind::Conv1d { kernel_size, padding, dilation, stride, .. } && dilation
        == 1 && stride == 1 && ((kernel_size == 1 && padding == 0) || (kernel_size == 5
        && padding == 2)));
}

} // verus!
