//! The tensors of a checkpoint and the layers that are made of them.
//!
//! A tensor is known by its name, its shape and the slot under which its
//! values are kept. Layers take their tensors out of the table by name, so
//! that a tensor is used once and what no layer asked for is noticed.

use crate::names;
use crate::shapes;
use vstd::prelude::*;
use vstd::string::*;

verus! {

/// A tensor of a checkpoint.
#[derive(Debug)]
pub struct Tensor {
    pub name: String,
    pub shape: Vec<i32>,
    /// Where the values are kept.
    pub slot: usize,
}

/// What a table holds under a name.
pub struct Entry {
    pub shape: Seq<i32>,
    pub slot: usize,
}

/// Tensors by name.
pub type Table = Map<Seq<char>, Entry>;

/// What a table holds of a tensor; its name is the place in the table.
impl View for Tensor {
    type V = Entry;

    open spec fn view(&self) -> Entry {
        Entry { shape: self.shape@, slot: self.slot }
    }
}

/// The table of tensors that are entered one after the other.
pub open spec fn table_of(tensors: Seq<Tensor>) -> Table
    decreases tensors.len(),
{
    if tensors.len() == 0 {
        Map::empty()
    } else {
        table_of(tensors.drop_last()).insert(tensors.last().name@, tensors.last()@)
    }
}

/// Whether no two tensors share a name.
pub open spec fn distinct(tensors: Seq<Tensor>) -> bool {
    forall|i: int, j: int|
        0 <= i < j < tensors.len() ==> (#[trigger] tensors[i]).name@ != (#[trigger] tensors[j]).name@
}

/// What is wrong with a checkpoint.
#[derive(Debug)]
pub enum WeightsError {
    /// The checkpoint at the given place holds nothing.
    Empty { source: String },
    Missing { name: String },
    /// Something has a shape that does not fit.
    Shape { what: String, shape: Vec<i32> },
    /// Tensors that no layer asked for.
    Unused { names: Vec<String> },
    /// A rule of the model that is broken.
    Rule { message: &'static str },
}

/// The contents of a [`WeightsError`].
pub enum Failure {
    Empty(Seq<char>),
    Missing(Seq<char>),
    Shape(Seq<char>, Seq<i32>),
    Unused(Set<Seq<char>>),
    Rule(Seq<char>),
}

/// The texts of some strings.
pub open spec fn texts(strings: Seq<String>) -> Seq<Seq<char>> {
    strings.map_values(|s: String| s@)
}

impl View for WeightsError {
    type V = Failure;

    open spec fn view(&self) -> Failure {
        match self {
            WeightsError::Empty { source } => Failure::Empty(source@),
            WeightsError::Missing { name } => Failure::Missing(name@),
            WeightsError::Shape { what, shape } => Failure::Shape(what@, shape@),
            WeightsError::Unused { names } => Failure::Unused(texts(names@).to_set()),
            WeightsError::Rule { message } => Failure::Rule(message@),
        }
    }
}

/// Texts with commas between them.
pub open spec fn enumerated(items: Seq<Seq<char>>, count: nat) -> Seq<char>
    decreases count,
{
    if count == 0 {
        seq![]
    } else if count == 1 {
        items[0]
    } else {
        enumerated(items, (count - 1) as nat) + ", "@ + items[count - 1]
    }
}

impl WeightsError {
    pub open spec fn text(self) -> Seq<char> {
        match self {
            WeightsError::Empty { source } => source@ + " contains no tensors"@,
            WeightsError::Missing { name } => "missing tensor "@ + name@,
            WeightsError::Shape { what, shape } => "invalid "@ + what@ + " shape "@
                + names::bracketed(shape@),
            WeightsError::Unused { names } => "unused tensors: "@ + enumerated(
                texts(names@),
                names@.len(),
            ),
            WeightsError::Rule { message } => message@,
        }
    }

    /// The message for the user.
    pub fn message(&self) -> (result: String)
        ensures
            result@ == self.text(),
    {
        match self {
            WeightsError::Empty { source } => names::joined(source.as_str(), " contains no tensors"),
            WeightsError::Missing { name } => names::joined("missing tensor ", name.as_str()),
            WeightsError::Shape { what, shape } => {
                let mut result = names::joined("invalid ", what.as_str());
                result.append(" shape ");
                names::append_list(&mut result, shape);
                result
            },
            WeightsError::Unused { names } => {
                let mut result = "unused tensors: ".to_owned();
                let ghost start = result@;
                let mut index: usize = 0;
                assert(result@ =~= start + enumerated(texts(names@), 0));
                while index < names.len()
                    invariant
                        index <= names@.len(),
                        result@ == start + enumerated(texts(names@), index as nat),
                    decreases names@.len() - index,
                {
                    if index > 0 {
                        result.append(", ");
                    }
                    result.append(names[index].as_str());
                    index = index + 1;
                    assert(result@ =~= start + enumerated(texts(names@), index as nat));
                }
                result
            },
            WeightsError::Rule { message } => (*message).to_owned(),
        }
    }
}

/// What a layer computes and how.
#[derive(Clone, Copy, Debug, PartialEq, Eq)]
pub enum Kind {
    /// A bare tensor.
    Values,
    Linear { input_dims: i32, output_dims: i32, bias: bool },
    Conv1d {
        input_channels: i32,
        output_channels: i32,
        kernel_size: i32,
        padding: i32,
        dilation: i32,
        stride: i32,
        groups: i32,
        bias: bool,
    },
    ConvTranspose1d {
        input_channels: i32,
        output_channels: i32,
        kernel_size: i32,
        padding: i32,
        stride: i32,
    },
    Embedding { count: i32, dimensions: i32 },
    /// A layer norm whose tensors are called gamma and beta.
    LayerNorm { dimensions: i32 },
    /// A layer norm whose tensors are called weight and bias.
    StandardLayerNorm { dimensions: i32 },
    GroupNorm { group_count: i32, dimensions: i32 },
}

/// A layer with the slots of its tensors.
#[derive(Clone, Copy, Debug, PartialEq, Eq)]
pub struct Layer {
    pub kind: Kind,
    pub weight: usize,
    pub bias: Option<usize>,
}

impl Kind {
    /// Whether the shape of the weight can be worked out.
    pub open spec fn sensible(self) -> bool {
        self matches Kind::Conv1d { input_channels, groups, .. } ==> input_channels >= 0 && groups
            > 0
    }

    /// What follows the layer's name in the name of its weight.
    pub open spec fn weight_suffix(self) -> Seq<char> {
        match self {
            Kind::Values => seq![],
            Kind::LayerNorm { .. } => ".gamma"@,
            _ => ".weight"@,
        }
    }

    /// What follows the layer's name in the name of its bias.
    pub open spec fn bias_suffix(self) -> Option<Seq<char>> {
        match self {
            Kind::Values => None,
            Kind::Linear { bias, .. } => if bias {
                Some(".bias"@)
            } else {
                None
            },
            Kind::Conv1d { bias, .. } => if bias {
                Some(".bias"@)
            } else {
                None
            },
            Kind::Embedding { .. } => None,
            Kind::LayerNorm { .. } => Some(".beta"@),
            _ => Some(".bias"@),
        }
    }

    /// The shape that the weight must have, where it is fixed.
    pub open spec fn weight_shape(self) -> Option<Seq<i32>> {
        match self {
            Kind::Linear { input_dims, output_dims, .. } => Some(seq![output_dims, input_dims]),
            Kind::Conv1d { input_channels, output_channels, kernel_size, groups, .. } => Some(
                seq![output_channels, kernel_size, (input_channels as int / groups as int) as i32],
            ),
            Kind::ConvTranspose1d { input_channels, output_channels, kernel_size, .. } => Some(
                seq![output_channels, kernel_size, input_channels],
            ),
            Kind::Embedding { count, dimensions } => Some(seq![count, dimensions]),
            _ => None,
        }
    }

    /// How many items come out of a layer for `length` that go in.
    pub open spec fn output_length(self, length: int) -> int {
        match self {
            Kind::Conv1d { kernel_size, padding, dilation, stride, .. } => shapes::convolved(
                length,
                kernel_size as int,
                padding as int,
                dilation as int,
                stride as int,
            ),
            Kind::ConvTranspose1d { kernel_size, padding, stride, .. } => shapes::transposed(
                length,
                kernel_size as int,
                padding as int,
                stride as int,
            ),
            _ => length,
        }
    }

    /// Whether a weight of this shape fits.
    fn fits(&self, shape: &Vec<i32>) -> (result: bool)
        requires
            self.sensible(),
        ensures
            result == (self.weight_shape() matches Some(expected) ==> shape@ == expected),
    {
        match self {
            Kind::Linear { input_dims, output_dims, .. } => {
                let result = shape.len() == 2 && shape[0] == *output_dims && shape[1]
                    == *input_dims;
                assert(result ==> shape@ =~= seq![*output_dims, *input_dims]);
                result
            },
            Kind::Conv1d { input_channels, output_channels, kernel_size, groups, .. } => {
                let inner: i32 = *input_channels / *groups;
                let result = shape.len() == 3 && shape[0] == *output_channels && shape[1]
                    == *kernel_size && shape[2] == inner;
                assert(result ==> shape@ =~= seq![*output_channels, *kernel_size, inner]);
                result
            },
            Kind::ConvTranspose1d { input_channels, output_channels, kernel_size, .. } => {
                let result = shape.len() == 3 && shape[0] == *output_channels && shape[1]
                    == *kernel_size && shape[2] == *input_channels;
                assert(result ==> shape@ =~= seq![*output_channels, *kernel_size, *input_channels]);
                result
            },
            Kind::Embedding { count, dimensions } => {
                let result = shape.len() == 2 && shape[0] == *count && shape[1] == *dimensions;
                assert(result ==> shape@ =~= seq![*count, *dimensions]);
                result
            },
            _ => true,
        }
    }
}

/// Takes a tensor out of a table.
pub open spec fn taken(table: Table, name: Seq<char>) -> (Table, Result<Entry, Failure>) {
    if table.dom().contains(name) {
        (table.remove(name), Ok(table[name]))
    } else {
        (table, Err(Failure::Missing(name)))
    }
}

/// Takes the tensors of a layer out of a table: the weight, then the bias.
/// The shape is looked at when both are out.
pub open spec fn supplied(table: Table, name: Seq<char>, kind: Kind) -> (
    Table,
    Result<Layer, Failure>,
) {
    let (first, weight) = taken(table, name + kind.weight_suffix());
    match weight {
        Err(failure) => (first, Err(failure)),
        Ok(weight) => {
            let (second, bias) = match kind.bias_suffix() {
                None => (first, Ok::<Option<usize>, Failure>(None)),
                Some(suffix) => {
                    let (rest, bias) = taken(first, name + suffix);
                    (rest, match bias {
                        Err(failure) => Err(failure),
                        Ok(bias) => Ok(Some(bias.slot)),
                    })
                },
            };
            (second, match bias {
                Err(failure) => Err(failure),
                Ok(bias) => if kind.weight_shape() matches Some(expected) && weight.shape
                    != expected {
                    Err(Failure::Shape(name + ".weight"@, weight.shape))
                } else {
                    Ok(Layer { kind, weight: weight.slot, bias })
                },
            })
        },
    }
}

/// A layer that a model asks for.
#[derive(Debug)]
pub struct Request {
    pub name: String,
    pub kind: Kind,
}

/// The contents of a [`Request`].
pub struct Wanted {
    pub name: Seq<char>,
    pub kind: Kind,
}

impl View for Request {
    type V = Wanted;

    open spec fn view(&self) -> Wanted {
        Wanted { name: self.name@, kind: self.kind }
    }
}

/// The contents of some requests.
pub open spec fn wanted(requests: Seq<Request>) -> Seq<Wanted> {
    requests.map_values(|request: Request| request@)
}

/// A convolution with a bias that takes every sample once.
#[verifier::allow_in_spec]
pub fn convolution(
    input_channels: i32,
    output_channels: i32,
    kernel_size: i32,
    padding: i32,
) -> (kind: Kind)
    returns
        (Kind::Conv1d {
            input_channels,
            output_channels,
            kernel_size,
            padding,
            dilation: 1,
            stride: 1,
            groups: 1,
            bias: true,
        }),
{
    Kind::Conv1d {
        input_channels,
        output_channels,
        kernel_size,
        padding,
        dilation: 1,
        stride: 1,
        groups: 1,
        bias: true,
    }
}

/// A request.
pub open spec fn want(name: Seq<char>, kind: Kind) -> Wanted {
    Wanted { name, kind }
}

/// Adds a request to a list.
pub fn ask(requests: &mut Vec<Request>, name: String, kind: Kind)
    requires
        kind.sensible(),
        all_sensible(wanted(old(requests)@)),
    ensures
        wanted(final(requests)@) == wanted(old(requests)@).push(want(name@, kind)),
        all_sensible(wanted(final(requests)@)),
{
    requests.push(Request { name, kind });
    proof {
        assert(wanted(requests@) =~= wanted(old(requests)@).push(want(name@, kind)));
    }
}

/// Serves requests one after the other, up to the first that fails.
pub open spec fn supplied_all(table: Table, requests: Seq<Wanted>) -> (
    Table,
    Result<Seq<Layer>, Failure>,
)
    decreases requests.len(),
{
    if requests.len() == 0 {
        (table, Ok(seq![]))
    } else {
        let (rest, layers) = supplied_all(table, requests.drop_last());
        match layers {
            Err(failure) => (rest, Err(failure)),
            Ok(layers) => {
                let (end, layer) = supplied(rest, requests.last().name, requests.last().kind);
                (end, match layer {
                    Err(failure) => Err(failure),
                    Ok(layer) => Ok(layers.push(layer)),
                })
            },
        }
    }
}

/// Where the first requests fail, all of them do, in the same way.
proof fn lemma_supplied_prefix(table: Table, requests: Seq<Wanted>, count: int)
    requires
        0 <= count <= requests.len(),
        supplied_all(table, requests.take(count)).1 is Err,
    ensures
        supplied_all(table, requests) == supplied_all(table, requests.take(count)),
    decreases requests.len(),
{
    if count == requests.len() {
        assert(requests.take(count) =~= requests);
    } else {
        assert(requests.drop_last().take(count) =~= requests.take(count));
        lemma_supplied_prefix(table, requests.drop_last(), count);
    }
}

/// Whether there is a layer for each request, of the kind that was asked for.
pub open spec fn served(layers: Seq<Layer>, requests: Seq<Wanted>) -> bool {
    &&& layers.len() == requests.len()
    &&& forall|i: int| 0 <= i < layers.len() ==> (#[trigger] layers[i]).kind == requests[i].kind
}

/// Every layer that comes out is of the kind that was asked for.
pub proof fn lemma_supplied_kinds(table: Table, requests: Seq<Wanted>)
    ensures
        supplied_all(table, requests).1 matches Ok(layers) ==> served(layers, requests),
    decreases requests.len(),
{
    if requests.len() > 0 {
        lemma_supplied_kinds(table, requests.drop_last());
    }
}

/// A tensor that was taken is gone: no name is served twice.
pub proof fn lemma_taken_once(table: Table, name: Seq<char>)
    ensures
        !taken(table, name).0.dom().contains(name),
        taken(taken(table, name).0, name).1 == Err::<Entry, Failure>(Failure::Missing(name)),
{
}

/// Of tensors that are entered under one name the last one counts, and no name
/// is there that was not entered.
pub proof fn lemma_last_counts(tensors: Seq<Tensor>)
    ensures
        forall|name: Seq<char>| #[trigger]
            table_of(tensors).dom().contains(name) <==> exists|i: int|
                0 <= i < tensors.len() && (#[trigger] tensors[i]).name@ == name,
        forall|i: int|
            0 <= i < tensors.len() && (forall|j: int|
                i < j < tensors.len() ==> (#[trigger] tensors[j]).name@ != tensors[i].name@) ==> {
                &&& table_of(tensors)[(#[trigger] tensors[i]).name@].shape == tensors[i].shape@
                &&& table_of(tensors)[tensors[i].name@].slot == tensors[i].slot
            },
    decreases tensors.len(),
{
    lemma_table(tensors);
    if tensors.len() > 0 {
        let rest = tensors.drop_last();
        let last = tensors.len() - 1;
        lemma_last_counts(rest);
        assert forall|i: int|
            0 <= i < tensors.len() && (forall|j: int|
                i < j < tensors.len() ==> (#[trigger] tensors[j]).name@
                    != tensors[i].name@) implies {
            &&& table_of(tensors)[(#[trigger] tensors[i]).name@].shape == tensors[i].shape@
            &&& table_of(tensors)[tensors[i].name@].slot == tensors[i].slot
        } by {
            if i < last {
                assert(tensors[last].name@ != tensors[i].name@);
                assert(rest[i] == tensors[i]);
                assert forall|j: int| i < j < rest.len() implies (#[trigger] rest[j]).name@
                    != rest[i].name@ by {
                    assert(tensors[j].name@ != tensors[i].name@);
                }
            }
        }
    }
}

/// Whether a layer has its kind and holds the tensors that a table keeps under
/// its name as its weight and its bias.
pub open spec fn plain(layer: Layer, table: Table, name: Seq<char>, kind: Kind) -> bool {
    &&& layer.kind == kind
    &&& table.dom().contains(name + ".weight"@)
    &&& table.dom().contains(name + ".bias"@)
    &&& layer.weight == table[name + ".weight"@].slot
    &&& layer.bias == Some(table[name + ".bias"@].slot)
}

/// The same for a layer that has no bias.
pub open spec fn unbiased(layer: Layer, table: Table, name: Seq<char>, kind: Kind) -> bool {
    &&& layer.kind == kind
    &&& table.dom().contains(name + ".weight"@)
    &&& layer.weight == table[name + ".weight"@].slot
    &&& layer.bias is None
}

/// The same for a norm whose tensors are called gamma and beta.
pub open spec fn scaled(layer: Layer, table: Table, name: Seq<char>, dimensions: i32) -> bool {
    &&& layer.kind == (Kind::LayerNorm { dimensions })
    &&& table.dom().contains(name + ".gamma"@)
    &&& table.dom().contains(name + ".beta"@)
    &&& layer.weight == table[name + ".gamma"@].slot
    &&& layer.bias == Some(table[name + ".beta"@].slot)
}

/// The same for a bare tensor.
pub open spec fn bare(layer: Layer, table: Table, name: Seq<char>) -> bool {
    &&& layer.kind == Kind::Values
    &&& table.dom().contains(name)
    &&& layer.weight == table[name].slot
    &&& layer.bias is None
}

/// A linear layer with a bias.
pub open spec fn dense(input_dims: i32, output_dims: i32) -> Kind {
    Kind::Linear { input_dims, output_dims, bias: true }
}

/// Whether the layers from `start` on hold what a table keeps under the names
/// of some requests.
pub open spec fn all_named(
    layers: Seq<Layer>,
    start: int,
    table: Table,
    requests: Seq<Wanted>,
) -> bool {
    forall|i: int|
        0 <= i < requests.len() ==> named(layers[start + i], table, #[trigger] requests[i])
}

/// What holds of all requests holds of those in a part of the list.
pub proof fn lemma_named_part(
    layers: Seq<Layer>,
    from: int,
    table: Table,
    requests: Seq<Wanted>,
    start: int,
    part: Seq<Wanted>,
)
    requires
        all_named(layers, from, table, requests),
        0 <= start,
        start + part.len() <= requests.len(),
        requests.subrange(start, start + part.len()) == part,
    ensures
        all_named(layers, from + start, table, part),
{
    assert forall|i: int| 0 <= i < part.len() implies named(
        layers[from + start + i],
        table,
        #[trigger] part[i],
    ) by {
        assert(part[i] == requests.subrange(start, start + part.len())[i]);
        assert(named(layers[from + (start + i)], table, requests[start + i]));
    }
}

/// Whether a layer holds what a table keeps under the name of a request.
pub open spec fn named(layer: Layer, table: Table, request: Wanted) -> bool {
    match request.kind {
        Kind::Values => bare(layer, table, request.name),
        Kind::Embedding { .. } => unbiased(layer, table, request.name, request.kind),
        Kind::LayerNorm { dimensions } => scaled(layer, table, request.name, dimensions),
        Kind::Linear { bias, .. } => if bias {
            plain(layer, table, request.name, request.kind)
        } else {
            unbiased(layer, table, request.name, request.kind)
        },
        Kind::Conv1d { bias, .. } => if bias {
            plain(layer, table, request.name, request.kind)
        } else {
            unbiased(layer, table, request.name, request.kind)
        },
        _ => plain(layer, table, request.name, request.kind),
    }
}

/// Whether the weight under a name has the dimensions of a layer: outputs
/// first, then the kernel, then the inputs of a group.
pub open spec fn shaped(table: Table, request: Wanted) -> bool {
    let shape = table[request.name + ".weight"@].shape;
    match request.kind {
        Kind::Linear { input_dims, output_dims, .. } => shape == seq![output_dims, input_dims],
        Kind::Conv1d { input_channels, output_channels, kernel_size, groups, .. } => {
            &&& shape.len() == 3
            &&& shape[0] == output_channels
            &&& shape[1] == kernel_size
            &&& shape[2] == (input_channels as int / groups as int) as i32
        },
        Kind::ConvTranspose1d { input_channels, output_channels, kernel_size, .. } => shape
            == seq![output_channels, kernel_size, input_channels],
        Kind::Embedding { count, dimensions } => shape == seq![count, dimensions],
        _ => true,
    }
}

/// The names of the tensors of a layer.
pub open spec fn tensor_names(request: Wanted) -> Set<Seq<char>> {
    match request.kind {
        Kind::Values => set![request.name],
        Kind::Embedding { .. } => set![request.name + ".weight"@],
        Kind::LayerNorm { .. } => set![request.name + ".gamma"@, request.name + ".beta"@],
        Kind::Linear { bias: false, .. } => set![request.name + ".weight"@],
        Kind::Conv1d { bias: false, .. } => set![request.name + ".weight"@],
        _ => set![request.name + ".weight"@, request.name + ".bias"@],
    }
}

/// Whether a table holds nothing but what another holds under the same names.
pub open spec fn within(rest: Table, table: Table) -> bool {
    forall|name: Seq<char>| #[trigger]
        rest.dom().contains(name) ==> table.dom().contains(name) && rest[name] == table[name]
}

/// The suffixes of the names of a layer's tensors are different.
proof fn lemma_suffixes(name: Seq<char>)
    ensures
        name + ".weight"@ != name + ".bias"@,
        name + ".gamma"@ != name + ".beta"@,
{
    reveal_strlit(".weight");
    reveal_strlit(".bias");
    reveal_strlit(".gamma");
    reveal_strlit(".beta");
    assert((name + ".weight"@)[name.len() as int + 1] == 'w');
    assert((name + ".bias"@)[name.len() as int + 1] == 'b');
    assert((name + ".gamma"@)[name.len() as int + 1] == 'g');
    assert((name + ".beta"@)[name.len() as int + 1] == 'b');
}

/// A layer is made exactly where its tensors are all there and its weight has
/// its dimensions. It then holds them, they are gone from the table, and the
/// others stay.
pub proof fn lemma_supplied(table: Table, name: Seq<char>, kind: Kind)
    ensures
        ({
            let request = want(name, kind);
            let (rest, result) = supplied(table, name, kind);
            &&& result is Ok <==> tensor_names(request).subset_of(table.dom()) && shaped(
                table,
                request,
            )
            &&& result matches Ok(layer) ==> named(layer, table, request) && rest
                == table.remove_keys(tensor_names(request))
            &&& within(rest, table)
        }),
{
    lemma_suffixes(name);
    let request = want(name, kind);
    let names = tensor_names(request);
    let (rest, result) = supplied(table, name, kind);
    assert(name + Seq::<char>::empty() =~= name);
    if let Kind::Conv1d { input_channels, output_channels, kernel_size, groups, .. } = kind {
        let inner = (input_channels as int / groups as int) as i32;
        let shape = table[name + ".weight"@].shape;
        if shape.len() == 3 && shape[0] == output_channels && shape[1] == kernel_size && shape[2]
            == inner {
            assert(shape =~= seq![output_channels, kernel_size, inner]);
        }
    }
    match kind {
        Kind::Values => {
            assert(names.contains(name));
        },
        Kind::LayerNorm { .. } => {
            assert(names.contains(name + ".gamma"@) && names.contains(name + ".beta"@));
        },
        _ => {
            assert(names.contains(name + ".weight"@));
            if kind.bias_suffix() is Some {
                assert(names.contains(name + ".bias"@));
            }
        },
    }
    if result is Ok {
        assert(rest =~= table.remove_keys(names));
    }
}

/// Every tensor goes to the layer that it is named for, and has that layer's
/// dimensions. Only tensors that are named for a layer are taken.
pub proof fn lemma_named(table: Table, requests: Seq<Wanted>)
    ensures
        within(supplied_all(table, requests).0, table),
        supplied_all(table, requests).1 matches Ok(layers) ==> {
            &&& layers.len() == requests.len()
            &&& all_named(layers, 0, table, requests)
            &&& forall|i: int|
                #![trigger layers[i]]
                #![trigger requests[i]]
                0 <= i < requests.len() ==> named(layers[i], table, requests[i]) && shaped(
                    table,
                    requests[i],
                )
            &&& forall|name: Seq<char>| #[trigger]
                table.dom().contains(name) && !supplied_all(table, requests).0.dom().contains(name)
                    ==> exists|i: int|
                    0 <= i < requests.len() && tensor_names(#[trigger] requests[i]).contains(name)
        },
    decreases requests.len(),
{
    if requests.len() > 0 {
        let before = requests.drop_last();
        let last = requests.last();
        lemma_named(table, before);
        let (rest, some) = supplied_all(table, before);
        let (end, layer) = supplied(rest, last.name, last.kind);
        lemma_supplied(rest, last.name, last.kind);
        assert(last == want(last.name, last.kind));
        if some is Ok && layer is Ok {
            let layers = supplied_all(table, requests).1->Ok_0;
            let count = requests.len() - 1;
            assert(named(layer->Ok_0, rest, last));
            assert(tensor_names(last).contains(last.name) || tensor_names(last).contains(
                last.name + ".weight"@,
            ) || tensor_names(last).contains(last.name + ".gamma"@));
            assert(named(layer->Ok_0, table, last));
            assert(shaped(table, last));
            assert forall|i: int| 0 <= i < requests.len() implies named(
                #[trigger] layers[i],
                table,
                requests[i],
            ) && shaped(table, requests[i]) by {
                if i < count {
                    assert(layers[i] == some->Ok_0[i]);
                    assert(requests[i] == before[i]);
                }
            }
            assert forall|name: Seq<char>|
                #[trigger] table.dom().contains(name) && !end.dom().contains(name) implies exists|
                i: int,
            |
                0 <= i < requests.len() && tensor_names(#[trigger] requests[i]).contains(name) by {
                if rest.dom().contains(name) {
                    assert(tensor_names(requests[count]).contains(name));
                } else {
                    let i = choose|i: int|
                        0 <= i < before.len() && tensor_names(#[trigger] before[i]).contains(name);
                    assert(tensor_names(requests[i]).contains(name));
                }
            }
        }
    }
}

/// Whether a name is that of a tensor of some layer.
pub open spec fn of_layer(name: Seq<char>, requests: Seq<Wanted>) -> bool {
    exists|i: int| 0 <= i < requests.len() && tensor_names(#[trigger] requests[i]).contains(name)
}

/// The names of a table that begin with a prefix and are those of no layer.
pub open spec fn spare(table: Table, requests: Seq<Wanted>, prefix: Seq<char>) -> Set<Seq<char>> {
    table.dom().filter(
        |name: Seq<char>| names::begins_with(name, prefix) && !of_layer(name, requests),
    )
}

/// Whether a table holds the tensors of all layers, with their dimensions.
pub open spec fn complete(table: Table, requests: Seq<Wanted>) -> bool {
    forall|i: int|
        0 <= i < requests.len() ==> tensor_names(#[trigger] requests[i]).subset_of(table.dom())
            && shaped(table, requests[i])
}

/// Whether no two layers share a tensor.
pub open spec fn apart(requests: Seq<Wanted>) -> bool {
    forall|i: int, j: int|
        0 <= i < j < requests.len() ==> tensor_names(#[trigger] requests[i]).disjoint(
            tensor_names(#[trigger] requests[j]),
        )
}

/// Layers that share no tensors are made exactly where a table holds all their
/// tensors, with their dimensions. The failure names a tensor that is missing or
/// has others. What is left are the tensors of no layer.
pub proof fn lemma_all_supplied(table: Table, requests: Seq<Wanted>)
    ensures
        ({
            let (rest, result) = supplied_all(table, requests);
            &&& result is Ok ==> complete(table, requests)
            &&& result is Ok ==> forall|name: Seq<char>|
                #![trigger rest.dom().contains(name)]
                #![trigger table.dom().contains(name)]
                rest.dom().contains(name) <==> table.dom().contains(name) && !of_layer(
                    name,
                    requests,
                )
            &&& apart(requests) ==> (complete(table, requests) ==> result is Ok)
            &&& result matches Err(failure) ==> apart(requests) ==> match failure {
                Failure::Missing(name) => !table.dom().contains(name) && of_layer(name, requests),
                Failure::Shape(name, shape) => exists|i: int|
                    0 <= i < requests.len() && !shaped(table, #[trigger] requests[i]) && name
                        == requests[i].name + ".weight"@ && shape == table[name].shape,
                _ => false,
            }
        }),
    decreases requests.len(),
{
    let (rest, result) = supplied_all(table, requests);
    if requests.len() > 0 {
        let before = requests.drop_last();
        let last = requests.last();
        let count = requests.len() - 1;
        assert(requests[count] == last);
        lemma_all_supplied(table, before);
        lemma_named(table, before);
        let (middle, some) = supplied_all(table, before);
        lemma_supplied(middle, last.name, last.kind);
        assert(last == want(last.name, last.kind));
        assert forall|i: int| 0 <= i < before.len() implies before[i] == #[trigger] requests[i] by {
        }
        assert forall|name: Seq<char>| of_layer(name, before) implies #[trigger] of_layer(
            name,
            requests,
        ) by {
            let i = choose|i: int|
                0 <= i < before.len() && tensor_names(#[trigger] before[i]).contains(name);
            assert(tensor_names(requests[i]).contains(name));
        }
        assert forall|name: Seq<char>| #[trigger] of_layer(name, requests) implies of_layer(
            name,
            before,
        ) || tensor_names(last).contains(name) by {
            let i = choose|i: int|
                0 <= i < requests.len() && tensor_names(#[trigger] requests[i]).contains(name);
            if i < count {
                assert(tensor_names(before[i]).contains(name));
            }
        }
        assert forall|name: Seq<char>| tensor_names(last).contains(name) implies #[trigger] of_layer(
            name,
            requests,
        ) by {
            assert(tensor_names(requests[count]).contains(name));
        }
        if apart(requests) {
            assert(apart(before)) by {
                assert forall|i: int, j: int| 0 <= i < j < before.len() implies tensor_names(
                    #[trigger] before[i],
                ).disjoint(tensor_names(#[trigger] before[j])) by {
                    assert(tensor_names(requests[i]).disjoint(tensor_names(requests[j])));
                }
            }
            assert forall|name: Seq<char>| #[trigger] tensor_names(last).contains(name) implies
                !of_layer(name, before) by {
                if of_layer(name, before) {
                    let i = choose|i: int|
                        0 <= i < before.len() && tensor_names(#[trigger] before[i]).contains(name);
                    assert(tensor_names(requests[i]).disjoint(tensor_names(requests[count])));
                }
            }
        }
        lemma_last_supplied(table, middle, last);
        if complete(table, requests) {
            assert(complete(table, before)) by {
                assert forall|i: int| 0 <= i < before.len() implies tensor_names(
                    #[trigger] before[i],
                ).subset_of(table.dom()) && shaped(table, before[i]) by {
                    assert(tensor_names(requests[i]).subset_of(table.dom()));
                }
            }
        }
        if let Err(failure) = result {
            if apart(requests) {
                if let Err(earlier) = some {
                    assert(earlier == failure);
                    if let Failure::Shape(name, shape) = failure {
                        let i = choose|i: int|
                            0 <= i < before.len() && !shaped(table, #[trigger] before[i]) && name
                                == before[i].name + ".weight"@ && shape == table[name].shape;
                        assert(!shaped(table, requests[i]));
                    }
                } else {
                    match failure {
                        Failure::Missing(name) => {
                            assert(tensor_names(last).contains(name));
                            assert(!middle.dom().contains(name));
                            if table.dom().contains(name) {
                                assert(of_layer(name, before));
                            }
                        },
                        Failure::Shape(name, shape) => {
                            assert(!shaped(table, requests[count]));
                        },
                        _ => {},
                    }
                }
            }
        }
    } else {
        assert forall|name: Seq<char>| !#[trigger] of_layer(name, requests) by {}
    }
}

/// What a part of a table says of a layer, the whole table does.
proof fn lemma_last_supplied(table: Table, part: Table, request: Wanted)
    requires
        within(part, table),
    ensures
        ({
            let names = tensor_names(request);
            let (rest, result) = supplied(part, request.name, request.kind);
            &&& names.subset_of(part.dom()) ==> names.subset_of(table.dom())
            &&& names.subset_of(part.dom()) ==> (shaped(part, request) <==> shaped(table, request))
            &&& result matches Err(Failure::Missing(name)) ==> names.contains(name)
                && !part.dom().contains(name)
            &&& result matches Err(Failure::Shape(name, shape)) ==> {
                &&& names.subset_of(part.dom())
                &&& !shaped(part, request)
                &&& name == request.name + ".weight"@
                &&& shape == table[name].shape
            }
            &&& result matches Err(failure) ==> failure is Missing || failure is Shape
        }),
{
    let name = request.name;
    let kind = request.kind;
    let names = tensor_names(request);
    lemma_suffixes(name);
    lemma_supplied(part, name, kind);
    assert(request == want(name, kind));
    assert(name + Seq::<char>::empty() =~= name);
    match kind {
        Kind::Values => {
            assert(names.contains(name));
        },
        Kind::LayerNorm { .. } => {
            assert(names.contains(name + ".gamma"@) && names.contains(name + ".beta"@));
        },
        _ => {
            assert(names.contains(name + ".weight"@));
            if kind.bias_suffix() is Some {
                assert(names.contains(name + ".bias"@));
            }
        },
    }
}

/// The tensors that are left of a checkpoint.
#[derive(Debug)]
pub struct Weights {
    tensors: Vec<Tensor>,
}

impl View for Weights {
    type V = Table;

    closed spec fn view(&self) -> Table {
        table_of(self.tensors@)
    }
}

/// What a table of distinct tensors holds.
proof fn lemma_table(tensors: Seq<Tensor>)
    ensures
        forall|name: Seq<char>| #[trigger]
            table_of(tensors).dom().contains(name) <==> exists|i: int|
                0 <= i < tensors.len() && (#[trigger] tensors[i]).name@ == name,
        distinct(tensors) ==> forall|i: int|
            0 <= i < tensors.len() ==> table_of(tensors)[(#[trigger] tensors[i]).name@]
                == tensors[i]@,
    decreases tensors.len(),
{
    if tensors.len() > 0 {
        let rest = tensors.drop_last();
        lemma_table(rest);
        assert forall|name: Seq<char>| #[trigger] table_of(tensors).dom().contains(name) implies exists|
            i: int,
        |
            0 <= i < tensors.len() && (#[trigger] tensors[i]).name@ == name by {
            if name == tensors.last().name@ {
                assert(tensors[tensors.len() - 1].name@ == name);
            } else {
                assert(table_of(rest).dom().contains(name));
                let i = choose|i: int| 0 <= i < rest.len() && (#[trigger] rest[i]).name@ == name;
                assert(tensors[i].name@ == name);
            }
        }
        assert forall|name: Seq<char>|
            (exists|i: int| 0 <= i < tensors.len() && (#[trigger] tensors[i]).name@ == name)
            implies #[trigger] table_of(tensors).dom().contains(name) by {
            let i = choose|i: int| 0 <= i < tensors.len() && (#[trigger] tensors[i]).name@ == name;
            if i < rest.len() {
                assert(rest[i].name@ == name);
                assert(table_of(rest).dom().contains(name));
            }
        }
        if distinct(tensors) {
            assert forall|i: int| 0 <= i < tensors.len() implies table_of(
                tensors,
            )[(#[trigger] tensors[i]).name@] == tensors[i]@ by {
                if i < rest.len() {
                    assert(rest[i] == tensors[i]);
                    assert(tensors[i].name@ != tensors[tensors.len() - 1].name@);
                }
            }
        }
    }
}

/// A table without one of its tensors.
proof fn lemma_removed(before: Seq<Tensor>, index: int)
    requires
        distinct(before),
        0 <= index < before.len(),
    ensures
        distinct(before.remove(index)),
        table_of(before.remove(index)) == table_of(before).remove(before[index].name@),
{
    lemma_table(before);

    let after = before.remove(index);
    assert forall|i: int, j: int| 0 <= i < j < after.len() implies (
    #[trigger] after[i]).name@ != (#[trigger] after[j]).name@ by {
        let k = if i < index {
            i
        } else {
            i + 1
        };
        let l = if j < index {
            j
        } else {
            j + 1
        };
        assert(before[k].name@ != before[l].name@);
    }
    lemma_table(after);
    assert(table_of(after) =~= table_of(before).remove(before[index].name@)) by {
        assert forall|n: Seq<char>|
            table_of(after).dom().contains(n) == table_of(before).remove(
                before[index].name@,
            ).dom().contains(n) by {
            if table_of(after).dom().contains(n) {
                let i = choose|i: int|
                    0 <= i < after.len() && (#[trigger] after[i]).name@ == n;
                let k = if i < index {
                    i
                } else {
                    i + 1
                };
                assert(before[k].name@ == n);
                assert(before[k].name@ != before[index].name@);
            }
            if table_of(before).dom().contains(n) && n != before[index].name@ {
                let i = choose|i: int|
                    0 <= i < before.len() && (#[trigger] before[i]).name@ == n;
                let k = if i < index {
                    i
                } else {
                    i - 1
                };
                assert(after[k].name@ == n);
            }
        }
        assert forall|n: Seq<char>| table_of(after).dom().contains(n) implies
            table_of(after)[n] == table_of(before)[n] by {
            let i = choose|i: int|
                0 <= i < after.len() && (#[trigger] after[i]).name@ == n;
            let k = if i < index {
                i
            } else {
                i + 1
            };
            assert(table_of(after)[after[i].name@] == after[i]@);
            assert(table_of(before)[before[k].name@] == before[k]@);
        }
    }
}

impl Weights {
    /// Whether every name occurs once.
    pub closed spec fn valid(&self) -> bool {
        distinct(self.tensors@)
    }

    /// The position of a name.
    fn find(&self, name: &str) -> (result: Option<usize>)
        ensures
            match result {
                Some(index) => index < self.tensors@.len() && self.tensors@[index as int].name@
                    == name@,
                None => !self@.dom().contains(name@),
            },
    {
        let wanted = name.to_owned();
        let mut index: usize = 0;
        while index < self.tensors.len()
            invariant
                wanted@ == name@,
                index <= self.tensors@.len(),
                forall|i: int| 0 <= i < index ==> (#[trigger] self.tensors@[i]).name@ != name@,
            decreases self.tensors@.len() - index,
        {
            if self.tensors[index].name == wanted {
                return Some(index);
            }
            index = index + 1;
        }
        proof {
            lemma_table(self.tensors@);
        }
        None
    }

    /// Enters the tensors of the checkpoint at `source`. Of tensors with the
    /// same name the last one counts.
    pub fn load(source: &str, tensors: Vec<Tensor>) -> (result: Result<Weights, WeightsError>)
        ensures
            match result {
                Ok(weights) => tensors@.len() > 0 && weights.valid() && weights@ == table_of(
                    tensors@,
                ),
                Err(error) => tensors@.len() == 0 && error@ == Failure::Empty(source@),
            },
    {
        if tensors.len() == 0 {
            return Err(WeightsError::Empty { source: source.to_owned() });
        }
        let ghost all = tensors@;
        let mut remaining = tensors;
        let mut entered: Weights = Weights { tensors: Vec::new() };
        let mut reversed: Vec<Tensor> = Vec::new();
        while remaining.len() > 0
            invariant
                remaining@.len() + reversed@.len() == all.len(),
                remaining@ == all.take(remaining@.len() as int),
                forall|i: int|
                    0 <= i < reversed@.len() ==> #[trigger] reversed@[i] == all[all.len() - 1 - i],
            decreases remaining@.len(),
        {
            let ghost count = remaining@.len();
            match remaining.pop() {
                Some(tensor) => {
                    reversed.push(tensor);
                    assert(remaining@ =~= all.take(remaining@.len() as int));
                },
                None => {},
            }
        }
        assert(all.take(0) =~= seq![]);
        while reversed.len() > 0
            invariant
                reversed@.len() <= all.len(),
                forall|i: int|
                    0 <= i < reversed@.len() ==> #[trigger] reversed@[i] == all[all.len() - 1 - i],
                entered.valid(),
                entered@ == table_of(all.take(all.len() - reversed@.len())),
            decreases reversed@.len(),
        {
            let ghost count = all.len() - reversed@.len();
            match reversed.pop() {
                Some(tensor) => {
                    assert(tensor == all[count]);
                    assert(all.take(count + 1).drop_last() =~= all.take(count));
                    entered.enter(tensor);
                },
                None => {},
            }
        }
        assert(all.take(all.len() as int) =~= all);
        Ok(entered)
    }

    /// Enters a tensor, in place of one with the same name.
    fn enter(&mut self, tensor: Tensor)
        requires
            old(self).valid(),
        ensures
            final(self).valid(),
            final(self)@ == old(self)@.insert(tensor.name@, tensor@),
    {
        proof {
            lemma_table(self.tensors@);
        }
        let ghost before = self.tensors@;
        match self.find(tensor.name.as_str()) {
            Some(index) => {
                let ghost name = tensor.name@;
                let ghost entry = tensor@;
                self.tensors.set(index, tensor);
                proof {
                    let after = self.tensors@;
                    lemma_table(after);
                    assert forall|i: int, j: int| 0 <= i < j < after.len() implies (
                    #[trigger] after[i]).name@ != (#[trigger] after[j]).name@ by {
                        assert(before[i].name@ != before[j].name@);
                    }
                    assert forall|n: Seq<char>|
                        table_of(after).dom().contains(n) == table_of(before).dom().contains(n) by {
                        if table_of(before).dom().contains(n) {
                            let i = choose|i: int|
                                0 <= i < before.len() && (#[trigger] before[i]).name@ == n;
                            assert(after[i].name@ == n);
                        }
                        if table_of(after).dom().contains(n) {
                            let i = choose|i: int|
                                0 <= i < after.len() && (#[trigger] after[i]).name@ == n;
                            assert(before[i].name@ == n);
                        }
                    }
                    assert(before[index as int].name@ == name);
                    assert(table_of(after) =~= table_of(before).insert(name, entry)) by {
                        assert forall|n: Seq<char>| table_of(after).dom().contains(n) implies
                            table_of(after)[n] == table_of(before).insert(name, entry)[n] by {
                            let i = choose|i: int|
                                0 <= i < after.len() && (#[trigger] after[i]).name@ == n;
                            assert(table_of(after)[after[i].name@] == after[i]@);
                            assert(before[i].name@ == n);
                            if i != index {
                                assert(after[i] == before[i]);
                                assert(n != name);
                            }
                        }
                    }
                }
            },
            None => {
                self.tensors.push(tensor);
                proof {
                    assert(self.tensors@.drop_last() =~= before);
                    assert forall|i: int, j: int| 0 <= i < j < self.tensors@.len() implies (
                    #[trigger] self.tensors@[i]).name@ != (#[trigger] self.tensors@[j]).name@ by {
                        assert(before[i].name@ == self.tensors@[i].name@);
                    }
                }
            },
        }
    }

    /// The first dimension of a tensor, if it is there and has one.
    pub fn first_dimension(&self, name: &str) -> (result: Option<i32>)
        requires
            self.valid(),
        ensures
            result == if self@.dom().contains(name@) && self@[name@].shape.len() > 0 {
                Some(self@[name@].shape[0])
            } else {
                None
            },
    {
        proof {
            lemma_table(self.tensors@);
        }
        match self.find(name) {
            Some(index) => {
                if self.tensors[index].shape.len() > 0 {
                    Some(self.tensors[index].shape[0])
                } else {
                    None
                }
            },
            None => None,
        }
    }

    /// Takes a tensor out.
    pub fn take(&mut self, name: &str) -> (result: Result<Tensor, WeightsError>)
        requires
            old(self).valid(),
        ensures
            final(self).valid(),
            final(self)@ == taken(old(self)@, name@).0,
            match result {
                Ok(tensor) => taken(old(self)@, name@).1 == Ok::<Entry, Failure>(tensor@)
                    && tensor.name@ == name@,
                Err(error) => taken(old(self)@, name@).1 == Err::<Entry, Failure>(error@),
            },
    {
        proof {
            lemma_table(self.tensors@);
        }
        match self.find(name) {
            Some(index) => {
                let ghost before = self.tensors@;
                let tensor = self.tensors.remove(index);
                proof {
                    lemma_removed(before, index as int);
                }
                Ok(tensor)
            },
            None => Err(WeightsError::Missing { name: name.to_owned() }),
        }
    }

    /// Takes the tensors of a layer out.
    pub fn layer(&mut self, name: &str, kind: Kind) -> (result: Result<Layer, WeightsError>)
        requires
            old(self).valid(),
            kind.sensible(),
        ensures
            final(self).valid(),
            final(self)@ == supplied(old(self)@, name@, kind).0,
            answers(result, supplied(old(self)@, name@, kind).1),
    {
        let weight_name = match kind {
            Kind::Values => name.to_owned(),
            Kind::LayerNorm { .. } => names::joined(name, ".gamma"),
            _ => names::joined(name, ".weight"),
        };
        assert(weight_name@ =~= name@ + kind.weight_suffix());
        let weight = match self.take(weight_name.as_str()) {
            Ok(tensor) => tensor,
            Err(error) => return Err(error),
        };
        let bias_name = match kind {
            Kind::Values => None,
            Kind::Linear { bias, .. } => if bias {
                Some(names::joined(name, ".bias"))
            } else {
                None
            },
            Kind::Conv1d { bias, .. } => if bias {
                Some(names::joined(name, ".bias"))
            } else {
                None
            },
            Kind::Embedding { .. } => None,
            Kind::LayerNorm { .. } => Some(names::joined(name, ".beta")),
            _ => Some(names::joined(name, ".bias")),
        };
        let bias = match bias_name {
            None => None,
            Some(bias_name) => match self.take(bias_name.as_str()) {
                Ok(tensor) => Some(tensor.slot),
                Err(error) => return Err(error),
            },
        };
        if !kind.fits(&weight.shape) {
            return Err(
                WeightsError::Shape { what: names::joined(name, ".weight"), shape: weight.shape },
            );
        }
        Ok(Layer { kind, weight: weight.slot, bias })
    }

    /// Serves the requests of a model in order.
    pub fn layers(&mut self, requests: &Vec<Request>) -> (result: Result<Vec<Layer>, WeightsError>)
        requires
            old(self).valid(),
            all_sensible(wanted(requests@)),
        ensures
            final(self).valid(),
            final(self)@ == supplied_all(old(self)@, wanted(requests@)).0,
            answers_all(result, supplied_all(old(self)@, wanted(requests@)).1),
            result matches Ok(layers) ==> served(layers@, wanted(requests@)),
    {
        let mut result: Vec<Layer> = Vec::new();
        let ghost all = wanted(requests@);
        let ghost start = self@;
        let mut index: usize = 0;
        assert(all.take(0) =~= seq![]);
        assert(result@ =~= seq![]);
        while index < requests.len()
            invariant
                all == wanted(requests@),
                start == old(self)@,
                all_sensible(all),
                index <= requests@.len(),
                self.valid(),
                supplied_all(start, all.take(index as int)) == (
                    self@,
                    Ok::<Seq<Layer>, Failure>(result@),
                ),
            decreases requests@.len() - index,
        {
            assert(all.take(index + 1).drop_last() =~= all.take(index as int));
            assert(all[index as int] == requests@[index as int]@);
            match self.layer(requests[index].name.as_str(), requests[index].kind) {
                Ok(layer) => result.push(layer),
                Err(error) => {
                    proof {
                        lemma_supplied_prefix(start, all, index + 1);
                    }
                    return Err(error);
                },
            }
            index = index + 1;
        }
        assert(all.take(all.len() as int) =~= all);
        proof {
            lemma_supplied_kinds(start, all);
        }
        Ok(result)
    }

    /// A dense layer.
    pub fn linear(&mut self, name: &str, input_dims: i32, output_dims: i32, bias: bool) -> (result:
        Result<Layer, WeightsError>)
        requires
            old(self).valid(),
        ensures
            final(self).valid(),
            ({
                let kind = Kind::Linear { input_dims, output_dims, bias };
                &&& final(self)@ == supplied(old(self)@, name@, kind).0
                &&& answers(result, supplied(old(self)@, name@, kind).1)
            }),
    {
        self.layer(name, Kind::Linear { input_dims, output_dims, bias })
    }

    /// A convolution with a bias.
    pub fn conv1d(
        &mut self,
        name: &str,
        input_channels: i32,
        output_channels: i32,
        kernel_size: i32,
        padding: i32,
        dilation: i32,
        stride: i32,
        groups: i32,
    ) -> (result: Result<Layer, WeightsError>)
        requires
            old(self).valid(),
            input_channels >= 0,
            groups > 0,
        ensures
            final(self).valid(),
            ({
                let kind = Kind::Conv1d {
                    input_channels,
                    output_channels,
                    kernel_size,
                    padding,
                    dilation,
                    stride,
                    groups,
                    bias: true,
                };
                &&& final(self)@ == supplied(old(self)@, name@, kind).0
                &&& answers(result, supplied(old(self)@, name@, kind).1)
            }),
    {
        self.layer(
            name,
            Kind::Conv1d {
                input_channels,
                output_channels,
                kernel_size,
                padding,
                dilation,
                stride,
                groups,
                bias: true,
            },
        )
    }

    /// A convolution without a bias.
    pub fn conv1d_without_bias(
        &mut self,
        name: &str,
        input_channels: i32,
        output_channels: i32,
        kernel_size: i32,
        padding: i32,
        dilation: i32,
        stride: i32,
        groups: i32,
    ) -> (result: Result<Layer, WeightsError>)
        requires
            old(self).valid(),
            input_channels >= 0,
            groups > 0,
        ensures
            final(self).valid(),
            ({
                let kind = Kind::Conv1d {
                    input_channels,
                    output_channels,
                    kernel_size,
                    padding,
                    dilation,
                    stride,
                    groups,
                    bias: false,
                };
                &&& final(self)@ == supplied(old(self)@, name@, kind).0
                &&& answers(result, supplied(old(self)@, name@, kind).1)
            }),
    {
        self.layer(
            name,
            Kind::Conv1d {
                input_channels,
                output_channels,
                kernel_size,
                padding,
                dilation,
                stride,
                groups,
                bias: false,
            },
        )
    }

    /// A transposed convolution.
    pub fn conv_transpose1d(
        &mut self,
        name: &str,
        input_channels: i32,
        output_channels: i32,
        kernel_size: i32,
        padding: i32,
        stride: i32,
    ) -> (result: Result<Layer, WeightsError>)
        requires
            old(self).valid(),
        ensures
            final(self).valid(),
            ({
                let kind = Kind::ConvTranspose1d {
                    input_channels,
                    output_channels,
                    kernel_size,
                    padding,
                    stride,
                };
                &&& final(self)@ == supplied(old(self)@, name@, kind).0
                &&& answers(result, supplied(old(self)@, name@, kind).1)
            }),
    {
        self.layer(
            name,
            Kind::ConvTranspose1d { input_channels, output_channels, kernel_size, padding, stride },
        )
    }

    /// An embedding.
    pub fn embedding(&mut self, name: &str, count: i32, dimensions: i32) -> (result: Result<
        Layer,
        WeightsError,
    >)
        requires
            old(self).valid(),
        ensures
            final(self).valid(),
            ({
                let kind = Kind::Embedding { count, dimensions };
                &&& final(self)@ == supplied(old(self)@, name@, kind).0
                &&& answers(result, supplied(old(self)@, name@, kind).1)
            }),
    {
        self.layer(name, Kind::Embedding { count, dimensions })
    }

    /// A layer norm over tensors called gamma and beta.
    pub fn layer_norm(&mut self, name: &str, dimensions: i32) -> (result: Result<
        Layer,
        WeightsError,
    >)
        requires
            old(self).valid(),
        ensures
            final(self).valid(),
            ({
                let kind = Kind::LayerNorm { dimensions };
                &&& final(self)@ == supplied(old(self)@, name@, kind).0
                &&& answers(result, supplied(old(self)@, name@, kind).1)
            }),
    {
        self.layer(name, Kind::LayerNorm { dimensions })
    }

    /// A layer norm over tensors called weight and bias.
    pub fn standard_layer_norm(&mut self, name: &str, dimensions: i32) -> (result: Result<
        Layer,
        WeightsError,
    >)
        requires
            old(self).valid(),
        ensures
            final(self).valid(),
            ({
                let kind = Kind::StandardLayerNorm { dimensions };
                &&& final(self)@ == supplied(old(self)@, name@, kind).0
                &&& answers(result, supplied(old(self)@, name@, kind).1)
            }),
    {
        self.layer(name, Kind::StandardLayerNorm { dimensions })
    }

    /// A group norm.
    pub fn group_norm(&mut self, name: &str, group_count: i32, dimensions: i32) -> (result: Result<
        Layer,
        WeightsError,
    >)
        requires
            old(self).valid(),
        ensures
            final(self).valid(),
            ({
                let kind = Kind::GroupNorm { group_count, dimensions };
                &&& final(self)@ == supplied(old(self)@, name@, kind).0
                &&& answers(result, supplied(old(self)@, name@, kind).1)
            }),
    {
        self.layer(name, Kind::GroupNorm { group_count, dimensions })
    }

    /// The number of tensors is the size of the table.
    proof fn lemma_count(&self)
        requires
            self.valid(),
        ensures
            self@.dom().finite(),
            self@.dom().len() == self.tensors@.len(),
    {
        let keys = self.tensors@.map_values(|tensor: Tensor| tensor.name@);
        assert(keys.no_duplicates()) by {
            assert forall|i: int, j: int|
                0 <= i < keys.len() && 0 <= j < keys.len() && i != j implies keys[i] != keys[j] by {
                if i < j {
                    assert(self.tensors@[i].name@ != self.tensors@[j].name@);
                } else {
                    assert(self.tensors@[j].name@ != self.tensors@[i].name@);
                }
            }
        }
        keys.unique_seq_to_set();
        lemma_table(self.tensors@);
        assert(self@.dom() =~= keys.to_set()) by {
            assert forall|name: Seq<char>|
                self@.dom().contains(name) == keys.to_set().contains(name) by {
                if self@.dom().contains(name) {
                    let i = choose|i: int|
                        0 <= i < self.tensors@.len() && (#[trigger] self.tensors@[i]).name@
                            == name;
                    assert(keys[i] == name);
                }
                if keys.to_set().contains(name) {
                    let i = choose|i: int| 0 <= i < keys.len() && keys[i] == name;
                    assert(self.tensors@[i].name@ == name);
                }
            }
        }
    }

    /// A table has finitely many names.
    pub proof fn lemma_finite(&self)
        requires
            self.valid(),
        ensures
            self@.dom().finite(),
    {
        self.lemma_count();
    }

    /// Drops every tensor whose name begins with `prefix` and counts them.
    pub fn discard_prefix(&mut self, prefix: &str) -> (count: usize)
        requires
            old(self).valid(),
        ensures
            final(self).valid(),
            final(self)@ == without_prefix(old(self)@, prefix@),
            count == with_prefix(old(self)@, prefix@).len(),
            with_prefix(old(self)@, prefix@).finite(),
            old(self)@.dom().finite(),
            final(self)@.dom().finite(),
            count == old(self)@.dom().len() - final(self)@.dom().len(),
    {
        let ghost before = self.tensors@;
        let ghost table = self@;
        let total = self.tensors.len();
        proof {
            self.lemma_count();
            lemma_table(before);
        }
        let mut index: usize = 0;
        let mut dropped: usize = 0;
        while index < self.tensors.len()
            invariant
                self.valid(),
                table.dom().finite(),
                table.dom().len() == total,
                index <= self.tensors@.len(),
                self.tensors@.len() + dropped == total,
                forall|i: int|
                    0 <= i < index ==> !names::begins_with(
                        (#[trigger] self.tensors@[i]).name@,
                        prefix@,
                    ),
                forall|name: Seq<char>|
                    #![trigger self@.dom().contains(name)]
                    #![trigger table.dom().contains(name)]
                    {
                        &&& self@.dom().contains(name) ==> table.dom().contains(name)
                            && self@[name] == table[name]
                        &&& table.dom().contains(name) && !names::begins_with(name, prefix@)
                            ==> self@.dom().contains(name)
                    },
            decreases self.tensors@.len() - index,
        {
            if names::starts_with(self.tensors[index].name.as_str(), prefix) {
                proof {
                    lemma_table(self.tensors@);
                    assert(self@.dom().contains(self.tensors@[index as int].name@));
                }
                let ghost kept = self.tensors@;
                self.tensors.remove(index);
                proof {
                    lemma_removed(kept, index as int);
                }
                dropped = dropped + 1;
            } else {
                index = index + 1;
            }
        }
        proof {
            self.lemma_count();
            lemma_table(self.tensors@);
            assert(self@ =~= without_prefix(table, prefix@)) by {
                assert forall|name: Seq<char>| self@.dom().contains(name) implies
                    !names::begins_with(name, prefix@) by {
                    let i = choose|i: int|
                        0 <= i < self.tensors@.len() && (#[trigger] self.tensors@[i]).name@ == name;
                }
            }
            assert(with_prefix(table, prefix@) =~= table.dom().difference(self@.dom()));
            vstd::set_lib::lemma_set_difference_len(table.dom(), self@.dom());
            assert(table.dom().intersect(self@.dom()) =~= self@.dom());
        }
        dropped
    }

    /// Accepts the checkpoint where nothing is left of it.
    pub fn finish(self) -> (result: Result<(), WeightsError>)
        requires
            self.valid(),
        ensures
            match result {
                Ok(_) => self@ == Table::empty(),
                Err(error) => {
                    &&& self@ != Table::empty()
                    &&& error@ == Failure::Unused(self@.dom())
                    &&& error matches WeightsError::Unused { names } && texts(
                        names@,
                    ).no_duplicates() && names@.len() == self@.dom().len()
                },
            },
    {
        proof {
            lemma_table(self.tensors@);
        }
        if self.tensors.len() == 0 {
            assert(self@ =~= Table::empty());
            return Ok(());
        }
        let mut names: Vec<String> = Vec::new();
        let mut index: usize = 0;
        while index < self.tensors.len()
            invariant
                index <= self.tensors@.len(),
                names@.len() == index,
                forall|i: int|
                    0 <= i < index ==> (#[trigger] names@[i])@ == self.tensors@[i].name@,
            decreases self.tensors@.len() - index,
        {
            names.push(self.tensors[index].name.clone());
            index = index + 1;
        }
        proof {
            assert(self@.dom().contains(self.tensors@[0].name@));
            self.lemma_count();
            assert(texts(names@).no_duplicates()) by {
                assert forall|i: int, j: int|
                    0 <= i < texts(names@).len() && 0 <= j < texts(names@).len() && i
                        != j implies texts(names@)[i] != texts(names@)[j] by {
                    assert(texts(names@)[i] == self.tensors@[i].name@);
                    assert(texts(names@)[j] == self.tensors@[j].name@);
                }
            }
            assert(texts(names@).to_set() =~= self@.dom()) by {
                assert forall|name: Seq<char>|
                    self@.dom().contains(name) == texts(names@).to_set().contains(name) by {
                    if self@.dom().contains(name) {
                        let i = choose|i: int|
                            0 <= i < self.tensors@.len() && (#[trigger] self.tensors@[i]).name@
                                == name;
                        assert(names@[i]@ == name);
                        assert(texts(names@)[i] == name);
                    }
                    if texts(names@).to_set().contains(name) {
                        let i = choose|i: int|
                            0 <= i < texts(names@).len() && texts(names@)[i] == name;
                        assert(names@[i]@ == name);
                        assert(self.tensors@[i].name@ == name);
                    }
                }
            }
        }
        Err(WeightsError::Unused { names })
    }
}

/// Whether the result of a layer is the expected one.
pub open spec fn answers(
    result: Result<Layer, WeightsError>,
    expected: Result<Layer, Failure>,
) -> bool {
    match result {
        Ok(layer) => expected == Ok::<Layer, Failure>(layer),
        Err(error) => expected == Err::<Layer, Failure>(error@),
    }
}

/// Whether the layers are the expected ones.
pub open spec fn answers_all(
    result: Result<Vec<Layer>, WeightsError>,
    expected: Result<Seq<Layer>, Failure>,
) -> bool {
    match result {
        Ok(layers) => expected == Ok::<Seq<Layer>, Failure>(layers@),
        Err(error) => expected == Err::<Seq<Layer>, Failure>(error@),
    }
}

/// Whether the shape of every weight can be worked out.
pub open spec fn all_sensible(requests: Seq<Wanted>) -> bool {
    forall|i: int| 0 <= i < requests.len() ==> (#[trigger] requests[i]).kind.sensible()
}

/// The names that begin with a prefix.
pub open spec fn with_prefix(table: Table, prefix: Seq<char>) -> Set<Seq<char>> {
    table.dom().filter(|name: Seq<char>| names::begins_with(name, prefix))
}

/// Dropping a prefix drops the tensors whose names begin with it, and keeps all
/// others as they are.
pub proof fn lemma_discarded(table: Table, prefix: Seq<char>, name: Seq<char>)
    ensures
        without_prefix(table, prefix).dom().contains(name) <==> table.dom().contains(name)
            && !names::begins_with(name, prefix),
        with_prefix(table, prefix).contains(name) <==> table.dom().contains(name)
            && names::begins_with(name, prefix),
        table.dom().contains(name) && !names::begins_with(name, prefix) ==> without_prefix(
            table,
            prefix,
        )[name] == table[name],
{
}

/// Dropping a prefix again finds nothing more to drop.
pub proof fn lemma_discarded_once(table: Table, prefix: Seq<char>)
    ensures
        with_prefix(without_prefix(table, prefix), prefix) == Set::<Seq<char>>::empty(),
        without_prefix(without_prefix(table, prefix), prefix) == without_prefix(table, prefix),
{
    let left = without_prefix(table, prefix);
    assert(with_prefix(left, prefix) =~= Set::<Seq<char>>::empty());
    assert(without_prefix(left, prefix) =~= left);
}

/// A table without the names that begin with a prefix.
pub open spec fn without_prefix(table: Table, prefix: Seq<char>) -> Table {
    table.remove_keys(with_prefix(table, prefix))
}

} // verus!
