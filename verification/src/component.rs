//! Components: their identifiers, their kinds and their output state.

use vstd::prelude::*;

verus! {

/// Identifies one component of an engine. Identifiers are handed out in
/// sequence, starting at zero, and are never reused.
#[derive(Clone, Copy, Debug, Default, PartialEq, Eq, Hash, PartialOrd, Ord, Structural)]
pub struct ComponentId(usize);

impl View for ComponentId {
    type V = usize;

    closed spec fn view(&self) -> usize {
        self.0
    }
}

impl ComponentId {
    /// The identifier with the given number.
    pub fn new(inner: usize) -> (id: ComponentId)
        ensures
            id@ == inner,
    {
        ComponentId(inner)
    }

    /// The number of this identifier.
    pub fn index(&self) -> (i: usize)
        ensures
            i == self@,
    {
        self.0
    }

    /// The largest identifier there is.
    pub fn max() -> (id: ComponentId)
        ensures
            id@ == usize::MAX,
    {
        ComponentId(usize::MAX)
    }

    /// Two identifiers with the same number are the same identifier.
    pub proof fn lemma_view_injective(a: ComponentId, b: ComponentId)
        ensures
            a@ == b@ <==> a == b,
    {
    }
}

/// Hands out identifiers in sequence. The field is the number of the next one.
pub struct ComponentIdGenerator(pub usize);

impl Default for ComponentIdGenerator {
    fn default() -> (g: ComponentIdGenerator)
        ensures
            g.0 == 0,
    {
        ComponentIdGenerator(0)
    }
}

impl ComponentIdGenerator {
    /// Returns the next identifier and moves on by one.
    pub fn next_id(&mut self) -> (id: ComponentId)
        requires
            old(self).0 < usize::MAX,
        ensures
            id@ == old(self).0,
            final(self).0 == old(self).0 + 1,
    {
        let id = ComponentId(self.0);
        self.0 += 1;
        id
    }
}

/// A short name for [`ComponentId`].
pub type Id = ComponentId;

/// A short name for [`ComponentIdGenerator`].
pub type IdGenerator = ComponentIdGenerator;

/// What a component computes. Each kind has a fixed number of input pins and
/// of output pins.
#[derive(Clone, Copy, Debug, PartialEq, Eq, Hash, PartialOrd, Ord, Structural)]
pub enum ComponentKind {
    /// One input, one output: on exactly when the input is off.
    Not,
    /// As many inputs as the number says, one output: on exactly when every
    /// input is on.
    And(usize),
    /// Two inputs; outputs are the sum bit and the carry bit.
    HalfAdder,
    /// Three inputs; outputs are the sum bit and the carry bit.
    FullAdder,
    /// One input, one output: a register that shows its input one tick late.
    Delay,
}

impl ComponentKind {
    /// The number of input pins and the number of output pins.
    pub open spec fn arity_spec(self) -> (usize, usize) {
        match self {
            ComponentKind::Not => (1, 1),
            ComponentKind::And(inputs) => (inputs, 1),
            ComponentKind::HalfAdder => (2, 2),
            ComponentKind::FullAdder => (3, 2),
            ComponentKind::Delay => (1, 1),
        }
    }

    /// The number of input pins.
    pub open spec fn inputs(self) -> usize {
        self.arity_spec().0
    }

    /// The number of output pins: one or two.
    pub open spec fn outputs(self) -> usize {
        self.arity_spec().1
    }

    /// Whether the kind computes its outputs within a tick, that is, whether
    /// it is anything but a `Delay`.
    pub open spec fn combinational(self) -> bool {
        self != ComponentKind::Delay
    }

    /// The number of input pins and the number of output pins.
    pub fn arity(&self) -> (r: (usize, usize))
        ensures
            r == self.arity_spec(),
            1 <= r.1 <= 2,
    {
        match *self {
            ComponentKind::Not => (1, 1),
            ComponentKind::And(inputs) => (inputs, 1),
            ComponentKind::HalfAdder => (2, 2),
            ComponentKind::FullAdder => (3, 2),
            ComponentKind::Delay => (1, 1),
        }
    }

    /// Whether this is a `Not`.
    pub fn is_not(&self) -> (b: bool)
        ensures
            b == (*self == ComponentKind::Not),
    {
        match *self {
            ComponentKind::Not => true,
            _ => false,
        }
    }

    /// Whether this is an `And`, with whatever number of inputs.
    pub fn is_and(&self) -> (b: bool)
        ensures
            b == (*self is And),
    {
        match *self {
            ComponentKind::And(_) => true,
            _ => false,
        }
    }

    /// Whether this is a `HalfAdder`.
    pub fn is_half_adder(&self) -> (b: bool)
        ensures
            b == (*self == ComponentKind::HalfAdder),
    {
        match *self {
            ComponentKind::HalfAdder => true,
            _ => false,
        }
    }

    /// Whether this is a `FullAdder`.
    pub fn is_full_adder(&self) -> (b: bool)
        ensures
            b == (*self == ComponentKind::FullAdder),
    {
        match *self {
            ComponentKind::FullAdder => true,
            _ => false,
        }
    }

    /// Whether this is a `Delay`.
    pub fn is_delay(&self) -> (b: bool)
        ensures
            b == !self.combinational(),
    {
        match *self {
            ComponentKind::Delay => true,
            _ => false,
        }
    }
}

/// The output state of a component as a mathematical value.
pub struct StateView {
    /// The value of each output pin.
    pub values: Seq<bool>,
    /// The tick at which a combinational component last computed `values`.
    pub version: u64,
}

/// The output state of a component.
#[derive(Debug)]
pub struct State {
    values: Vec<bool>,
    version: u64,
}

impl View for State {
    type V = StateView;

    closed spec fn view(&self) -> StateView {
        StateView { values: self.values@, version: self.version }
    }
}

impl State {
    /// The state with the given output values and version.
    pub fn new(values: Vec<bool>, version: u64) -> (s: State)
        ensures
            s@ == (StateView { values: values@, version }),
    {
        State { values, version }
    }

    /// The value of each output pin.
    pub fn values(&self) -> (r: &[bool])
        ensures
            r@ == self@.values,
    {
        self.values.as_slice()
    }

    /// The tick at which the values were last computed.
    pub fn version(&self) -> (v: u64)
        ensures
            v == self@.version,
    {
        self.version
    }

    /// The value of output pin `index`.
    pub fn value_at(&self, index: usize) -> (b: bool)
        requires
            index < self@.values.len(),
        ensures
            b == self@.values[index as int],
    {
        self.values[index]
    }
}

/// A component: its kind and its current output state.
pub struct Component {
    pub state: State,
    pub kind: ComponentKind,
}

impl Component {
    /// The state that a component of the given kind starts in: every output
    /// off, version zero.
    pub open spec fn initial_state(kind: ComponentKind) -> StateView {
        StateView { values: Seq::new(kind.outputs() as nat, |i: int| false), version: 0 }
    }

    /// A new component of the given kind, with every output off.
    pub fn new(kind: ComponentKind) -> (c: Component)
        ensures
            c.kind == kind,
            c.state@ == Self::initial_state(kind),
    {
        let outputs = kind.arity().1;
        let mut values: Vec<bool> = Vec::new();
        while values.len() < outputs
            invariant
                values.len() <= outputs,
                forall|i: int| 0 <= i < values.len() ==> !values[i],
            decreases outputs - values.len(),
        {
            values.push(false);
        }
        assert(values@ =~= Self::initial_state(kind).values);
        Component { kind, state: State::new(values, 0) }
    }
}

} // verus!
