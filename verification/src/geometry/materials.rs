//! Material definitions collected along a geometry: elements, molecules and
//! mixtures, kept in the order they were given.
use crate::cxx::G4State;
use crate::utils::error::views;
use crate::utils::text::str_eq;
use vstd::prelude::*;

verus! {

/// Definitions of elements `E`, molecules `Mo` and mixtures `Mx`.
pub struct MaterialsDefinition<E, Mo, Mx> {
    pub elements: Vec<E>,
    pub molecules: Vec<Mo>,
    pub mixtures: Vec<Mx>,
}

/// Mathematical view of a `MaterialsDefinition`.
pub ghost struct MaterialsView<E, Mo, Mx> {
    pub elements: Seq<E>,
    pub molecules: Seq<Mo>,
    pub mixtures: Seq<Mx>,
}

impl<E, Mo, Mx> View for MaterialsDefinition<E, Mo, Mx> {
    type V = MaterialsView<E, Mo, Mx>;

    open spec fn view(&self) -> MaterialsView<E, Mo, Mx> {
        MaterialsView { elements: self.elements@, molecules: self.molecules@, mixtures: self.mixtures@ }
    }
}

/// The definitions of `a` followed by those of `b`.
pub open spec fn concat<E, Mo, Mx>(a: MaterialsView<E, Mo, Mx>, b: MaterialsView<E, Mo, Mx>) -> MaterialsView<E, Mo, Mx> {
    MaterialsView {
        elements: a.elements + b.elements,
        molecules: a.molecules + b.molecules,
        mixtures: a.mixtures + b.mixtures,
    }
}

/// `Some(a)` merged with `b`: `b` alone when there was nothing yet.
pub open spec fn merge<E, Mo, Mx>(a: Option<MaterialsView<E, Mo, Mx>>, b: MaterialsView<E, Mo, Mx>) -> MaterialsView<E, Mo, Mx> {
    match a {
        None => b,
        Some(a) => concat(a, b),
    }
}

/// The view of optional definitions.
pub open spec fn opt_view<E, Mo, Mx>(m: Option<MaterialsDefinition<E, Mo, Mx>>) -> Option<MaterialsView<E, Mo, Mx>> {
    match m {
        None => None,
        Some(m) => Some(m@),
    }
}

impl<E, Mo, Mx> MaterialsDefinition<E, Mo, Mx> {
    /// Appends the definitions of `other` to these ones.
    pub fn extend(&mut self, other: Self)
        ensures
            final(self)@ == concat(old(self)@, other@),
    {
        let mut other = other;
        self.elements.append(&mut other.elements);
        self.molecules.append(&mut other.molecules);
        self.mixtures.append(&mut other.mixtures);
    }
}

/// The state of matter of a material, as given in its definition.
#[derive(Clone, Copy, PartialEq, Eq, Structural, Debug)]
pub enum State {
    Gas,
    Liquid,
    Solid,
}

impl State {
    /// The lower-case name of the state.
    pub open spec fn name(self) -> Seq<char> {
        match self {
            State::Gas => "gas"@,
            State::Liquid => "liquid"@,
            State::Solid => "solid"@,
        }
    }

    /// The names of all states, in declaration order.
    pub open spec fn names() -> Seq<Seq<char>> {
        seq!["gas"@, "liquid"@, "solid"@]
    }

    pub fn options() -> (r: Vec<&'static str>)
        ensures
            views(r@) == Self::names(),
    {
        let r = vec!["gas", "liquid", "solid"];
        assert(views(r@) =~= Self::names());
        r
    }

    pub fn to_str(&self) -> (r: &'static str)
        ensures
            r@ == self.name(),
    {
        match self {
            State::Gas => "gas",
            State::Liquid => "liquid",
            State::Solid => "solid",
        }
    }

    /// The state named `s`, or else the names of all states.
    pub fn from_str(s: &str) -> (r: Result<Self, Vec<&'static str>>)
        ensures
            match r {
                Ok(state) => state.name() == s@,
                Err(options) => views(options@) == Self::names()
                    && forall|state: State| state.name() != s@,
            },
    {
        if str_eq(s, "gas") {
            Ok(State::Gas)
        } else if str_eq(s, "liquid") {
            Ok(State::Liquid)
        } else if str_eq(s, "solid") {
            Ok(State::Solid)
        } else {
            Err(Self::options())
        }
    }

    /// The engine's state of matter.
    pub open spec fn spec_into_g4(self) -> G4State {
        match self {
            State::Gas => G4State::kStateGas,
            State::Liquid => G4State::kStateLiquid,
            State::Solid => G4State::kStateSolid,
        }
    }

    pub fn into_g4(self) -> (r: G4State)
        ensures
            r == self.spec_into_g4(),
    {
        match self {
            State::Gas => G4State::kStateGas,
            State::Liquid => G4State::kStateLiquid,
            State::Solid => G4State::kStateSolid,
        }
    }
}

/// The engine's state of matter of a material whose state is named `state`,
/// undefined when none is given, or else the names of the states.
pub fn material_state(state: Option<&str>) -> (r: Result<G4State, Vec<&'static str>>)
    ensures
        match state {
            None => r == Ok::<G4State, Vec<&'static str>>(G4State::kStateUndefined),
            Some(s) => match r {
                Ok(g) => exists|st: State| st.name() == s@ && st.spec_into_g4() == g,
                Err(options) => views(options@) == State::names()
                    && forall|st: State| st.name() != s@,
            },
        },
{
    match state {
        None => Ok(G4State::kStateUndefined),
        Some(s) => match State::from_str(s) {
            Ok(st) => Ok(st.into_g4()),
            Err(options) => Err(options),
        },
    }
}

} // verus!
