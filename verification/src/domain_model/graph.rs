//! The entity-relation graph that the placer lays out.

use std::ops::Range;
use std::ops::RangeFrom;
use vstd::prelude::*;

verus! {

/// `std::ops::RangeFrom`, carried through as an opaque value: nothing is
/// claimed about what it holds.
#[verifier::external_type_specification]
#[verifier::external_body]
#[verifier::reject_recursive_types(Idx)]
pub struct ExRangeFrom<Idx>(RangeFrom<Idx>);

/// How the outline of an entity is drawn.
pub enum Style {
    Regular,
    Dotted,
    Dashed,
    Bold,
}

/// Whether an end of a relation carries an arrowhead.
pub enum Arrow {
    Plain,
    Arrow,
}

/// The position of an entity in `Graph::entities`; its sole identity.
pub type EntityIndex = usize;

/// How many instances may stand at one end of a relation.
pub enum Multiplicity {
    Range(Range<usize>),
    Number(usize),
    RangeFrom(RangeFrom<usize>),
}

pub type ColorHexValue = u32;

/// An undirected edge between two entities.  Only the two endpoints matter
/// to placement; the rest is carried for rendering.
pub struct Relation {
    pub text: String,
    pub entity_1: EntityIndex,
    pub entity_2: EntityIndex,
    pub arrow_1: Arrow,
    pub arrow_2: Arrow,
    pub mult_1: Multiplicity,
    pub mult_2: Multiplicity,
}

/// A diagrammed node.
pub struct Entity {
    pub name: String,
    pub color: ColorHexValue,
    pub style: Style,
}

/// Entities, the relations between them, and the text they were read from.
/// A relation refers to its endpoints by their positions in `entities`.
pub struct Graph {
    pub entities: Vec<Entity>,
    pub relations: Vec<Relation>,
    /// The input lines that the graph was read from.
    pub raw: Vec<String>,
}

impl Graph {
    /// The endpoints of the relations, in order.
    pub open spec fn relation_pairs(&self) -> Seq<(usize, usize)> {
        Seq::new(
            self.relations@.len(),
            |i: int| (self.relations@[i].entity_1, self.relations@[i].entity_2),
        )
    }

    /// Both ends of every relation are entities of the graph.
    pub open spec fn well_formed(&self) -> bool {
        forall|i: int|
            0 <= i < self.relations@.len() ==> {
                &&& (#[trigger] self.relations@[i]).entity_1 < self.entities@.len()
                &&& self.relations@[i].entity_2 < self.entities@.len()
            }
    }

    /// The graph without entities, relations or recorded lines.
    pub fn new() -> (graph: Graph)
        ensures
            graph.entities@.len() == 0,
            graph.relations@.len() == 0,
            graph.raw@.len() == 0,
            graph.well_formed(),
    {
        Graph { entities: Vec::new(), relations: Vec::new(), raw: Vec::new() }
    }

    /// Whether both ends of every relation are entities of the graph.
    pub fn is_well_formed(&self) -> (sound: bool)
        ensures
            sound == self.well_formed(),
    {
        let count = self.entities.len();
        for i in 0..self.relations.len()
            invariant
                count == self.entities@.len(),
                forall|j: int|
                    0 <= j < i ==> {
                        &&& (#[trigger] self.relations@[j]).entity_1 < count
                        &&& self.relations@[j].entity_2 < count
                    },
        {
            if self.relations[i].entity_1 >= count || self.relations[i].entity_2 >= count {
                return false;
            }
        }
        true
    }
}

} // verus!
