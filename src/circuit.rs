//! Circuits as recorded in the zoo: each gate names its children by their
//! truth tables.
use vstd::prelude::*;
use crate::truth_table::TruthTable;

verus! {

/// The two binary gates of the basis.
#[derive(Clone, Copy, Debug, PartialEq, Eq, Structural)]
pub enum GateType {
    And,
    Or,
}

/// The top gate of a circuit. Children are referred to by truth table.
#[derive(Clone, Copy, Debug, PartialEq, Eq, Structural)]
pub enum CircuitNode {
    Literal { var: usize, neg: bool },
    And { left: TruthTable, right: TruthTable },
    Or { left: TruthTable, right: TruthTable },
}

/// What the zoo knows of one function: its size, the depth of its
/// recorded witness, and that witness's top gate.
#[derive(Clone, Copy, Debug, PartialEq, Eq, Structural)]
pub struct FunctionInfo {
    pub size: usize,
    pub depth: usize,
    pub circuit: CircuitNode,
}

impl CircuitNode {
    /// The top gate of a binary circuit over `left` and `right`.
    pub fn gate(gate: GateType, left: TruthTable, right: TruthTable) -> (c: CircuitNode)
        ensures
            c == (match gate {
                GateType::And => CircuitNode::And { left, right },
                GateType::Or => CircuitNode::Or { left, right },
            }),
    {
        match gate {
            GateType::And => CircuitNode::And { left, right },
            GateType::Or => CircuitNode::Or { left, right },
        }
    }

    /// Whether this is a literal.
    pub fn is_literal(&self) -> (r: bool)
        ensures
            r == (*self is Literal),
    {
        match self {
            CircuitNode::Literal { .. } => true,
            _ => false,
        }
    }
}

impl GateType {
    /// The truth table this gate computes from its children's tables.
    pub fn apply(&self, a: TruthTable, b: TruthTable) -> (r: TruthTable)
        ensures
            r == (match *self {
                GateType::And => a & b,
                GateType::Or => a | b,
            }),
    {
        match self {
            GateType::And => a & b,
            GateType::Or => a | b,
        }
    }
}

} // verus!
