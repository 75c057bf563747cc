//! The ways in which a request for a tour can fail, and their wording.

use vstd::prelude::*;
use vstd::string::StringExecFns;
use crate::text::{decimal, decimal_text};

verus! {

/// Why no tour was handed back.
#[derive(Debug, PartialEq, Eq, Clone)]
pub enum TspError {
    /// The matrix has no rows.
    EmptyGraph,
    /// A row is not as long as the matrix has rows.
    NonSquareGraph { rows: usize, cols: usize },
    /// The start is not a node of the graph.
    StartNodeOutOfBounds { num_nodes: usize, start_node: usize },
    /// No tour through every node can be travelled.
    NoPathFound,
    /// The search came to an answer that it cannot hand back.
    InternalSolverError(String),
}

/// What `message` says of each error.
pub open spec fn message_text(e: TspError) -> Seq<char> {
    match e {
        TspError::EmptyGraph => "Graph tidak boleh kosong."@,
        TspError::NonSquareGraph { rows, cols } => {
            "Graph harus berupa matriks persegi. Diberikan: "@ + decimal(rows as nat)
                + " baris, "@ + decimal(cols as nat) + " kolom."@
        },
        TspError::StartNodeOutOfBounds { num_nodes, start_node } => {
            "Node awal "@ + decimal(start_node as nat) + " berada di luar batas. Jumlah node: "@
                + decimal(num_nodes as nat) + "."@
        },
        TspError::NoPathFound => "Tidak ada jalur TSP yang valid ditemukan."@,
        TspError::InternalSolverError(msg) => "Error internal solver: "@ + msg@,
    }
}

impl TspError {
    /// The error in words.
    pub fn message(&self) -> (s: String)
        ensures
            s@ == message_text(*self),
    {
        match self {
            TspError::EmptyGraph => String::from_str("Graph tidak boleh kosong."),
            TspError::NonSquareGraph { rows, cols } => {
                let mut s = String::from_str("Graph harus berupa matriks persegi. Diberikan: ");
                s.append(decimal_text(*rows).as_str());
                s.append(" baris, ");
                s.append(decimal_text(*cols).as_str());
                s.append(" kolom.");
                s
            },
            TspError::StartNodeOutOfBounds { num_nodes, start_node } => {
                let mut s = String::from_str("Node awal ");
                s.append(decimal_text(*start_node).as_str());
                s.append(" berada di luar batas. Jumlah node: ");
                s.append(decimal_text(*num_nodes).as_str());
                s.append(".");
                s
            },
            TspError::NoPathFound => String::from_str("Tidak ada jalur TSP yang valid ditemukan."),
            TspError::InternalSolverError(msg) => {
                let mut s = String::from_str("Error internal solver: ");
                s.append(msg.as_str());
                s
            },
        }
    }
}

} // verus!
