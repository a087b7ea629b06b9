//! Where the contracts of a workspace are declared.
use vstd::prelude::*;

pub mod parser;

use crate::symbol_indexer::parser::{contracts_from, ContractParser};

verus! {

/// The file in which a symbol is declared.
#[derive(Clone, Debug)]
pub struct SymbolLocation {
    pub file_path: String,
}

/// What the file at `file_path`, whose text is `content`, adds to the index: for
/// each contract it declares, in order, the contract's name and the file.
pub fn file_entries(content: &str, file_path: &str) -> (r: Vec<(String, SymbolLocation)>)
    ensures
        r@.len() == contracts_from(content@, 0).len(),
        forall|k: int|
            0 <= k < r@.len() ==> (#[trigger] r@[k]).0@ == contracts_from(content@, 0)[k].0
                && r@[k].1.file_path@ == file_path@,
{
    let symbols = ContractParser::new().extract_contracts(content);
    let mut entries: Vec<(String, SymbolLocation)> = Vec::new();
    let mut i: usize = 0;
    while i < symbols.len()
        invariant
            i <= symbols@.len(),
            symbols@.len() == contracts_from(content@, 0).len(),
            forall|k: int|
                0 <= k < symbols@.len() ==> (#[trigger] symbols@[k]).name@ == contracts_from(content@, 0)[k].0,
            entries@.len() == i,
            forall|k: int|
                0 <= k < i ==> (#[trigger] entries@[k]).0@ == symbols@[k].name@ && entries@[k].1.file_path@
                    == file_path@,
        decreases symbols@.len() - i,
    {
        let name = symbols[i].name.clone();
        entries.push((name, SymbolLocation { file_path: file_path.to_owned() }));
        i = i + 1;
    }
    entries
}

} // verus!
