use vstd::prelude::*;
use crate::model::{File, FileASTMarkup, SymbolInformation};
use crate::select::{ints_i128, sort_by_key_desc, sort_order, sorted_perm};
use crate::text::chars_of;
use crate::tokens::{breaker_of, symmetry_breaker};

verus! {

/// Sort keys that put shorter symbol paths first.
pub open spec fn shortness(syms: Seq<SymbolInformation>) -> Seq<int> {
    Seq::new(syms.len(), |k: int| -(syms[k].symbol_path@.len() as int))
}

/// `syms` ordered by path length, ascending, ties kept in their given order.
pub open spec fn by_path_len(syms: Seq<SymbolInformation>) -> Seq<SymbolInformation> {
    let order = sort_order(shortness(syms));
    Seq::new(syms.len(), |k: int| syms[order[k] as int])
}

/// A field-for-field copy of a symbol.
pub fn copy_symbol(s: &SymbolInformation) -> (r: SymbolInformation)
    ensures
        r == *s,
{
    SymbolInformation {
        guid: s.guid,
        symbol_path: s.symbol_path.clone(),
        symbol_type: s.symbol_type,
        full_range: s.full_range,
        declaration_range: s.declaration_range,
        definition_range: s.definition_range,
    }
}

/// The file record for canonical path `cpath` with text `content` and the symbols the syntax
/// service found (none when it had no markup): symbols are ordered by path length so that
/// inner symbols paint over outer ones, and the symmetry breaker comes from the path.
pub fn make_file(cpath: String, content: String, symbols: Vec<SymbolInformation>) -> (r: File)
    ensures
        r.cpath@ == cpath@,
        r.markup.file_path@ == cpath@,
        r.markup.file_content@ == content@,
        r.markup.symbols_sorted_by_path_len@ == by_path_len(symbols@),
        r.cpath_symmetry_breaker == breaker_of(cpath@),
        0 <= r.cpath_symmetry_breaker < 10_000,
{
    let mut keys: Vec<i128> = Vec::new();
    let mut k: usize = 0;
    while k < symbols.len()
        invariant
            k <= symbols@.len(),
            keys@.len() == k,
            forall|m: int| 0 <= m < k ==> #[trigger] keys@[m] as int == -(symbols@[m].symbol_path@.len() as int),
        decreases symbols@.len() - k,
    {
        let n = chars_of(symbols[k].symbol_path.as_str()).len();
        keys.push(-(n as i128));
        k += 1;
    }
    proof {
        assert(ints_i128(keys@) =~= shortness(symbols@));
    }
    let order = sort_by_key_desc(&keys);
    let mut sorted: Vec<SymbolInformation> = Vec::new();
    let mut i: usize = 0;
    while i < order.len()
        invariant
            i <= order@.len(),
            sorted_perm(order@, shortness(symbols@)),
            order@ == sort_order(shortness(symbols@)),
            sorted@.len() == i,
            forall|m: int| 0 <= m < i ==> #[trigger] sorted@[m] == symbols@[order@[m] as int],
        decreases order@.len() - i,
    {
        assert(order@[i as int] < shortness(symbols@).len());
        sorted.push(copy_symbol(&symbols[order[i]]));
        i += 1;
    }
    proof {
        assert(sorted@ =~= by_path_len(symbols@));
    }
    let breaker = symmetry_breaker(cpath.as_str());
    let path = cpath.clone();
    File {
        markup: FileASTMarkup { file_path: path, file_content: content, symbols_sorted_by_path_len: sorted },
        cpath,
        cpath_symmetry_breaker: breaker,
    }
}

} // verus!
