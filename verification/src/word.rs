//! Words: the atomic placement unit, a sequence of symbols plus an
//! optional opaque label.

use vstd::prelude::*;

verus! {

/// Errors surfaced by the library: structural violations only.
/// Search-space dead ends are silent and never reported as errors.
#[derive(Clone, Copy, Debug, PartialEq, Eq, Structural)]
pub enum Error {
    /// A word contains a symbol outside the supported alphabet.
    InvalidSymbol,
    /// An attempt to mutate configuration while an episode is active.
    ConfigurationConflict,
}

/// The supported alphabet: visible ASCII symbols. Every symbol can be
/// re-decoded to a display character, and none collides with the blank
/// marker used by the dense rendering.
pub open spec fn symbol_ok(b: u8) -> bool {
    33 <= b <= 126
}

/// Exec mirror of `symbol_ok`.
pub fn symbol_supported(b: u8) -> (r: bool)
    ensures
        r == symbol_ok(b),
{
    33 <= b && b <= 126
}

/// A word: an ordered sequence of symbols plus an optional opaque label.
/// Immutable once constructed.
#[derive(Debug)]
pub struct Word {
    pub symbols: Vec<u8>,
    pub label: Option<String>,
}

/// The mathematical shape of a word: its symbol sequence and label.
#[verifier::ext_equal]
pub struct WordV {
    pub symbols: Seq<u8>,
    pub label: Option<Seq<char>>,
}

pub open spec fn label_view(l: Option<String>) -> Option<Seq<char>> {
    match l {
        Some(s) => Some(s@),
        None => None,
    }
}

impl View for Word {
    type V = WordV;

    open spec fn view(&self) -> WordV {
        WordV { symbols: self.symbols@, label: label_view(self.label) }
    }
}

/// All symbols of the sequence lie in the supported alphabet.
pub open spec fn symbols_ok(s: Seq<u8>) -> bool {
    forall|k: int| 0 <= k < s.len() ==> symbol_ok(#[trigger] s[k])
}

impl Word {
    /// Constructs a word from a symbol sequence and an optional label.
    /// Fails with `InvalidSymbol` exactly when some symbol is outside the
    /// supported alphabet; never panics.
    pub fn new(symbols: Vec<u8>, label: Option<String>) -> (r: Result<Word, Error>)
        ensures
            symbols_ok(symbols@) <==> r is Ok,
            r matches Ok(w) ==> w@.symbols == symbols@ && w@.label == label_view(label),
            r matches Err(e) ==> e == Error::InvalidSymbol,
    {
        let mut k: usize = 0;
        while k < symbols.len()
            invariant
                k <= symbols.len(),
                forall|j: int| 0 <= j < k ==> symbol_ok(#[trigger] symbols@[j]),
            decreases symbols.len() - k,
        {
            if !symbol_supported(symbols[k]) {
                return Err(Error::InvalidSymbol);
            }
            k += 1;
        }
        Ok(Word { symbols, label })
    }

    /// The number of symbols in the word.
    pub fn len(&self) -> (n: usize)
        ensures
            n == self@.symbols.len(),
    {
        self.symbols.len()
    }
}

/// Clones an optional label, preserving its mathematical value.
pub fn clone_label(l: &Option<String>) -> (r: Option<String>)
    ensures
        label_view(r) == label_view(*l),
{
    match l {
        Some(s) => Some(s.clone()),
        None => None,
    }
}

/// Clones a symbol vector, preserving its mathematical value.
pub fn clone_symbols(v: &Vec<u8>) -> (r: Vec<u8>)
    ensures
        r@ == v@,
{
    let mut out: Vec<u8> = Vec::new();
    let mut k: usize = 0;
    while k < v.len()
        invariant
            k <= v.len(),
            out@ == v@.subrange(0, k as int),
        decreases v.len() - k,
    {
        out.push(v[k]);
        assert(out@ == v@.subrange(0, k + 1 as int));
        k += 1;
    }
    assert(v@.subrange(0, v@.len() as int) == v@);
    out
}

impl Word {
    /// Copies the word, preserving its mathematical value.
    pub fn duplicate(&self) -> (r: Word)
        ensures
            r@ == self@,
    {
        Word { symbols: clone_symbols(&self.symbols), label: clone_label(&self.label) }
    }
}

} // verus!
