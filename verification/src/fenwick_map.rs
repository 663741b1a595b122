//! Mapping of arbitrary symbols to dense index positions.
//!
//! The Fenwick tree stores one weight per index; the index of a symbol never
//! changes once assigned. For byte symbols the alphabet is small, but for
//! word-based symbols it can be of arbitrary size, so a mapping is needed
//! from symbol to index. Index 0 is reserved as the tree's sentinel, so
//! symbols receive indices starting at 1.

use vstd::prelude::*;

verus! {

/// A bidirectional association between symbols and dense indices `1..=N`.
///
/// Each symbol is judged by its mathematical value (`Key`); the map holds
/// every key at most once, and `keys()[k]` is the key of the symbol with
/// index `k + 1`.
pub trait SymbolMap: Sized {
    type Input;

    type Key;

    /// The mathematical value of a symbol.
    spec fn key_of(s: Self::Input) -> Self::Key;

    /// The keys seen so far, in installation order.
    spec fn keys(&self) -> Seq<Self::Key>;

    /// Keys are distinct and one more index still fits in a `usize`.
    spec fn wf(&self) -> bool;

    /// A well-formed map holds each key at most once.
    proof fn lemma_wf_distinct(&self)
        requires
            self.wf(),
        ensures
            distinct_keys(self.keys()),
    ;

    /// Create a new, empty mapping.
    fn new() -> (r: Self)
        ensures
            r.wf(),
            r.keys() == Seq::<Self::Key>::empty(),
    ;

    /// The index assigned to `symbol`, if it was installed.
    fn get_index_of(&self, symbol: &Self::Input) -> (r: Option<usize>)
        requires
            self.wf(),
        ensures
            match r {
                Some(ix) => 1 <= ix <= self.keys().len() && self.keys()[ix - 1] == Self::key_of(
                    *symbol,
                ),
                None => !self.keys().contains(Self::key_of(*symbol)),
            },
    ;

    /// Associate the next free index with `symbol` and return it.
    fn install(&mut self, symbol: &Self::Input) -> (r: usize)
        requires
            old(self).wf(),
            !old(self).keys().contains(Self::key_of(*symbol)),
            old(self).keys().len() < usize::MAX - 1,
        ensures
            final(self).wf(),
            final(self).keys() == old(self).keys().push(Self::key_of(*symbol)),
            r == old(self).keys().len() + 1,
    ;

    /// Get the inner symbol list as a reference.
    fn get_ref(&self) -> (r: &Vec<Self::Input>)
        ensures
            r@.len() == self.keys().len(),
            forall|k: int| 0 <= k < r@.len() ==> Self::key_of(#[trigger] r@[k]) == self.keys()[k],
    ;

    /// The number of symbols being mapped.
    fn alphabet_size(&self) -> (r: usize)
        ensures
            r == self.keys().len(),
    ;

    /// The symbol installed at index position `ix`, if any.
    fn get_symbol_at(&self, ix: usize) -> (r: Option<&Self::Input>)
        requires
            self.wf(),
        ensures
            match r {
                Some(s) => 1 <= ix <= self.keys().len() && Self::key_of(*s) == self.keys()[ix - 1],
                None => !(1 <= ix <= self.keys().len()),
            },
    ;

    /// An owned copy of the symbol at index position `ix`.
    fn symbol_owned_at(&self, ix: usize) -> (r: Self::Input)
        requires
            self.wf(),
            1 <= ix <= self.keys().len(),
        ensures
            Self::key_of(r) == self.keys()[ix - 1],
    ;

    /// The next index that `install` would assign.
    fn next_symbol(&self) -> (r: usize)
        requires
            self.wf(),
        ensures
            r == self.keys().len() + 1,
    ;
}

/// Maps arbitrary alphabets to `usize` indices and back: the symbol at list
/// position `k` carries index `k + 1`.
#[derive(Debug)]
pub struct Cartographer<T> {
    pub symbols: Vec<T>,
}

/// Distinctness of the keys of `symbols`, judged by a key view.
pub open spec fn distinct_keys<K>(keys: Seq<K>) -> bool {
    forall|i: int, j: int| 0 <= i < j < keys.len() ==> keys[i] != keys[j]
}

/// In a distinct key sequence, the position of a key is unique, so it is the
/// chosen one.
pub proof fn lemma_key_index_unique<K>(keys: Seq<K>, key: K, i: int)
    requires
        distinct_keys(keys),
        0 <= i < keys.len(),
        keys[i] == key,
    ensures
        crate::statistics::key_index(keys, key) == i,
        keys.contains(key),
{
    assert(keys.contains(key));
    let j = crate::statistics::key_index(keys, key);
    assert(0 <= j < keys.len() && keys[j] == key);
    if i < j {
        assert(keys[i] != keys[j]);
    } else if j < i {
        assert(keys[j] != keys[i]);
    }
}

/// Appending a key not yet present keeps the keys distinct.
proof fn lemma_distinct_push<K>(ks: Seq<K>, key: K)
    requires
        distinct_keys(ks),
        !ks.contains(key),
    ensures
        distinct_keys(ks.push(key)),
{
    let n = ks.push(key);
    assert forall|i: int, j: int| 0 <= i < j < n.len() implies n[i] != n[j] by {
        if j < ks.len() {
            assert(n[i] == ks[i]);
            assert(n[j] == ks[j]);
        } else {
            assert(n[j] == key);
            assert(n[i] == ks[i]);
            if ks[i] == key {
                assert(ks.contains(key));
            }
        }
    }
}

impl SymbolMap for Cartographer<u8> {
    type Input = u8;

    type Key = u8;

    open spec fn key_of(s: u8) -> u8 {
        s
    }

    open spec fn keys(&self) -> Seq<u8> {
        self.symbols@
    }

    open spec fn wf(&self) -> bool {
        distinct_keys(self.symbols@) && self.symbols@.len() < usize::MAX
    }

    proof fn lemma_wf_distinct(&self) {
    }

    fn new() -> (r: Self)
        ensures
            r.wf(),
            r.keys() == Seq::<u8>::empty(),
    {
        Cartographer { symbols: Vec::new() }
    }

    fn get_index_of(&self, symbol: &u8) -> (r: Option<usize>) {
        for k in 0..self.symbols.len()
            invariant
                forall|j: int| 0 <= j < k ==> self.symbols@[j] != *symbol,
        {
            if self.symbols[k] == *symbol {
                return Some(k + 1);
            }
        }
        proof {
            if self.keys().contains(*symbol) {
                let j = choose|j: int| 0 <= j < self.keys().len() && self.keys()[j] == *symbol;
                assert(self.symbols@[j] != *symbol);
            }
        }
        None
    }

    fn install(&mut self, symbol: &u8) -> (r: usize) {
        proof {
            lemma_distinct_push(self.keys(), *symbol);
        }
        self.symbols.push(*symbol);
        self.symbols.len()
    }

    fn get_ref(&self) -> (r: &Vec<u8>) {
        &self.symbols
    }

    fn alphabet_size(&self) -> (r: usize) {
        self.symbols.len()
    }

    fn get_symbol_at(&self, ix: usize) -> (r: Option<&u8>) {
        if 1 <= ix && ix <= self.symbols.len() {
            Some(&self.symbols[ix - 1])
        } else {
            None
        }
    }

    fn symbol_owned_at(&self, ix: usize) -> (r: u8) {
        self.symbols[ix - 1]
    }

    fn next_symbol(&self) -> (r: usize) {
        self.symbols.len() + 1
    }
}

/// Byte-wise equality of two byte vectors.
fn bytes_eq(a: &Vec<u8>, b: &Vec<u8>) -> (r: bool)
    ensures
        r == (a@ == b@),
{
    if a.len() != b.len() {
        proof {
            assert(a@.len() != b@.len());
        }
        return false;
    }
    for i in 0..a.len()
        invariant
            a@.len() == b@.len(),
            forall|j: int| 0 <= j < i ==> a@[j] == b@[j],
    {
        if a[i] != b[i] {
            return false;
        }
    }
    proof {
        assert(a@ =~= b@);
    }
    true
}

impl SymbolMap for Cartographer<Vec<u8>> {
    type Input = Vec<u8>;

    type Key = Seq<u8>;

    open spec fn key_of(s: Vec<u8>) -> Seq<u8> {
        s@
    }

    open spec fn keys(&self) -> Seq<Seq<u8>> {
        self.symbols@.map_values(|s: Vec<u8>| s@)
    }

    open spec fn wf(&self) -> bool {
        distinct_keys(self.keys()) && self.symbols@.len() < usize::MAX
    }

    proof fn lemma_wf_distinct(&self) {
    }

    fn new() -> (r: Self)
        ensures
            r.wf(),
            r.keys() == Seq::<Seq<u8>>::empty(),
    {
        let r = Cartographer { symbols: Vec::<Vec<u8>>::new() };
        proof {
            assert(r.keys() =~= Seq::<Seq<u8>>::empty());
        }
        r
    }

    fn get_index_of(&self, symbol: &Vec<u8>) -> (r: Option<usize>) {
        for k in 0..self.symbols.len()
            invariant
                forall|j: int| 0 <= j < k ==> self.keys()[j] != symbol@,
        {
            proof {
                assert(self.keys()[k as int] == self.symbols@[k as int]@);
            }
            if bytes_eq(&self.symbols[k], symbol) {
                return Some(k + 1);
            }
        }
        proof {
            if self.keys().contains(symbol@) {
                let j = choose|j: int| 0 <= j < self.keys().len() && self.keys()[j] == symbol@;
                assert(self.keys()[j] != symbol@);
            }
        }
        None
    }

    fn install(&mut self, symbol: &Vec<u8>) -> (r: usize) {
        let mut copy: Vec<u8> = Vec::new();
        for i in 0..symbol.len()
            invariant
                copy@ == symbol@.take(i as int),
        {
            copy.push(symbol[i]);
            proof {
                assert(copy@ =~= symbol@.take(i + 1));
            }
        }
        proof {
            assert(copy@ =~= symbol@);
        }
        self.symbols.push(copy);
        proof {
            assert(self.keys() =~= old(self).keys().push(symbol@));
            lemma_distinct_push(old(self).keys(), symbol@);
        }
        self.symbols.len()
    }

    fn get_ref(&self) -> (r: &Vec<Vec<u8>>) {
        &self.symbols
    }

    fn alphabet_size(&self) -> (r: usize) {
        self.symbols.len()
    }

    fn get_symbol_at(&self, ix: usize) -> (r: Option<&Vec<u8>>) {
        if 1 <= ix && ix <= self.symbols.len() {
            Some(&self.symbols[ix - 1])
        } else {
            None
        }
    }

    fn symbol_owned_at(&self, ix: usize) -> (r: Vec<u8>) {
        let sym = &self.symbols[ix - 1];
        let mut copy: Vec<u8> = Vec::new();
        for i in 0..sym.len()
            invariant
                copy@ == sym@.take(i as int),
        {
            copy.push(sym[i]);
            proof {
                assert(copy@ =~= sym@.take(i + 1));
            }
        }
        proof {
            assert(copy@ =~= sym@);
        }
        copy
    }

    fn next_symbol(&self) -> (r: usize) {
        self.symbols.len() + 1
    }
}

impl SymbolMap for Cartographer<String> {
    type Input = String;

    type Key = Seq<char>;

    open spec fn key_of(s: String) -> Seq<char> {
        s@
    }

    open spec fn keys(&self) -> Seq<Seq<char>> {
        self.symbols@.map_values(|s: String| s@)
    }

    open spec fn wf(&self) -> bool {
        distinct_keys(self.keys()) && self.symbols@.len() < usize::MAX
    }

    proof fn lemma_wf_distinct(&self) {
    }

    fn new() -> (r: Self)
        ensures
            r.wf(),
            r.keys() == Seq::<Seq<char>>::empty(),
    {
        let r = Cartographer { symbols: Vec::<String>::new() };
        proof {
            assert(r.keys() =~= Seq::<Seq<char>>::empty());
        }
        r
    }

    fn get_index_of(&self, symbol: &String) -> (r: Option<usize>) {
        for k in 0..self.symbols.len()
            invariant
                forall|j: int| 0 <= j < k ==> self.keys()[j] != symbol@,
        {
            proof {
                assert(self.keys()[k as int] == self.symbols@[k as int]@);
            }
            if self.symbols[k] == *symbol {
                return Some(k + 1);
            }
        }
        proof {
            if self.keys().contains(symbol@) {
                let j = choose|j: int| 0 <= j < self.keys().len() && self.keys()[j] == symbol@;
                assert(self.keys()[j] != symbol@);
            }
        }
        None
    }

    fn install(&mut self, symbol: &String) -> (r: usize) {
        self.symbols.push(symbol.clone());
        proof {
            assert(self.keys() =~= old(self).keys().push(symbol@));
            lemma_distinct_push(old(self).keys(), symbol@);
        }
        self.symbols.len()
    }

    fn get_ref(&self) -> (r: &Vec<String>) {
        &self.symbols
    }

    fn alphabet_size(&self) -> (r: usize) {
        self.symbols.len()
    }

    fn get_symbol_at(&self, ix: usize) -> (r: Option<&String>) {
        if 1 <= ix && ix <= self.symbols.len() {
            Some(&self.symbols[ix - 1])
        } else {
            None
        }
    }

    fn symbol_owned_at(&self, ix: usize) -> (r: String) {
        self.symbols[ix - 1].clone()
    }

    fn next_symbol(&self) -> (r: usize) {
        self.symbols.len() + 1
    }
}

} // verus!
