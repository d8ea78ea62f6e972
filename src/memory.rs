//! A word-addressed model of the allocator's data segment.
use std::collections::HashMap;
use vstd::prelude::*;

verus! {

broadcast use vstd::std_specs::hash::group_hash_axioms;

/// Number of bytes in a machine word.
pub const WORD: usize = 8;

/// The words of a data segment that starts at `base`.
///
/// Only words that were written are held; a word never written reads as zero,
/// as freshly provided backing memory does.
pub struct Memory {
    base: usize,
    words: HashMap<usize, usize>,
}


impl View for Memory {
    type V = Map<usize, usize>;

    closed spec fn view(&self) -> Map<usize, usize> {
        self.words@
    }
}

impl Memory {
    /// The segment's base address.
    pub closed spec fn base(&self) -> usize {
        self.base
    }

    /// The base is word-aligned.
    pub closed spec fn wf(&self) -> bool {
        self.base % WORD == 0
    }

    /// A well-formed segment has a word-aligned base.
    pub proof fn lemma_base_aligned(&self)
        requires
            self.wf(),
        ensures
            self.base() % WORD == 0,
    {
    }

    /// The word stored at address `a`.
    pub open spec fn word(&self, a: usize) -> usize {
        if self@.contains_key(a) {
            self@[a]
        } else {
            0
        }
    }

    /// A segment based at `base`, with every word zero.
    pub fn new(base: usize) -> (r: Memory)
        requires
            base % WORD == 0,
        ensures
            r.wf(),
            r.base() == base,
            forall|a: usize| r.word(a) == 0,
    {
        Memory { base, words: HashMap::new() }
    }

    /// The segment's base address.
    pub fn data_base(&self) -> (r: usize)
        ensures
            r == self.base(),
    {
        self.base
    }

    /// Reads the word at address `a`.
    pub fn read(&self, a: usize) -> (r: usize)
        ensures
            r == self.word(a),
    {
        match self.words.get(&a) {
            Some(v) => *v,
            None => 0,
        }
    }

    /// Writes `v` to the word at address `a`, leaving every other word as it was.
    pub fn write(&mut self, a: usize, v: usize)
        ensures
            final(self).wf() == old(self).wf(),
            final(self).base() == old(self).base(),
            final(self).word(a) == v,
            forall|b: usize| b != a ==> final(self).word(b) == old(self).word(b),
    {
        self.words.insert(a, v);
    }
}

} // verus!
