//! The ordered list of script fragments that a caller fills.

use vstd::prelude::*;

verus! {

/// The texts a vector of texts stands for.
pub open spec fn spec_texts(texts: Seq<String>) -> Seq<Seq<char>> {
    texts.map_values(|text: String| text@)
}

/// The texts at the front of a list, up to its first gap.
pub open spec fn spec_leading_texts(items: Seq<Option<String>>) -> Seq<Seq<char>>
    decreases items.len(),
{
    if items.len() == 0 {
        Seq::empty()
    } else {
        match items[0] {
            None => Seq::empty(),
            Some(text) => seq![text@] + spec_leading_texts(items.drop_first()),
        }
    }
}

/// Whether a list has no gap.
pub open spec fn spec_all_texts(items: Seq<Option<String>>) -> bool {
    forall|at: int| 0 <= at < items.len() ==> (#[trigger] items[at]) is Some
}

proof fn lemma_texts_push(texts: Seq<String>, text: String)
    ensures
        spec_texts(texts.push(text)) == spec_texts(texts).push(text@),
{
    assert(spec_texts(texts.push(text)) =~= spec_texts(texts).push(text@));
}

/// An ordered list of script fragments in Miniscript notation.
pub struct Fragments {
    v: Vec<String>,
}

impl View for Fragments {
    type V = Seq<Seq<char>>;

    closed spec fn view(&self) -> Seq<Seq<char>> {
        spec_texts(self.v@)
    }
}

impl Fragments {
    /// The empty list.
    pub fn new() -> (list: Fragments)
        ensures
            list@ == Seq::<Seq<char>>::empty(),
    {
        let list = Fragments { v: Vec::new() };
        assert(list@ =~= Seq::<Seq<char>>::empty());
        list
    }

    /// Appends one fragment.
    pub fn add(&mut self, s: String)
        ensures
            final(self)@ == old(self)@.push(s@),
    {
        proof {
            lemma_texts_push(self.v@, s);
        }
        self.v.push(s);
    }

    /// Appends the items of `s` in order, up to its first gap. Says whether
    /// there was no gap; what came before a gap stays appended.
    pub fn add_all(&mut self, s: Vec<Option<String>>) -> (complete: bool)
        ensures
            complete == spec_all_texts(s@),
            final(self)@ == old(self)@ + spec_leading_texts(s@),
    {
        let mut at: usize = 0;
        assert(s@.skip(0) =~= s@);
        assert(self@ + spec_leading_texts(s@) =~= old(self)@ + spec_leading_texts(s@));
        while at < s.len()
            invariant
                at <= s.len(),
                forall|k: int| 0 <= k < at ==> (#[trigger] s@[k]) is Some,
                self@ + spec_leading_texts(s@.skip(at as int)) == old(self)@ + spec_leading_texts(s@),
            decreases s.len() - at,
        {
            assert(s@.skip(at as int)[0] == s@[at as int]);
            assert(s@.skip(at as int).drop_first() =~= s@.skip(at as int + 1));
            match &s[at] {
                Some(text) => {
                    let ghost before = self@;
                    self.add(text.clone());
                    assert(self@ + spec_leading_texts(s@.skip(at as int + 1)) =~= before
                        + spec_leading_texts(s@.skip(at as int)));
                },
                None => {
                    assert(self@ + Seq::<Seq<char>>::empty() =~= self@);
                    return false;
                },
            }
            at += 1;
        }
        assert(self@ + Seq::<Seq<char>>::empty() =~= self@);
        true
    }

    /// How many fragments the list holds.
    pub fn len(&self) -> (count: usize)
        ensures
            count == self@.len(),
    {
        self.v.len()
    }

    /// The fragment at position `at`.
    pub fn get(&self, at: usize) -> (text: &String)
        requires
            at < self@.len(),
        ensures
            text@ == self@[at as int],
    {
        &self.v[at]
    }
}

} // verus!
