//! Names, each known by a number.

use string_interner::{DefaultStringInterner, Symbol};
use vstd::prelude::*;

verus! {

/// Names and the numbers they are known by, counted up from nothing: a
/// `string_interner::DefaultStringInterner`, whose symbols are the places the
/// names were taken in at.
#[verifier::external_body]
pub struct Interner {
    inner: DefaultStringInterner,
}

/// The names taken in, each at the number it is known by.
pub uninterp spec fn interned(interner: Interner) -> Seq<Seq<char>>;

impl Interner {
    /// An interner that knows no name, from `StringInterner::new`.
    #[verifier::external_body]
    pub(crate) fn new() -> (interner: Self)
        ensures
            interned(interner) == Seq::<Seq<char>>::empty(),
    {
        Interner { inner: DefaultStringInterner::new() }
    }

    /// The number of `name`, from `StringInterner::get`: there is one exactly
    /// for the names that were taken in.
    #[verifier::external_body]
    pub(crate) fn get(&self, name: &str) -> (number: Option<usize>)
        ensures
            match number {
                Some(number) => number < interned(*self).len() && interned(*self)[number as int]
                    == name@,
                None => !interned(*self).contains(name@),
            },
    {
        self.inner.get(name).map(|symbol| symbol.to_usize())
    }

    /// Take `name` in, by `StringInterner::get_or_intern`: one that is known
    /// keeps its number, and a new one gets the next. Panics when the numbers
    /// have run out.
    #[verifier::external_body]
    pub(crate) fn get_or_intern(&mut self, name: &str) -> (number: usize)
        requires
            interned(*old(self)).len() < u32::MAX,
        ensures
            interned(*final(self)) == if interned(*old(self)).contains(name@) {
                interned(*old(self))
            } else {
                interned(*old(self)).push(name@)
            },
            number < interned(*final(self)).len(),
            interned(*final(self))[number as int] == name@,
    {
        self.inner.get_or_intern(name).to_usize()
    }

    /// The name known by `number`, from `StringInterner::resolve`.
    #[verifier::external_body]
    pub(crate) fn resolve(&self, number: u32) -> (name: Option<&str>)
        ensures
            match name {
                Some(name) => number < interned(*self).len() && interned(*self)[number as int]
                    == name@,
                None => number >= interned(*self).len(),
            },
    {
        Symbol::try_from_usize(number as usize).and_then(|symbol| self.inner.resolve(symbol))
    }
}

} // verus!
