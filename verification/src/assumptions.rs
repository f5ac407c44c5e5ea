//! Assumptions about symbols: which properties each name is known to have, queried in
//! three-valued logic.
use vstd::prelude::*;
use crate::text;

verus! {

/// A three-valued truth.
#[derive(Clone, Copy, Debug, PartialEq, Eq, Structural)]
pub enum Truth {
    True,
    False,
    Unknown,
}

/// A property a symbol may be assumed to have.
#[derive(Clone, Copy, Debug, PartialEq, Eq, Hash, Structural)]
pub enum Prop {
    Real,
    Positive,
    Integer,
    Nonzero,
}

/// The properties assumed for one name.
#[derive(Clone, Debug)]
pub struct Entry {
    pub name: String,
    pub real: bool,
    pub positive: bool,
    pub integer: bool,
    pub nonzero: bool,
}

/// Whether the entry holds `p`.
pub open spec fn entry_has(e: Entry, p: Prop) -> bool {
    match p {
        Prop::Real => e.real,
        Prop::Positive => e.positive,
        Prop::Integer => e.integer,
        Prop::Nonzero => e.nonzero,
    }
}

/// The assumptions made so far, one entry per name.
#[derive(Clone, Debug)]
pub struct Context {
    entries: Vec<Entry>,
}

impl Context {
    /// `name` has been assumed to have `p`.
    pub closed spec fn knows(&self, name: Seq<char>, p: Prop) -> bool {
        exists|i: int| 0 <= i < self.entries@.len() && #[trigger] self.entries@[i].name@ == name && entry_has(self.entries@[i], p)
    }

    /// No two entries share a name.
    pub closed spec fn wf(&self) -> bool {
        forall|i: int, j: int|
            0 <= i < j < self.entries@.len() ==> #[trigger] self.entries@[i].name@ != #[trigger] self.entries@[j].name@
    }

    /// The context with nothing assumed.
    pub fn new() -> (c: Self)
        ensures
            c.wf(),
            forall|name: Seq<char>, p: Prop| !c.knows(name, p),
    {
        Context { entries: Vec::new() }
    }

    /// Assumes that `sym` has `prop`; every other assumption stays.
    pub fn assume_prop(&mut self, sym: &str, prop: Prop)
        requires
            old(self).wf(),
        ensures
            final(self).wf(),
            forall|name: Seq<char>, p: Prop|
                #[trigger] final(self).knows(name, p) == (old(self).knows(name, p) || (name == sym@ && p == prop)),
    {
        let mut i: usize = 0;
        while i < self.entries.len()
            invariant
                self.wf(),
                self.entries@ == old(self).entries@,
                i <= self.entries@.len(),
                forall|j: int| 0 <= j < i ==> #[trigger] self.entries@[j].name@ != sym@,
            decreases self.entries@.len() - i,
        {
            if text::string_is(&self.entries[i].name, sym) {
                let e = &self.entries[i];
                let updated = Entry {
                    name: e.name.clone(),
                    real: e.real || prop == Prop::Real,
                    positive: e.positive || prop == Prop::Positive,
                    integer: e.integer || prop == Prop::Integer,
                    nonzero: e.nonzero || prop == Prop::Nonzero,
                };
                let ghost before = self.entries@;
                self.entries.set(i, updated);
                proof {
                    assert forall|name: Seq<char>, p: Prop|
                        #[trigger] self.knows(name, p) == (old(self).knows(name, p) || (name == sym@ && p == prop)) by {
                        if old(self).knows(name, p) {
                            let w = choose|w: int| 0 <= w < before.len() && #[trigger] before[w].name@ == name && entry_has(before[w], p);
                            assert(self.entries@[w].name@ == name && entry_has(self.entries@[w], p));
                        }
                        if self.knows(name, p) && !(name == sym@ && p == prop) {
                            let w = choose|w: int| 0 <= w < self.entries@.len() && #[trigger] self.entries@[w].name@ == name
                                && entry_has(self.entries@[w], p);
                            assert(before[w].name@ == name && entry_has(before[w], p));
                        }
                        if name == sym@ && p == prop {
                            assert(self.entries@[i as int].name@ == name && entry_has(self.entries@[i as int], p));
                        }
                    }
                }
                return;
            }
            i = i + 1;
        }
        let fresh = Entry {
            name: String::from_str(sym),
            real: prop == Prop::Real,
            positive: prop == Prop::Positive,
            integer: prop == Prop::Integer,
            nonzero: prop == Prop::Nonzero,
        };
        let ghost before = self.entries@;
        self.entries.push(fresh);
        proof {
            assert forall|name: Seq<char>, p: Prop|
                #[trigger] self.knows(name, p) == (old(self).knows(name, p) || (name == sym@ && p == prop)) by {
                if old(self).knows(name, p) {
                    let w = choose|w: int| 0 <= w < before.len() && #[trigger] before[w].name@ == name && entry_has(before[w], p);
                    assert(self.entries@[w].name@ == name && entry_has(self.entries@[w], p));
                }
                if self.knows(name, p) {
                    let w = choose|w: int| 0 <= w < self.entries@.len() && #[trigger] self.entries@[w].name@ == name
                        && entry_has(self.entries@[w], p);
                    if w < before.len() {
                        assert(before[w].name@ == name && entry_has(before[w], p));
                    }
                }
                if name == sym@ && p == prop {
                    assert(self.entries@[before.len() as int].name@ == name && entry_has(self.entries@[before.len() as int], p));
                }
            }
        }
    }

    /// `name` is known to have `p`: it was assumed, or follows from what was assumed (a
    /// positive number is real and nonzero).
    pub open spec fn follows(&self, name: Seq<char>, p: Prop) -> bool {
        ||| self.knows(name, p)
        ||| p == Prop::Real && self.knows(name, Prop::Positive)
        ||| p == Prop::Nonzero && self.knows(name, Prop::Positive)
    }

    /// `True` when `sym` is known to have `prop` (`follows`), `Unknown` otherwise.
    pub fn has(&self, sym: &str, prop: Prop) -> (t: Truth)
        requires
            self.wf(),
        ensures
            t == (if self.follows(sym@, prop) { Truth::True } else { Truth::Unknown }),
    {
        let mut i: usize = 0;
        while i < self.entries.len()
            invariant
                self.wf(),
                i <= self.entries@.len(),
                forall|j: int| 0 <= j < i ==> #[trigger] self.entries@[j].name@ != sym@,
            decreases self.entries@.len() - i,
        {
            let e = &self.entries[i];
            if text::string_is(&e.name, sym) {
                let held = match prop {
                    Prop::Real => e.real || e.positive,
                    Prop::Positive => e.positive,
                    Prop::Integer => e.integer,
                    Prop::Nonzero => e.nonzero || e.positive,
                };
                proof {
                    assert forall|w: int| 0 <= w < self.entries@.len() && #[trigger] self.entries@[w].name@ == sym@ implies w == i by {
                        if w != i {
                            assert(self.entries@[w].name@ != self.entries@[i as int].name@);
                        }
                    }
                    assert(entry_has(self.entries@[i as int], Prop::Positive) ==> self.knows(sym@, Prop::Positive));
                    assert(entry_has(self.entries@[i as int], prop) ==> self.knows(sym@, prop));
                }
                return if held { Truth::True } else { Truth::Unknown };
            }
            i = i + 1;
        }
        Truth::Unknown
    }
}

impl Default for Context {
    fn default() -> (c: Self)
        ensures
            c.wf(),
            forall|name: Seq<char>, p: Prop| !c.knows(name, p),
    {
        Context::new()
    }
}

} // verus!
