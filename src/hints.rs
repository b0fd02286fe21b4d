//! Hints on types and fields, and the flags they set.
use vstd::prelude::*;

verus! {

/// Flags that a hint sets on a type or a field; a field has those of its
/// aggregate as well as its own.
#[derive(Debug, Clone, Copy, PartialEq, Eq, Structural)]
pub struct GenFlags {
    pub complete: bool,
    pub always: bool,
    pub diff: bool,
    pub fixed: bool,
    pub default: bool,
}

/// A hint on a type, a variant or a field.
pub enum Hint {
    /// Width of an integer.
    Bits(u32),
    /// Whole and fractional bits of a fixed-point float.
    FixedBits(i32, i32),
    /// Integer widths to choose from, in order of preference.
    SubBits(Vec<u32>),
    /// Fixed-point widths to choose from; `(-1, -1)` is the raw escape.
    FixedSubBits(Vec<(i32, i32)>),
    Always,
    Diff,
    Complete,
    Fixed,
    Default,
}

impl GenFlags {
    pub open spec fn none() -> GenFlags {
        GenFlags { complete: false, always: false, diff: false, fixed: false, default: false }
    }

    pub open spec fn or(self, o: GenFlags) -> GenFlags {
        GenFlags {
            complete: self.complete || o.complete,
            always: self.always || o.always,
            diff: self.diff || o.diff,
            fixed: self.fixed || o.fixed,
            default: self.default || o.default,
        }
    }

    pub fn empty() -> (r: GenFlags)
        ensures
            r == GenFlags::none(),
    {
        GenFlags { complete: false, always: false, diff: false, fixed: false, default: false }
    }

    /// The flags set in either.
    pub fn union(self, o: GenFlags) -> (r: GenFlags)
        ensures
            r == self.or(o),
    {
        GenFlags {
            complete: self.complete || o.complete,
            always: self.always || o.always,
            diff: self.diff || o.diff,
            fixed: self.fixed || o.fixed,
            default: self.default || o.default,
        }
    }
}

/// The flags after one more hint.
pub open spec fn with_hint(f: GenFlags, h: Hint) -> GenFlags {
    match h {
        Hint::Complete => GenFlags { complete: true, ..f },
        Hint::Always => GenFlags { always: true, ..f },
        Hint::Diff => GenFlags { diff: true, ..f },
        Hint::Fixed => GenFlags { fixed: true, ..f },
        Hint::Default => GenFlags { default: true, ..f },
        _ => f,
    }
}

/// The flags that a list of hints sets.
pub open spec fn flags_of(hs: Seq<Hint>) -> GenFlags
    decreases hs.len(),
{
    if hs.len() == 0 {
        GenFlags::none()
    } else {
        with_hint(flags_of(hs.drop_last()), hs.last())
    }
}

/// The flags that `hints` set.
pub fn decode_flags(hints: &Vec<Hint>) -> (r: GenFlags)
    ensures
        r == flags_of(hints@),
{
    let mut f = GenFlags::empty();
    let mut i: usize = 0;
    while i < hints.len()
        invariant
            0 <= i <= hints.len(),
            f == flags_of(hints@.take(i as int)),
        decreases hints.len() - i,
    {
        proof {
            assert(hints@.take(i + 1).drop_last() =~= hints@.take(i as int));
        }
        match &hints[i] {
            Hint::Complete => f.complete = true,
            Hint::Always => f.always = true,
            Hint::Diff => f.diff = true,
            Hint::Fixed => f.fixed = true,
            Hint::Default => f.default = true,
            _ => {},
        }
        i = i + 1;
    }
    proof {
        assert(hints@.take(hints.len() as int) =~= hints@);
    }
    f
}

} // verus!
