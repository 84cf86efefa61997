use vstd::prelude::*;
use vstd::string::{to_string_from_display_ensures, StringExecFns};

verus! {

/// What the callback of a repeatable for-each tells the loop to do next.
#[derive(Debug, PartialEq, Eq, Copy, Clone, Ord, PartialOrd, Hash)]
pub enum LoopControl<B = (), C = (), S = ()> {
    /// Stop the loop and hand back a result.
    Break(B),
    /// Go on with the next element of the source.
    Continue(C),
    /// Run the body again on the given value, without advancing the source.
    Repeat(S),
}

impl<C, S> LoopControl<(), C, S> {
    /// `Break` with a unit payload.
    pub fn unit_break() -> (r: Self)
        ensures
            r == Self::Break(()),
    {
        Self::Break(())
    }
}

impl<B, S> LoopControl<B, (), S> {
    /// `Continue` with a unit payload.
    pub fn unit_continue() -> (r: Self)
        ensures
            r == Self::Continue(()),
    {
        Self::Continue(())
    }
}

impl<B, C> LoopControl<B, C, ()> {
    /// `Repeat` with a unit payload.
    pub fn unit_repeat() -> (r: Self)
        ensures
            r == Self::Repeat(()),
    {
        Self::Repeat(())
    }
}

impl<B: core::fmt::Display, C: core::fmt::Display, S: core::fmt::Display> LoopControl<B, C, S> {
    /// Renders the signal as text: `LoopControl::`, the variant's name, and
    /// its payload as that payload displays itself, in parentheses.
    pub fn to_text(&self) -> (r: String)
        ensures
            exists|p: String|
                {
                    &&& match *self {
                        LoopControl::Break(b) => to_string_from_display_ensures::<B>(&b, p),
                        LoopControl::Continue(c) => to_string_from_display_ensures::<C>(&c, p),
                        LoopControl::Repeat(s) => to_string_from_display_ensures::<S>(&s, p),
                    }
                    &&& r@ == "LoopControl::"@ + self.name_of() + "("@ + p@ + ")"@
                },
    {
        let mut out = String::from_str("LoopControl::");
        let payload = match self {
            LoopControl::Break(b) => b.to_string(),
            LoopControl::Continue(c) => c.to_string(),
            LoopControl::Repeat(s) => s.to_string(),
        };
        out.append(self.variant_name());
        out.append("(");
        out.append(payload.as_str());
        out.append(")");
        out
    }
}

impl<B, C, S> LoopControl<B, C, S> {
    /// The name of the variant, as text.
    pub open spec fn name_of(self) -> Seq<char> {
        match self {
            LoopControl::Break(_) => "Break"@,
            LoopControl::Continue(_) => "Continue"@,
            LoopControl::Repeat(_) => "Repeat"@,
        }
    }

    /// The name of the variant.
    pub fn variant_name(&self) -> (r: &'static str)
        ensures
            r@ == self.name_of(),
    {
        match self {
            LoopControl::Break(_) => "Break",
            LoopControl::Continue(_) => "Continue",
            LoopControl::Repeat(_) => "Repeat",
        }
    }
}

} // verus!
