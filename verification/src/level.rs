//! Where a document may be cut: the bookmark that each page carries, and the level of the
//! outline at which a split is asked for.

use crate::text;
use std::cmp::Ordering;
use vstd::prelude::*;
use vstd::string::*;

verus! {

/// What the outline says of one page: the depth of the coarsest bookmark that points at it, or
/// nothing but the page itself.
#[derive(Debug, Clone, Copy, PartialEq, Eq, Structural)]
pub enum Boundary {
    Page,
    Bookmark { depth: u32 },
}

/// The level at which a document is split, declared from the coarsest to the finest:
/// `Depth(1) < Depth(2) < ... < AnyBookmark < Page`.
#[derive(Debug, Clone, Copy, PartialEq, Eq, Ord, Structural)]
pub enum SplitAt {
    Depth(u32),
    AnyBookmark,
    Page,
}

impl SplitAt {
    /// A page that carries `b` may start a chunk at this level.
    pub open spec fn qualifies(self, b: Boundary) -> bool {
        match self {
            SplitAt::Page => true,
            SplitAt::AnyBookmark => b is Bookmark,
            SplitAt::Depth(n) => b matches Boundary::Bookmark { depth } && depth <= n,
        }
    }

    /// Position of the level on the scale from coarse to fine.
    pub open spec fn fineness(self) -> int {
        match self {
            SplitAt::Depth(n) => n as int,
            SplitAt::AnyBookmark => 0x1_0000_0000,
            SplitAt::Page => 0x1_0000_0001,
        }
    }

    /// How many levels are finer than this one.
    pub open spec fn finer_levels(self) -> nat {
        (SplitAt::Page.fineness() - self.fineness()) as nat
    }

    /// The name of the level in reports.
    pub open spec fn name(self) -> Seq<char> {
        match self {
            SplitAt::Page => "page"@,
            SplitAt::AnyBookmark => "any-bookmark"@,
            SplitAt::Depth(n) => "depth-"@ + text::decimal(n as nat),
        }
    }

    /// The name of the level in reports: `page`, `any-bookmark` or `depth-N`.
    pub fn to_string(&self) -> (name: String)
        ensures
            name@ == self.name(),
    {
        match self {
            SplitAt::Page => "page".to_owned(),
            SplitAt::AnyBookmark => "any-bookmark".to_owned(),
            SplitAt::Depth(n) => {
                let mut name = "depth-".to_owned();
                text::push_decimal(&mut name, *n as u64);
                name
            },
        }
    }

    /// True if `b` is a valid cut point at this level: at `Page` every page boundary is, at
    /// `AnyBookmark` every bookmark, at `Depth(n)` every bookmark of depth `n` or less.
    pub fn matches(&self, b: &Boundary) -> (ok: bool)
        ensures
            ok == self.qualifies(*b),
    {
        match self {
            SplitAt::Page => true,
            SplitAt::AnyBookmark => match b {
                Boundary::Bookmark { .. } => true,
                Boundary::Page => false,
            },
            SplitAt::Depth(n) => match b {
                Boundary::Bookmark { depth } => *depth <= *n,
                Boundary::Page => false,
            },
        }
    }
}

impl PartialOrd for SplitAt {
    fn partial_cmp(&self, other: &Self) -> (order: Option<Ordering>) {
        match (self, other) {
            (SplitAt::Depth(a), SplitAt::Depth(b)) => if a < b {
                Some(Ordering::Less)
            } else if a == b {
                Some(Ordering::Equal)
            } else {
                Some(Ordering::Greater)
            },
            (SplitAt::AnyBookmark, SplitAt::AnyBookmark) => Some(Ordering::Equal),
            (SplitAt::Page, SplitAt::Page) => Some(Ordering::Equal),
            (SplitAt::Depth(_), _) => Some(Ordering::Less),
            (_, SplitAt::Depth(_)) => Some(Ordering::Greater),
            (SplitAt::AnyBookmark, SplitAt::Page) => Some(Ordering::Less),
            (SplitAt::Page, SplitAt::AnyBookmark) => Some(Ordering::Greater),
        }
    }
}

impl vstd::std_specs::cmp::PartialOrdSpecImpl for SplitAt {
    open spec fn obeys_partial_cmp_spec() -> bool {
        true
    }

    open spec fn partial_cmp_spec(&self, other: &Self) -> Option<Ordering> {
        if self.fineness() < other.fineness() {
            Some(Ordering::Less)
        } else if self.fineness() == other.fineness() {
            Some(Ordering::Equal)
        } else {
            Some(Ordering::Greater)
        }
    }
}

/// The scale from coarse to fine tells levels apart: two levels are equally fine exactly when
/// they are the same level.
pub proof fn fineness_is_injective(a: SplitAt, b: SplitAt)
    ensures
        a.fineness() == b.fineness() <==> a == b,
{
}

/// The name tells levels apart: no two levels have the same name.
pub proof fn name_is_injective(a: SplitAt, b: SplitAt)
    requires
        a.name() == b.name(),
    ensures
        a == b,
{
    reveal_strlit("page");
    reveal_strlit("any-bookmark");
    reveal_strlit("depth-");
    assert(a is Page ==> a.name()[0] == 'p');
    assert(b is Page ==> b.name()[0] == 'p');
    assert(a is AnyBookmark ==> a.name()[0] == 'a');
    assert(b is AnyBookmark ==> b.name()[0] == 'a');
    assert(a is Depth ==> a.name()[0] == 'd');
    assert(b is Depth ==> b.name()[0] == 'd');
    if a is Depth {
        assert(a.name().skip(6) =~= text::decimal(a->Depth_0 as nat));
        assert(b.name().skip(6) =~= text::decimal(b->Depth_0 as nat));
        text::decimal_is_injective(a->Depth_0 as nat, b->Depth_0 as nat);
    }
}

/// Every cut that is allowed at a level is allowed at each finer level.
pub proof fn finer_levels_keep_cuts(coarse: SplitAt, fine: SplitAt, b: Boundary)
    requires
        coarse.fineness() <= fine.fineness(),
        coarse.qualifies(b),
    ensures
        fine.qualifies(b),
{
}

/// Which pages may start a chunk: at page level all, at any bookmark those that carry one, at a depth
/// those that carry one of that depth or less.
pub proof fn levels_look_at_depths(n: u32, depth: u32)
    ensures
        SplitAt::Page.qualifies(Boundary::Page),
        SplitAt::Page.qualifies(Boundary::Bookmark { depth }),
        !SplitAt::AnyBookmark.qualifies(Boundary::Page),
        SplitAt::AnyBookmark.qualifies(Boundary::Bookmark { depth }),
        !SplitAt::Depth(n).qualifies(Boundary::Page),
        SplitAt::Depth(n).qualifies(Boundary::Bookmark { depth }) <==> depth <= n,
{
}

/// The scale from coarse to fine: depths by their number, then any bookmark, then page level.
pub proof fn levels_are_ordered(n: u32, m: u32)
    ensures
        SplitAt::Depth(n).fineness() < SplitAt::Depth(m).fineness() <==> n < m,
        SplitAt::Depth(n).fineness() < SplitAt::AnyBookmark.fineness(),
        SplitAt::AnyBookmark.fineness() < SplitAt::Page.fineness(),
{
}

/// Levels are compared by the scale from coarse to fine.
pub proof fn comparing_goes_by_the_scale(a: SplitAt, b: SplitAt)
    ensures
        vstd::std_specs::cmp::PartialOrdSpec::partial_cmp_spec(&a, &b) == Some(Ordering::Less) <==> a.fineness() < b.fineness(),
        vstd::std_specs::cmp::PartialOrdSpec::partial_cmp_spec(&a, &b) == Some(Ordering::Equal) <==> a == b,
        vstd::std_specs::cmp::PartialOrdSpec::partial_cmp_spec(&a, &b) is Some,
{
}

/// The names of the levels.
pub proof fn levels_are_named(n: u32)
    ensures
        SplitAt::Page.name() == "page"@,
        SplitAt::AnyBookmark.name() == "any-bookmark"@,
        SplitAt::Depth(n).name() == "depth-"@ + text::decimal(n as nat),
{
}

} // verus!
