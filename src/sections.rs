//! Sectioned sample budgets: consumers claim whole sections of samples from a
//! shared counter and draw the samples of a section locally.
use vstd::prelude::*;
use std::sync::Arc;
use std::sync::atomic::{AtomicUsize, Ordering};

verus! {

/// A source of sample points, one per call, until it runs dry.
pub trait LocationGenerator<T> {
    fn next_location(&mut self) -> Option<T>;
}

/// What a consumer may do on its next draw.
#[derive(Clone, Copy, Debug, PartialEq, Eq, Structural)]
pub enum Slot {
    /// The budget is spent: no more samples.
    Exhausted,
    /// Draw one more sample of the current section.
    Sample,
    /// A new section was claimed, with this 1-based number; draw its first
    /// sample.
    Started(usize),
}

/// The result of a claim that found `prev` samples already claimed: `None`
/// once the budget of `total` is reached, else the 1-based number of the
/// section claimed.
pub open spec fn spec_claim_outcome(prev: usize, total: usize, section_total: usize) -> Option<usize> {
    if prev >= total {
        None
    } else {
        Some((prev / section_total + 1) as usize)
    }
}

/// Decides a claim from the count of samples claimed before it.
pub fn claim_outcome(prev: usize, total: usize, section_total: usize) -> (r: Option<usize>)
    requires
        section_total > 0,
    ensures
        r == spec_claim_outcome(prev, total, section_total),
{
    if prev >= total {
        None
    } else {
        assert(prev / section_total < usize::MAX) by (nonlinear_arith)
            requires
                section_total > 0,
                prev < total,
                total <= usize::MAX,
        {
            assert(prev / section_total <= prev);
        }
        Some(prev / section_total + 1)
    }
}

/// One consumer's view of a shared sample budget.
pub struct Sections {
    total: usize,
    section_total: usize,
    section_current: usize,
    claimed: Arc<AtomicUsize>,
}

impl Sections {
    pub closed spec fn spec_total(&self) -> usize {
        self.total
    }

    pub closed spec fn spec_section_total(&self) -> usize {
        self.section_total
    }

    /// Samples left in the section this consumer holds.
    pub closed spec fn spec_remaining(&self) -> usize {
        self.section_current
    }

    pub open spec fn wf(&self) -> bool {
        self.spec_section_total() > 0 && self.spec_remaining() <= self.spec_section_total()
    }

    /// A budget of `total` samples handed out in sections of `section_total`.
    pub fn new(total: usize, section_total: usize) -> (r: Self)
        requires
            section_total > 0,
        ensures
            r.wf(),
            r.spec_total() == total,
            r.spec_section_total() == section_total,
            r.spec_remaining() == 0,
    {
        Sections { total, section_total, section_current: 0, claimed: Arc::new(AtomicUsize::new(0)) }
    }

    /// Another consumer of the same budget, holding no section yet.
    pub fn clone_handle(&self) -> (r: Self)
        requires
            self.wf(),
        ensures
            r.wf(),
            r.spec_total() == self.spec_total(),
            r.spec_section_total() == self.spec_section_total(),
            r.spec_remaining() == 0,
    {
        Sections {
            total: self.total,
            section_total: self.section_total,
            section_current: 0,
            claimed: self.claimed.clone(),
        }
    }

    /// Decides the next draw. Within a section it is a sample; at a section's
    /// end a new section is claimed from the shared counter, which other
    /// consumers advance too, so the outcome is that of some earlier count.
    pub fn next_slot(&mut self) -> (r: Slot)
        requires
            old(self).wf(),
        ensures
            final(self).wf(),
            final(self).spec_total() == old(self).spec_total(),
            final(self).spec_section_total() == old(self).spec_section_total(),
            old(self).spec_remaining() > 0 ==> r == Slot::Sample && final(self).spec_remaining()
                == old(self).spec_remaining() - 1,
            old(self).spec_remaining() == 0 ==> exists|prev: usize|
                match #[trigger] spec_claim_outcome(
                    prev,
                    old(self).spec_total(),
                    old(self).spec_section_total(),
                ) {
                    None => r == Slot::Exhausted && final(self).spec_remaining() == 0,
                    Some(k) => r == Slot::Started(k) && final(self).spec_remaining() == old(self).spec_section_total() - 1,
                },
    {
        if self.section_current == 0 {
            let prev = self.claimed.fetch_add(self.section_total, Ordering::Relaxed);
            let outcome = claim_outcome(prev, self.total, self.section_total);
            let r = match outcome {
                None => Slot::Exhausted,
                Some(k) => {
                    self.section_current = self.section_total - 1;
                    Slot::Started(k)
                },
            };
            assert(spec_claim_outcome(prev, old(self).spec_total(), old(self).spec_section_total())
                == outcome);
            r
        } else {
            self.section_current = self.section_current - 1;
            Slot::Sample
        }
    }

    /// Number of whole sections in the budget.
    pub fn section_count(&self) -> (r: usize)
        requires
            self.wf(),
        ensures
            r == self.spec_total() / self.spec_section_total(),
    {
        self.total / self.section_total
    }
}

} // verus!
