//! One iteration of the combination loop, as a pure state step.
//!
//! The caller (the process around the library) samples a pair, performs the
//! one HTTP fetch, and hands the interpreted outcome to [`CraftState::apply_outcome`],
//! which updates both stores and reports what to persist and log. The two
//! updates — the pair record and a possibly new element — belong together:
//! the report carries both halves of that logical unit.

use vstd::prelude::*;
use vstd::string::*;
use crate::element::Element;
use crate::order::canonical_key;
use crate::order::lemma_spec_key_commutes;
use crate::order::spec_key;
use crate::pairs::PairStore;
use crate::store::ElementStore;

verus! {

/// The in-memory state of the combination loop: both stores.
pub struct CraftState {
    pub elements: ElementStore,
    pub pairs: PairStore,
}

/// What the caller logs about one iteration.
#[derive(Debug, Clone, Copy, PartialEq, Eq, Structural)]
pub enum StepLog {
    /// The result element is a server-reported first-ever discovery.
    Discovery,
    /// The result element is merely new to this local store.
    NewLocal,
    /// The result element was already stored.
    Known,
    /// The combination yielded nothing.
    NoResult,
}

/// What one iteration asks the caller to persist and log. The pair record
/// and the new element must be made durable together.
#[derive(Debug)]
pub struct StepReport {
    /// The canonical pair key that was recorded, smaller name first.
    pub key_first: String,
    /// The canonical pair key that was recorded, larger name second.
    pub key_second: String,
    /// The recorded outcome: the resulting element's name, or absent.
    pub outcome: Option<String>,
    /// The element to add to durable element storage, when one is new.
    pub new_element: Option<Element>,
    /// What to log.
    pub log: StepLog,
}

/// The name recorded for a fetched outcome.
pub open spec fn outcome_name(fetched: Option<Element>) -> Option<Seq<char>> {
    match fetched {
        Some(e) => Some(e@.result),
        None => None,
    }
}

/// The cross-store invariant: every name recorded as a present pair result
/// also exists as a key of the element store.
pub open spec fn results_covered(state: CraftState) -> bool {
    forall|k: (Seq<char>, Seq<char>)| #[trigger]
        state.pairs@.contains_key(k) ==> match state.pairs@[k] {
            Some(name) => state.elements@.contains_key(name),
            None => true,
        }
}

impl CraftState {
    /// Both stores are well-formed.
    pub open spec fn wf(&self) -> bool {
        self.elements.wf() && self.pairs.wf()
    }

    /// Applies one fetched outcome for the unordered pair `(first, second)`:
    /// records the pair under its canonical key, inserts the result element
    /// when its name is new to the element store, and reports what to
    /// persist and log.
    pub fn apply_outcome(&mut self, first: &str, second: &str, fetched: Option<Element>) -> (r:
        StepReport)
        requires
            old(self).wf(),
            !old(self).pairs@.contains_key(spec_key(first@, second@)),
        ensures
            final(self).wf(),
            final(self).pairs@ == old(self).pairs@.insert(
                spec_key(first@, second@),
                outcome_name(fetched),
            ),
            (r.key_first@, r.key_second@) == spec_key(first@, second@),
            outcome_name(r.new_element) == match fetched {
                Some(e) => if old(self).elements@.contains_key(e@.result) {
                    None::<Seq<char>>
                } else {
                    Some(e@.result)
                },
                None => None::<Seq<char>>,
            },
            match r.outcome {
                Some(s) => outcome_name(fetched) == Some(s@),
                None => outcome_name(fetched) is None,
            },
            match fetched {
                Some(e) => {
                    &&& if old(self).elements@.contains_key(e@.result) {
                        &&& final(self).elements@ == old(self).elements@
                        &&& final(self).elements.seq_view() == old(self).elements.seq_view()
                        &&& r.new_element is None
                        &&& r.log == StepLog::Known
                    } else {
                        &&& final(self).elements@ == old(self).elements@.insert(e@.result, e@)
                        &&& final(self).elements.seq_view().len() == old(
                            self,
                        ).elements.seq_view().len() + 1
                        &&& r.new_element == Some(e)
                        &&& r.log == (if e@.is_new {
                            StepLog::Discovery
                        } else {
                            StepLog::NewLocal
                        })
                    }
                },
                None => {
                    &&& final(self).elements@ == old(self).elements@
                    &&& final(self).elements.seq_view() == old(self).elements.seq_view()
                    &&& r.new_element is None
                    &&& r.log == StepLog::NoResult
                },
            },
            results_covered(*old(self)) ==> results_covered(*final(self)),
    {
        let (k0, k1) = canonical_key(first, second);
        let outcome: Option<String> = match &fetched {
            Some(e) => Some(e.result.clone()),
            None => None,
        };
        let report_outcome: Option<String> = match &outcome {
            Some(s) => Some(s.clone()),
            None => None,
        };
        proof {
            crate::order::lemma_seq_le_total(first@, second@);
            assert(crate::order::seq_le(k0@, k1@));
        }
        self.pairs.record(k0.clone(), k1.clone(), outcome);
        let r = match fetched {
            Some(e) => {
                if !self.elements.contains_name(e.result.as_str()) {
                    let log = if e.is_new {
                        StepLog::Discovery
                    } else {
                        StepLog::NewLocal
                    };
                    let kept = e.duplicate();
                    self.elements.insert_new(e);
                    StepReport {
                        key_first: k0,
                        key_second: k1,
                        outcome: report_outcome,
                        new_element: Some(kept),
                        log,
                    }
                } else {
                    StepReport {
                        key_first: k0,
                        key_second: k1,
                        outcome: report_outcome,
                        new_element: None,
                        log: StepLog::Known,
                    }
                }
            },
            None => StepReport {
                key_first: k0,
                key_second: k1,
                outcome: report_outcome,
                new_element: None,
                log: StepLog::NoResult,
            },
        };
        proof {
            if results_covered(*old(self)) {
                let key = spec_key(first@, second@);
                assert forall|k: (Seq<char>, Seq<char>)| #[trigger]
                    self.pairs@.contains_key(k) implies match self.pairs@[k] {
                    Some(name) => self.elements@.contains_key(name),
                    None => true,
                } by {
                    if k == key {
                        if fetched is Some {
                            let e = fetched->0;
                            assert(self.elements@.contains_key(e@.result));
                        }
                    } else {
                        assert(old(self).pairs@.contains_key(k));
                        assert(self.pairs@[k] == old(self).pairs@[k]);
                        match old(self).pairs@[k] {
                            Some(name) => {
                                assert(old(self).elements@.contains_key(name));
                                assert(self.elements@.contains_key(name));
                            },
                            None => {},
                        }
                    }
                }
            }
        }
        r
    }
}

/// Interprets a decoded response element: the literal name `Nothing` is the
/// sentinel for "no result", anything else is the resulting element.
pub fn interpret_response(e: Element) -> (r: Option<Element>)
    ensures
        e@.result == "Nothing"@ ==> r is None,
        e@.result != "Nothing"@ ==> r == Some(e),
{
    if crate::order::str_eq(e.result.as_str(), "Nothing") {
        None
    } else {
        Some(e)
    }
}

/// Once a pair is recorded, its canonical key is present for both orders of
/// the two names, so a sampler — which only returns pairs whose canonical
/// key is absent — never offers that unordered pair for a second fetch.
pub proof fn lemma_recorded_pair_never_refetched(
    pairs: Map<(Seq<char>, Seq<char>), Option<Seq<char>>>,
    first: Seq<char>,
    second: Seq<char>,
    v: Option<Seq<char>>,
)
    ensures
        pairs.insert(spec_key(first, second), v).contains_key(spec_key(first, second)),
        pairs.insert(spec_key(first, second), v).contains_key(spec_key(second, first)),
{
    lemma_spec_key_commutes(first, second);
}

} // verus!
