use vstd::prelude::*;

use crate::model::{diagnostics_view, Components, LoadingResult, Outcome};

verus! {

/// The outcome of trying candidate documents in order: the first one that
/// decoded wins, and every failure before it is dropped; if none decoded, all
/// diagnostics are kept in document order.
pub open spec fn outcome_of(attempts: Seq<Result<Components, String>>) -> Outcome
    decreases attempts.len(),
{
    if attempts.len() == 0 {
        Outcome::Rejected(Seq::empty())
    } else {
        match attempts[0] {
            Ok(c) => Outcome::Loaded(c),
            Err(e) => match outcome_of(attempts.drop_first()) {
                Outcome::Loaded(c) => Outcome::Loaded(c),
                Outcome::Rejected(ds) => Outcome::Rejected(seq![e@] + ds),
            },
        }
    }
}

/// The diagnostic of a failed attempt (empty for a success).
pub open spec fn diagnostic_of(a: Result<Components, String>) -> Seq<char> {
    match a {
        Ok(_) => Seq::empty(),
        Err(e) => e@,
    }
}

/// First match wins: when the attempt at `k` is the first that decoded, the
/// outcome is that document, whatever the attempts after it hold.
pub proof fn lemma_first_match_wins(attempts: Seq<Result<Components, String>>, k: int)
    requires
        0 <= k < attempts.len(),
        attempts[k] is Ok,
        forall|i: int| 0 <= i < k ==> (#[trigger] attempts[i]) is Err,
    ensures
        outcome_of(attempts) == Outcome::Loaded(attempts[k]->Ok_0),
    decreases k,
{
    if k > 0 {
        let rest = attempts.drop_first();
        assert forall|i: int| 0 <= i < k - 1 implies (#[trigger] rest[i]) is Err by {
            assert(rest[i] == attempts[i + 1]);
        }
        lemma_first_match_wins(rest, k - 1);
        assert(attempts[0] is Err);
    }
}

/// All rejected: when no attempt decoded, the outcome is rejected with one
/// diagnostic per attempt, in document order.
pub proof fn lemma_all_rejected(attempts: Seq<Result<Components, String>>)
    requires
        forall|i: int| 0 <= i < attempts.len() ==> (#[trigger] attempts[i]) is Err,
    ensures
        outcome_of(attempts) == Outcome::Rejected(attempts.map_values(|a| diagnostic_of(a))),
    decreases attempts.len(),
{
    if attempts.len() > 0 {
        let rest = attempts.drop_first();
        assert forall|i: int| 0 <= i < rest.len() implies (#[trigger] rest[i]) is Err by {
            assert(rest[i] == attempts[i + 1]);
        }
        lemma_all_rejected(rest);
        assert(attempts[0] is Err);
        assert(seq![diagnostic_of(attempts[0])] + rest.map_values(|a| diagnostic_of(a))
            =~= attempts.map_values(|a| diagnostic_of(a)));
    } else {
        assert(attempts.map_values(|a| diagnostic_of(a)) =~= Seq::<Seq<char>>::empty());
    }
}

/// A stream without documents is rejected with no diagnostic.
pub proof fn lemma_no_documents()
    ensures
        outcome_of(Seq::<Result<Components, String>>::empty()) == Outcome::Rejected(
            Seq::<Seq<char>>::empty(),
        ),
{
}

/// Consumes the decoding attempts of a multi-document stream one at a time,
/// keeping the first success and the diagnostics of the failures before it.
pub struct DocumentSelector {
    diagnostics: Vec<String>,
    found: Option<Components>,
}

impl DocumentSelector {
    /// The diagnostics recorded so far, in order.
    pub closed spec fn diagnostics(&self) -> Seq<Seq<char>> {
        diagnostics_view(self.diagnostics@)
    }

    /// The document that was accepted, once one was.
    pub closed spec fn found(&self) -> Option<Components> {
        self.found
    }

    /// The outcome the selector stands for, given the attempts still to come.
    pub open spec fn outcome_with(&self, rest: Seq<Result<Components, String>>) -> Outcome {
        match self.found() {
            Some(c) => Outcome::Loaded(c),
            None => match outcome_of(rest) {
                Outcome::Loaded(c) => Outcome::Loaded(c),
                Outcome::Rejected(ds) => Outcome::Rejected(self.diagnostics() + ds),
            },
        }
    }

    /// A selector that has seen no document.
    pub fn new() -> (r: DocumentSelector)
        ensures
            r.diagnostics() == Seq::<Seq<char>>::empty(),
            r.found() is None,
    {
        DocumentSelector { diagnostics: Vec::new(), found: None }
    }

    /// Whether a document was accepted; later documents need not be decoded.
    pub fn is_done(&self) -> (r: bool)
        ensures
            r == (self.found() is Some),
    {
        self.found.is_some()
    }

    /// Records the attempt to decode the next document. Once a document was
    /// accepted, further attempts change nothing.
    pub fn offer(&mut self, attempt: Result<Components, String>)
        ensures
            old(self).found() is Some ==> *final(self) == *old(self),
            old(self).found() is None ==> match attempt {
                Ok(c) => final(self).found() == Some(c) && final(self).diagnostics()
                    == old(self).diagnostics(),
                Err(e) => final(self).found() is None && final(self).diagnostics()
                    == old(self).diagnostics().push(e@),
            },
            forall|rest: Seq<Result<Components, String>>|
                #[trigger] final(self).outcome_with(rest) == old(self).outcome_with(
                    seq![attempt] + rest,
                ),
    {
        if self.found.is_some() {
            return;
        }
        match attempt {
            Ok(c) => {
                self.found = Some(c);
            },
            Err(e) => {
                self.diagnostics.push(e);
            },
        }
        assert forall|rest: Seq<Result<Components, String>>|
            #[trigger] self.outcome_with(rest) == old(self).outcome_with(
                seq![attempt] + rest,
            ) by {
            let s = seq![attempt] + rest;
            assert(s.drop_first() =~= rest);
            assert(s[0] == attempt);
            if let Err(e) = attempt {
                assert(diagnostics_view(self.diagnostics@) =~= diagnostics_view(
                    old(self).diagnostics@,
                ).push(e@));
                match outcome_of(rest) {
                    Outcome::Loaded(_) => {},
                    Outcome::Rejected(ds) => {
                        assert(old(self).diagnostics().push(e@) + ds =~= old(
                            self,
                        ).diagnostics() + (seq![e@] + ds));
                    },
                }
            }
        }
    }

    /// The outcome: the accepted document, or every diagnostic recorded.
    pub fn finish(self) -> (r: LoadingResult)
        ensures
            r@ == self.outcome_with(Seq::empty()),
    {
        match self.found {
            Some(c) => LoadingResult::Success(c),
            None => {
                let r = LoadingResult::Failed(self.diagnostics);
                assert(self.diagnostics() + Seq::<Seq<char>>::empty() =~= self.diagnostics());
                r
            },
        }
    }
}

/// Picks the outcome of a stream from the attempts to decode its documents,
/// given in document order.
pub fn select_outcome(attempts: Vec<Result<Components, String>>) -> (r: LoadingResult)
    ensures
        r@ == outcome_of(attempts@),
{
    let mut attempts = attempts;
    let ghost all = attempts@;
    let mut selector = DocumentSelector::new();
    proof {
        assert(Seq::<Seq<char>>::empty() + outcome_of(all)->Rejected_0 =~= outcome_of(
            all,
        )->Rejected_0);
    }
    while attempts.len() > 0
        invariant
            selector.outcome_with(attempts@) == outcome_of(all),
        decreases attempts.len(),
    {
        let ghost before = attempts@;
        let a = attempts.remove(0);
        proof {
            assert(before =~= seq![a] + attempts@);
        }
        selector.offer(a);
    }
    selector.finish()
}

} // verus!
