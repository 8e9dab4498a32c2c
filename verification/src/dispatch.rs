//! One fan-out round: per-peer outcomes and their fold into a single
//! aggregated response.
//!
//! Sending the command to a peer happens outside this crate; this module
//! receives the outcome of each attempt and decides what the round as a
//! whole answers: the response of the last peer processed that succeeded,
//! or a fixed sentinel when no peer responded.

use vstd::prelude::*;

verus! {

/// The fixed reply handed back when no linked peer produced a response.
pub open spec fn no_response() -> Seq<char> {
    "No components responded to request"@
}

/// What one dispatch attempt produced for a single peer: the peer's
/// response on success, or an opaque description of the failure.
#[derive(Debug)]
pub enum DispatchOutcome {
    Success(String),
    Failure(String),
}

/// The mathematical model of a [`DispatchOutcome`].
pub enum OutcomeModel {
    Success(Seq<char>),
    Failure(Seq<char>),
}

impl View for DispatchOutcome {
    type V = OutcomeModel;

    open spec fn view(&self) -> OutcomeModel {
        match self {
            DispatchOutcome::Success(r) => OutcomeModel::Success(r@),
            DispatchOutcome::Failure(e) => OutcomeModel::Failure(e@),
        }
    }
}

/// The models of a sequence of outcomes, in the order they were produced.
pub open spec fn models_of(s: Seq<DispatchOutcome>) -> Seq<OutcomeModel> {
    s.map(|i: int, o: DispatchOutcome| o@)
}

/// The aggregation rule for one round: the response of the last
/// successful outcome, or the sentinel when none succeeded.
pub open spec fn aggregate_model(s: Seq<OutcomeModel>) -> Seq<char>
    decreases s.len(),
{
    if s.len() == 0 {
        no_response()
    } else {
        match s.last() {
            OutcomeModel::Success(r) => r,
            OutcomeModel::Failure(_) => aggregate_model(s.drop_last()),
        }
    }
}

/// The "latest successful response" after folding a run of outcomes:
/// `None` while nothing has succeeded.
pub open spec fn folded(s: Seq<OutcomeModel>) -> Option<Seq<char>>
    decreases s.len(),
{
    if s.len() == 0 {
        None
    } else {
        match s.last() {
            OutcomeModel::Success(r) => Some(r),
            OutcomeModel::Failure(_) => folded(s.drop_last()),
        }
    }
}

/// The aggregated response of a round is the folded "latest success",
/// with the sentinel filled in when there was none.
pub proof fn lemma_folded_aggregate(s: Seq<OutcomeModel>)
    ensures
        aggregate_model(s) == (match folded(s) {
            Some(r) => r,
            None => no_response(),
        }),
    decreases s.len(),
{
    if s.len() > 0 {
        match s.last() {
            OutcomeModel::Success(_) => {}
            OutcomeModel::Failure(_) => {
                lemma_folded_aggregate(s.drop_last());
            }
        }
    }
}

/// Law: a round over an empty set of peers answers exactly the sentinel.
pub proof fn lemma_aggregate_empty(s: Seq<OutcomeModel>)
    requires
        s.len() == 0,
    ensures
        aggregate_model(s) == no_response(),
{
}

/// Law: the round answers the response of the last successful outcome,
/// whatever came before it and however the later attempts failed. In
/// particular, when several peers succeed, the one processed last wins.
pub proof fn lemma_aggregate_last_success(s: Seq<OutcomeModel>, i: int)
    requires
        0 <= i < s.len(),
        s[i] is Success,
        forall|j: int| i < j < s.len() ==> s[j] is Failure,
    ensures
        aggregate_model(s) == s[i]->Success_0,
    decreases s.len(),
{
    if i < s.len() - 1 {
        assert(s.last() is Failure);
        lemma_aggregate_last_success(s.drop_last(), i);
    }
}

/// Law: when exactly one peer succeeded, the round answers its response,
/// however many peers failed around it.
pub proof fn lemma_aggregate_sole_success(s: Seq<OutcomeModel>, i: int)
    requires
        0 <= i < s.len(),
        s[i] is Success,
        forall|j: int| 0 <= j < s.len() && j != i ==> s[j] is Failure,
    ensures
        aggregate_model(s) == s[i]->Success_0,
{
    lemma_aggregate_last_success(s, i);
}

/// The fan-in state of one dispatch round, fed one outcome at a time as
/// the attempts complete, in the order the peers were processed.
pub struct DispatchState {
    pub last_response: Option<String>,
}

impl DispatchState {
    /// The "latest successful response" this state holds.
    pub open spec fn model(&self) -> Option<Seq<char>> {
        match self.last_response {
            Some(r) => Some(r@),
            None => None,
        }
    }

    /// A fresh round: no peer has responded yet.
    pub fn new() -> (r: Self)
        ensures
            r.model() == None::<Seq<char>>,
    {
        DispatchState { last_response: None }
    }

    /// Record one peer's outcome: a success replaces the response kept so
    /// far; a failure is absorbed and changes nothing.
    pub fn record(&mut self, outcome: &DispatchOutcome)
        ensures
            final(self).model() == (match outcome@ {
                OutcomeModel::Success(r) => Some(r),
                OutcomeModel::Failure(_) => old(self).model(),
            }),
    {
        match outcome {
            DispatchOutcome::Success(r) => {
                self.last_response = Some(r.clone());
            }
            DispatchOutcome::Failure(_) => {}
        }
    }

    /// Close the round: the last successful response, or the sentinel when
    /// no peer responded.
    pub fn finish(self) -> (r: String)
        ensures
            r@ == (match self.model() {
                Some(resp) => resp,
                None => no_response(),
            }),
    {
        match self.last_response {
            Some(r) => r,
            None => "No components responded to request".to_owned(),
        }
    }
}

/// Fold a whole round of outcomes at once: exactly the aggregation rule.
pub fn aggregate(outcomes: &Vec<DispatchOutcome>) -> (r: String)
    ensures
        r@ == aggregate_model(models_of(outcomes@)),
{
    let mut state = DispatchState::new();
    let mut i: usize = 0;
    while i < outcomes.len()
        invariant
            i <= outcomes@.len(),
            state.model() == folded(models_of(outcomes@).take(i as int)),
        decreases outcomes@.len() - i,
    {
        state.record(&outcomes[i]);
        proof {
            let ms = models_of(outcomes@);
            assert(ms.take(i + 1 as int).drop_last() =~= ms.take(i as int));
            assert(ms.take(i + 1 as int).last() == ms[i as int]);
        }
        i = i + 1;
    }
    proof {
        let ms = models_of(outcomes@);
        assert(ms.take(outcomes@.len() as int) =~= ms);
        lemma_folded_aggregate(ms);
    }
    state.finish()
}

} // verus!
