//! An agent that plays back scripted steps, checking the state it is shown
//! on each one.

use crate::agent::{AgentError, AgentResponse};
use crate::numfmt::{dec, usize_to_string};
use crate::state::State;
use vstd::prelude::*;

verus! {

/// One scripted step: a check run on the state it is shown, and the
/// response to give.
pub struct TestStep<F> {
    pub check: F,
    pub response: AgentResponse,
}

/// Plays back its steps in order.
pub struct TestAgent<F> {
    steps: Vec<TestStep<F>>,
    current: usize,
}

impl<F: Fn(&State)> TestAgent<F> {
    /// The scripted steps, in order.
    pub closed spec fn steps(&self) -> Seq<TestStep<F>> {
        self.steps@
    }

    /// How many steps have been played.
    pub closed spec fn current(&self) -> usize {
        self.current
    }

    /// An agent with no steps.
    pub fn new() -> (a: TestAgent<F>)
        ensures
            a.steps() == Seq::<TestStep<F>>::empty(),
            a.current() == 0,
    {
        TestAgent { steps: Vec::new(), current: 0 }
    }

    /// This agent with one more step at the end.
    pub fn add_step(self, check: F, response: AgentResponse) -> (a: TestAgent<F>)
        ensures
            a.steps() == self.steps().push(TestStep { check, response }),
            a.current() == self.current(),
    {
        let mut s = self;
        s.steps.push(TestStep { check, response });
        s
    }

    /// Whether every step has been played.
    pub fn all_consumed(&self) -> (b: bool)
        ensures
            b == (self.current() == self.steps().len()),
    {
        self.current == self.steps.len()
    }

    /// The message for an agent whose steps were not all played.
    pub fn consumed_report(&self) -> (s: String)
        ensures
            s@ == "not all test steps consumed: "@ + dec(self.current() as nat) + "/"@ + dec(
                self.steps().len(),
            ),
    {
        let mut s = String::from_str("not all test steps consumed: ");
        s.append(usize_to_string(self.current).as_str());
        s.append("/");
        s.append(usize_to_string(self.steps.len()).as_str());
        s
    }

    /// Holds when every step has been played.
    pub fn assert_all_consumed(&self)
        requires
            self.current() == self.steps().len(),
    {
    }

    /// Plays the next step: runs its check on the state and gives its
    /// response; with no step left, answers an API error and stays put.
    pub fn step(&mut self, state: &State) -> (r: Result<AgentResponse, AgentError>)
        requires
            old(self).current() < old(self).steps().len() ==> call_requires(
                old(self).steps()[old(self).current() as int].check,
                (state,),
            ),
        ensures
            final(self).steps() == old(self).steps(),
            old(self).current() < old(self).steps().len() ==> (r matches Ok(resp) && resp@
                == old(self).steps()[old(self).current() as int].response@),
            old(self).current() < old(self).steps().len() ==> final(self).current() == old(self).current() + 1,
            old(self).current() >= old(self).steps().len() ==> (r matches Err(
                AgentError::Api(m),
            ) && m@ == "no test step at index "@ + dec(old(self).current() as nat)),
            old(self).current() >= old(self).steps().len() ==> final(self).current() == old(self).current(),
    {
        let idx = self.current;
        if idx >= self.steps.len() {
            let mut m = String::from_str("no test step at index ");
            m.append(usize_to_string(idx).as_str());
            return Err(AgentError::Api(m));
        }
        self.current = idx + 1;
        (self.steps[idx].check)(state);
        Ok(self.steps[idx].response.duplicate())
    }
}

} // verus!
