use vstd::prelude::*;
use crate::route::{Handler, Middleware};

verus! {

/// What the dispatch chain does next: run one more middleware, or the
/// terminal handler.
#[derive(Clone, Copy, PartialEq, Eq, Structural, Debug)]
pub enum ChainStep {
    Run(Middleware),
    Terminal(Handler),
}

/// The per-request cursor over a resolved middleware chain.
///
/// The chain is materialized once per request; the cursor only moves
/// forward, so every middleware is handed out at most once and in order,
/// and the terminal handler follows once the chain is exhausted. Running
/// what each step names is the embedding application's business.
pub struct Context {
    pub chain: Vec<Middleware>,
    pub cursor: usize,
    pub handler: Handler,
}

impl Context {
    pub fn new(chain: Vec<Middleware>, handler: Handler) -> (r: Context)
        ensures
            r.chain == chain,
            r.cursor == 0,
            r.handler == handler,
    {
        Context { chain, cursor: 0, handler }
    }

    /// Detaches the next link: the first middleware not yet consumed, or the
    /// terminal handler if none remains.
    pub fn next(&mut self) -> (step: ChainStep)
        ensures
            final(self).chain == old(self).chain,
            final(self).handler == old(self).handler,
            if old(self).cursor < old(self).chain@.len() {
                step == ChainStep::Run(old(self).chain@[old(self).cursor as int])
                    && final(self).cursor == old(self).cursor + 1
            } else {
                step == ChainStep::Terminal(old(self).handler)
                    && final(self).cursor == old(self).cursor
            },
    {
        if self.cursor < self.chain.len() {
            let mw = self.chain[self.cursor];
            self.cursor = self.cursor + 1;
            ChainStep::Run(mw)
        } else {
            ChainStep::Terminal(self.handler)
        }
    }
}

/// One observable event of a dispatched request: a middleware's work before
/// it forwards, the terminal handler, or a middleware's work after the inner
/// chain returned to it.
#[derive(Clone, Copy, PartialEq, Eq, Structural, Debug)]
pub enum ChainEvent {
    Enter(Middleware),
    Handle(Handler),
    Leave(Middleware),
}

/// The order a request's work runs in, from position `i` of the chain on,
/// given which middleware forward: each middleware enters in chain order;
/// one that forwards wraps everything after it and leaves on the way back;
/// one that short-circuits leaves at once and nothing beyond it runs; the
/// handler runs only if every middleware forwarded.
pub open spec fn spec_trace(
    chain: Seq<Middleware>,
    forwards: Seq<bool>,
    i: int,
    handler: Handler,
) -> Seq<ChainEvent>
    decreases chain.len() - i,
{
    if i < 0 || i >= chain.len() {
        seq![ChainEvent::Handle(handler)]
    } else if forwards[i] {
        seq![ChainEvent::Enter(chain[i])] + spec_trace(chain, forwards, i + 1, handler) + seq![
            ChainEvent::Leave(chain[i]),
        ]
    } else {
        seq![ChainEvent::Enter(chain[i]), ChainEvent::Leave(chain[i])]
    }
}

/// Dispatches one request over a resolved chain, with each middleware's
/// choice to forward given up front, and returns the order everything ran
/// in.
pub fn run_chain(chain: &Vec<Middleware>, forwards: &Vec<bool>, handler: Handler) -> (trace: Vec<
    ChainEvent,
>)
    requires
        forwards@.len() == chain@.len(),
    ensures
        trace@ == spec_trace(chain@, forwards@, 0, handler),
{
    run_chain_from(chain, forwards, 0, handler)
}

fn run_chain_from(
    chain: &Vec<Middleware>,
    forwards: &Vec<bool>,
    i: usize,
    handler: Handler,
) -> (trace: Vec<ChainEvent>)
    requires
        forwards@.len() == chain@.len(),
        i <= chain@.len(),
    ensures
        trace@ == spec_trace(chain@, forwards@, i as int, handler),
    decreases chain@.len() - i,
{
    let mut trace: Vec<ChainEvent> = Vec::new();
    if i >= chain.len() {
        trace.push(ChainEvent::Handle(handler));
        proof {
            assert(trace@ =~= seq![ChainEvent::Handle(handler)]);
        }
        trace
    } else if forwards[i] {
        trace.push(ChainEvent::Enter(chain[i]));
        let mut inner = run_chain_from(chain, forwards, i + 1, handler);
        trace.append(&mut inner);
        trace.push(ChainEvent::Leave(chain[i]));
        proof {
            assert(trace@ =~= seq![ChainEvent::Enter(chain@[i as int])] + spec_trace(
                chain@,
                forwards@,
                i as int + 1,
                handler,
            ) + seq![ChainEvent::Leave(chain@[i as int])]);
        }
        trace
    } else {
        trace.push(ChainEvent::Enter(chain[i]));
        trace.push(ChainEvent::Leave(chain[i]));
        proof {
            assert(trace@ =~= seq![
                ChainEvent::Enter(chain@[i as int]),
                ChainEvent::Leave(chain@[i as int]),
            ]);
        }
        trace
    }
}

} // verus!
