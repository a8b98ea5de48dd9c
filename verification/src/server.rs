//! The entry point of the engine.

use crate::eventloop::{Config, EventLoop, EventLoopView};
use vstd::prelude::*;

verus! {

/// Starts an engine that is governed by `config`: it holds no message yet
/// and its supervisor is running.
pub fn start(config: Config) -> (engine: EventLoop)
    ensures
        engine.wf(),
        engine@ == EventLoopView::fresh(config),
{
    EventLoop::new(config)
}

} // verus!
