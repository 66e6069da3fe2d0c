#![verifier::loop_isolation(false)]
pub mod bignat;
pub mod cache;
pub mod codec;
pub mod factorial;
pub mod pipeline;
