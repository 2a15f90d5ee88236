//! A self-play reinforcement-learning engine for Ultimate Tic-Tac-Toe.
//!
//! This crate holds the verified core: the game model (`game`) — legality
//! rules, win and draw detection, and the move/undo discipline the search
//! relies on — and the reusable buffer pool (`pool`) that keeps the hot
//! recursive search path free of fresh allocations.
#![verifier::loop_isolation(false)]

pub mod game;
pub mod pool;
