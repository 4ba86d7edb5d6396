//! The extension point for write-time policies.
//!
//! The engine stores opaque keys and never asks to whom a write belongs. A policy is
//! consulted around every user write: before anything is persisted it may refuse the
//! write, and after the write it may record what it needs. Both hooks may read and
//! write the system keyspace of the engine, and leave user data alone.

use vstd::prelude::*;
use crate::engine::Engine;
use crate::errors::{EngineError, EngineResult};
use crate::keys::KS_USER;
use crate::records::Version;

verus! {

/// The version belongs to the user keyspace.
pub open spec fn is_user(v: Version) -> bool {
    v.0.user_key.len() > 0 && v.0.user_key[0] == KS_USER
}

/// The versions of the user keyspace.
pub open spec fn user_part(s: Set<Version>) -> Set<Version> {
    s.filter(|v: Version| is_user(v))
}

impl Engine {
    /// The engine's user data is that of `before`, and sequence numbers did not go
    /// back.
    pub open spec fn keeps_user_data(&self, before: &Engine) -> bool {
        user_part(self.store()) == user_part(before.store()) && self.seq@ >= before.seq@
    }
}

/// What is known of a write when a policy is asked.
pub struct WriteFacts {
    pub key: Seq<u8>,
    /// The length of the new value, zero for a deletion.
    pub value_len: usize,
    /// The length of the value that the key holds, where the policy wants to know it
    /// and there is one.
    pub existing_value_len: Option<usize>,
    pub is_delete: bool,
}

/// A hook around user writes.
pub trait WritePolicy {
    /// The policy wants to know the length of the value that a key holds.
    spec fn looks_up(&self) -> bool;

    /// The policy allows the write.
    spec fn allows(&self, engine: Engine, write: WriteFacts) -> bool;

    /// The error is one that the policy refuses the write with.
    spec fn refuses_with(&self, engine: Engine, write: WriteFacts, e: EngineError) -> bool;

    /// What asking about the write may make of the engine.
    spec fn asked(&self, before: Engine, write: WriteFacts, after: Engine) -> bool;

    /// What telling of the write may make of the engine.
    spec fn told(&self, before: Engine, write: WriteFacts, after: Engine) -> bool;

    /// Whether the engine looks up the value that the key holds before each write.
    fn needs_existing_len(&self) -> (r: bool)
        ensures
            r == self.looks_up(),
    ;

    /// Called before a user write is persisted. An error refuses it.
    fn pre_write(
        &self,
        engine: &mut Engine,
        key: &[u8],
        value_len: usize,
        existing_value_len: Option<usize>,
        is_delete: bool,
    ) -> (r: EngineResult<()>)
        requires
            old(engine).wf(),
        ensures
            final(engine).wf(),
            final(engine).keeps_user_data(old(engine)),
            r is Ok <==> self.allows(
                *old(engine),
                WriteFacts { key: key@, value_len, existing_value_len, is_delete },
            ),
            r matches Err(e) ==> self.refuses_with(
                *old(engine),
                WriteFacts { key: key@, value_len, existing_value_len, is_delete },
                e,
            ),
            self.asked(
                *old(engine),
                WriteFacts { key: key@, value_len, existing_value_len, is_delete },
                *final(engine),
            ),
    ;

    /// Called after a user write, to record what it used or freed.
    fn post_write(
        &self,
        engine: &mut Engine,
        key: &[u8],
        value_len: usize,
        existing_value_len: Option<usize>,
        is_delete: bool,
    )
        requires
            old(engine).wf(),
        ensures
            final(engine).wf(),
            final(engine).keeps_user_data(old(engine)),
            self.told(
                *old(engine),
                WriteFacts { key: key@, value_len, existing_value_len, is_delete },
                *final(engine),
            ),
    ;
}

/// The policy that allows every write and records nothing.
#[derive(Debug, Clone, Copy)]
pub struct NoopWritePolicy;

impl WritePolicy for NoopWritePolicy {
    open spec fn looks_up(&self) -> bool {
        false
    }

    open spec fn allows(&self, engine: Engine, write: WriteFacts) -> bool {
        true
    }

    open spec fn refuses_with(&self, engine: Engine, write: WriteFacts, e: EngineError) -> bool {
        false
    }

    open spec fn asked(&self, before: Engine, write: WriteFacts, after: Engine) -> bool {
        after == before
    }

    open spec fn told(&self, before: Engine, write: WriteFacts, after: Engine) -> bool {
        after == before
    }

    fn needs_existing_len(&self) -> (r: bool) {
        false
    }

    fn pre_write(
        &self,
        engine: &mut Engine,
        key: &[u8],
        value_len: usize,
        existing_value_len: Option<usize>,
        is_delete: bool,
    ) -> (r: EngineResult<()>)
    {
        Ok(())
    }

    fn post_write(
        &self,
        engine: &mut Engine,
        key: &[u8],
        value_len: usize,
        existing_value_len: Option<usize>,
        is_delete: bool,
    )
    {
    }
}

} // verus!
