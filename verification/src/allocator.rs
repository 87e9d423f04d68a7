use crate::error::{spec_env_refusal, AllocError};
use crate::internal::allocator::{spec_alloc, spec_free, SampleAlloc};
use crate::internal::layout::arena::{spec_init_outcome, Arena, Config as ArenaConfig};
use crate::internal::layout::segment::SEGMENT_SIZE;
use crate::sys::ptr::AnyNonNullPtr;
use crate::sys::{SysCall, SysMemEnv, TracedEnv};
use vstd::prelude::*;

verus! {

/// What hands blocks out and takes them back.
pub trait Allocator {
    /// What holds of an allocator between two calls.
    spec fn wf(&self) -> bool;

    /// Hands out a block of at least `size` bytes.
    fn alloc_block(&mut self, size: usize) -> (allocated: Result<AnyNonNullPtr, AllocError>)
        requires
            old(self).wf(),
        ensures
            final(self).wf(),
    ;

    /// Takes the block at `p` back.
    fn free(&mut self, p: AnyNonNullPtr) -> (freed: Result<(), AllocError>)
        requires
            old(self).wf(),
        ensures
            final(self).wf(),
    ;
}

/// What an allocator is made with.
pub struct Config {
    /// The bytes that are committed when the allocator is made.
    pub min_heap_size: usize,
    /// The most bytes that the allocator ever has committed.
    pub max_heap_size: usize,
}

/// The most emptied segments that stay committed under a configuration:
/// those that `min_heap_size` has room for, and twelve more.
pub open spec fn spec_keep_segments_count(config: Config) -> int {
    config.min_heap_size / SEGMENT_SIZE + 12
}

/// The configuration of the arena of an allocator.
pub open spec fn spec_arena_config(config: Config) -> ArenaConfig {
    ArenaConfig {
        min_heap_size: config.min_heap_size,
        max_heap_size: config.max_heap_size,
        keep_segments_count: spec_keep_segments_count(config) as usize,
    }
}

/// Makes an allocator that works on `env`.
pub fn init<Env: SysMemEnv>(env: Env, config: Config) -> (created: Result<
    SampleAllocWithEnv<Env>,
    InitFailure<Env>,
>)
    ensures
        spec_created(config, created),
{
    SampleAllocWithEnv::<Env>::init(env, config)
}

/// An allocator together with the environment that it works on.
pub struct SampleAllocWithEnv<Env: SysMemEnv> {
    env: TracedEnv<Env>,
    internal: SampleAlloc,
}

/// Why no allocator was made, and the environment as the attempt left it,
/// with the record of what it was asked.
pub struct InitFailure<Env: SysMemEnv> {
    pub error: AllocError,
    pub env: TracedEnv<Env>,
}

/// What `init` answers with, by what the environment answered: an
/// allocator with a new arena, or the reason why the arena was not made.
/// Where the environment refused a request, the refusal is handed on, and
/// else it refused none.
pub open spec fn spec_created<Env: SysMemEnv>(
    config: Config,
    created: Result<SampleAllocWithEnv<Env>, InitFailure<Env>>,
) -> bool {
    match created {
        Ok(allocator) => {
            &&& allocator.wf()
            &&& allocator.refusals() == 0
            &&& spec_init_outcome(
                spec_arena_config(config),
                Ok(allocator.internal().arena),
                Some(allocator.internal().arena.header.segment_space.page_size),
                allocator.last_range(),
                Seq::empty(),
                allocator.calls(),
            )
        },
        Err(failure) => {
            &&& spec_init_outcome(
                spec_arena_config(config),
                Err::<Arena, AllocError>(failure.error),
                failure.env.last_pagesize(),
                failure.env.last_range(),
                Seq::empty(),
                failure.env.calls(),
            )
            &&& failure.env.last_failed() == spec_env_refusal::<Arena>(Err(failure.error))
            &&& failure.env.refusals() == (if failure.error is EnvFailure {
                1nat
            } else {
                0nat
            })
        },
    }
}

impl<Env: SysMemEnv> SampleAllocWithEnv<Env> {
    /// The allocator without its environment.
    pub closed spec fn internal(&self) -> SampleAlloc {
        self.internal
    }

    /// What the environment was asked so far.
    pub closed spec fn calls(&self) -> Seq<SysCall> {
        self.env.calls()
    }

    /// The cause with which the environment refused the last request, or
    /// none where it did not refuse it.
    pub closed spec fn last_failed(&self) -> Option<crate::sys::EnvError> {
        self.env.last_failed()
    }

    /// The number of requests so far that the environment refused.
    pub closed spec fn refusals(&self) -> nat {
        self.env.refusals()
    }

    /// The range that the environment answered the last request for a
    /// reservation or a mapping with.
    pub closed spec fn last_range(&self) -> Option<AnyNonNullPtr> {
        self.env.last_range()
    }

    fn init(env: Env, config: Config) -> (created: Result<Self, InitFailure<Env>>)
        ensures
            spec_created(config, created),
    {
        let mut env = TracedEnv::new(env);
        let internal = match SampleAlloc::init(
            &mut env,
            ArenaConfig {
                min_heap_size: config.min_heap_size,
                max_heap_size: config.max_heap_size,
                keep_segments_count: (config.min_heap_size / SEGMENT_SIZE) + 12,
            },
        ) {
            Ok(internal) => internal,
            Err(error) => {
                return Err(InitFailure { error, env });
            },
        };

        Ok(SampleAllocWithEnv { env, internal })
    }

    /// The allocator without its environment, to look at.
    pub fn as_internal(&self) -> (internal: &SampleAlloc)
        ensures
            *internal == self.internal(),
    {
        &self.internal
    }

    /// The environment that the allocator works on.
    pub closed spec fn spec_env(&self) -> Env {
        self.env.inner()
    }

    /// The environment, to look at.
    pub fn env(&self) -> (env: &Env)
        ensures
            *env == self.spec_env(),
    {
        self.env.env()
    }
}

impl<Env: SysMemEnv> Allocator for SampleAllocWithEnv<Env> {
    open spec fn wf(&self) -> bool {
        self.internal().wf()
    }

    fn alloc_block(&mut self, size: usize) -> (allocated: Result<AnyNonNullPtr, AllocError>)
        ensures
            spec_alloc(
                old(self).internal().arena.header,
                size,
                final(self).internal().arena.header,
                allocated,
                old(self).calls(),
                final(self).calls(),
            ),
            final(self).refusals() == old(self).refusals() + (if allocated matches Err(
                AllocError::EnvFailure(_),
            ) {
                1nat
            } else {
                0nat
            }),
            allocated matches Err(AllocError::EnvFailure(e)) ==> final(self).last_failed()
                == Some(e),
    {
        self.internal.alloc_with_env(&mut self.env, size)
    }

    fn free(&mut self, p: AnyNonNullPtr) -> (freed: Result<(), AllocError>)
        ensures
            spec_free(
                old(self).internal().arena.header,
                p,
                final(self).internal().arena.header,
                freed,
                old(self).calls(),
                final(self).calls(),
            ),
            final(self).refusals() == old(self).refusals() + (if freed matches Err(
                AllocError::EnvFailure(_),
            ) {
                1nat
            } else {
                0nat
            }),
            freed matches Err(AllocError::EnvFailure(e)) ==> final(self).last_failed() == Some(e),
    {
        self.internal.free_with_env(&mut self.env, p)
    }
}

} // verus!
