pub mod linux;
pub mod ptr;

use crate::sys::linux::{CommitStrategy, HardDecommitStrategy, SoftDecommitStrategy};
use crate::sys::ptr::AnyNonNullPtr;
use vstd::prelude::*;

verus! {

/// The cause that the operating system gave for a failed request.
#[derive(Debug, Clone, Copy, PartialEq, Eq, Structural)]
pub struct EnvError {
    pub code: i32,
}

/// One request to the virtual-memory environment.
#[derive(Debug, Clone, Copy, PartialEq, Eq, Structural)]
pub enum SysCall {
    GetPagesize,
    Reserve { len: usize },
    Alloc { len: usize },
    Commit { addr: AnyNonNullPtr, len: usize },
    ForceCommit { addr: AnyNonNullPtr, len: usize },
    SoftDecommit { addr: AnyNonNullPtr, len: usize },
    HardDecommit { addr: AnyNonNullPtr, len: usize },
    Release { addr: AnyNonNullPtr, len: usize },
}

/// Why `reserve_aligned_space` did not hand out a range.
#[derive(Debug, Clone, Copy, PartialEq, Eq, Structural)]
pub enum ReserveError {
    /// The environment refused a request.
    Env(EnvError),
    /// The environment answered with a null address or with a range that
    /// runs past the end of the address space.
    OutOfRange,
}

/// What `reserve_aligned_space` makes of the range that the environment
/// answered with: the least multiple of the alignment within the range, or
/// a refusal where the range is null or runs past the end of the address
/// space.
pub open spec fn spec_align_reservation(
    attempt: AnyNonNullPtr,
    space_size: usize,
    alignment_size: usize,
) -> Result<AnyNonNullPtr, ReserveError> {
    if attempt.raw == 0 || attempt.raw + space_size + alignment_size > usize::MAX {
        Err(ReserveError::OutOfRange)
    } else {
        Ok(
            AnyNonNullPtr {
                raw: crate::util::bits::spec_min_aligned_size(
                    attempt.raw as int,
                    alignment_size as int,
                ) as usize,
            },
        )
    }
}

/// The aligned base within a range of `space_size + alignment_size` bytes
/// at `attempt`.
pub fn align_reservation(attempt: AnyNonNullPtr, space_size: usize, alignment_size: usize) -> (r:
    Result<AnyNonNullPtr, ReserveError>)
    requires
        alignment_size > 0,
        space_size % alignment_size == 0,
        space_size + alignment_size <= usize::MAX,
    ensures
        r == spec_align_reservation(attempt, space_size, alignment_size),
        r matches Ok(p) ==> {
            &&& p.raw != 0
            &&& p.raw % alignment_size == 0
            &&& attempt.raw <= p.raw < attempt.raw + alignment_size
            &&& p.raw + space_size <= usize::MAX
            &&& p.raw - attempt.raw == (if attempt.raw % alignment_size == 0 {
                0
            } else {
                alignment_size - attempt.raw % alignment_size
            })
        },
{
    let attempt_ptr_raw_addr = attempt.as_addr();
    if attempt_ptr_raw_addr == 0 || attempt_ptr_raw_addr > usize::MAX - (space_size
        + alignment_size) {
        return Err(ReserveError::OutOfRange);
    }
    proof {
        crate::util::bits::lemma_min_aligned_size(
            attempt_ptr_raw_addr as int,
            alignment_size as int,
        );
        let steps = attempt_ptr_raw_addr as int / alignment_size as int;
        vstd::arithmetic::div_mod::lemma_fundamental_div_mod(
            attempt_ptr_raw_addr as int,
            alignment_size as int,
        );
        assert((steps + 1) * alignment_size == alignment_size * steps + alignment_size)
            by (nonlinear_arith);
    }
    Ok(AnyNonNullPtr { raw: crate::util::bits::min_aligned_size(attempt_ptr_raw_addr,
        alignment_size) })
}

/// The requests that `reserve_aligned_space` makes when every one of them
/// succeeds and the first is answered with `attempt`.
pub open spec fn aligned_reservation_calls(
    attempt: AnyNonNullPtr,
    space_size: usize,
    alignment_size: usize,
) -> Seq<SysCall> {
    let reserve = SysCall::Reserve { len: (space_size + alignment_size) as usize };
    let post = (attempt.raw % alignment_size) as usize;
    if post == 0 {
        seq![
            reserve,
            SysCall::Release {
                addr: AnyNonNullPtr { raw: (attempt.raw + space_size) as usize },
                len: alignment_size,
            },
        ]
    } else {
        let pre = (alignment_size - post) as usize;
        seq![
            reserve,
            SysCall::Release { addr: attempt, len: pre },
            SysCall::Release {
                addr: AnyNonNullPtr { raw: (attempt.raw + pre + space_size) as usize },
                len: post,
            },
        ]
    }
}

/// Whether `after` is `before` with one request or more added, the first of
/// them being `first`.
pub open spec fn calls_begin_with(
    before: Seq<SysCall>,
    after: Seq<SysCall>,
    first: SysCall,
) -> bool {
    &&& before.is_prefix_of(after)
    &&& before.len() < after.len()
    &&& after[before.len() as int] == first
}

/// Requests that are added to a record leave what it held in place.
pub proof fn lemma_calls_extend(before: Seq<SysCall>, middle: Seq<SysCall>, after: Seq<SysCall>)
    requires
        before.is_prefix_of(middle),
        middle.is_prefix_of(after),
    ensures
        before.is_prefix_of(after),
        forall|at: int| 0 <= at < middle.len() ==> after[at] == middle[at],
{
    assert forall|at: int| 0 <= at < middle.len() implies after[at] == middle[at] by {
        assert(middle[at] == after.subrange(0, middle.len() as int)[at]);
    }
    assert forall|at: int| 0 <= at < before.len() implies after[at] == before[at] by {
        assert(before[at] == middle.subrange(0, before.len() as int)[at]);
    }
    assert(before =~= after.subrange(0, before.len() as int));
}

/// A record is the beginning of itself with more requests added.
pub proof fn lemma_calls_added(before: Seq<SysCall>, added: Seq<SysCall>)
    ensures
        before.is_prefix_of(before + added),
        forall|call: SysCall| before.is_prefix_of(#[trigger] before.push(call)),
        before.is_prefix_of(before),
{
    assert(before =~= (before + added).subrange(0, before.len() as int));
    assert forall|call: SysCall| before.is_prefix_of(#[trigger] before.push(call)) by {
        assert(before =~= before.push(call).subrange(0, before.len() as int));
    }
    assert(before =~= before.subrange(0, before.len() as int));
}

/// The virtual-memory environment that an arena works on.
///
/// No method promises success, and none says anything about the addresses
/// it answers with: what an arena builds on, it tests.
pub trait SysMemEnv {
    /// The size of a page, in bytes.
    fn get_pagesize(&mut self) -> Result<usize, EnvError>;

    /// Reserves `len` bytes of address space that cannot be accessed yet.
    fn reserve(&mut self, len: usize) -> Result<AnyNonNullPtr, EnvError>;

    /// Maps `len` bytes that can be read and written, apart from every
    /// range handed out before.
    fn alloc_space(&mut self, len: usize) -> Result<AnyNonNullPtr, EnvError>;

    /// Makes `len` bytes at `addr`, within a reserved range, readable and
    /// writable.
    fn commit(&mut self, addr: AnyNonNullPtr, len: usize) -> Result<(), EnvError>;

    /// Commits like `commit`, and has the pages zeroed whatever they held.
    fn force_commit(&mut self, addr: AnyNonNullPtr, len: usize) -> Result<(), EnvError>;

    /// Says that what `len` bytes at `addr` hold may be discarded; the
    /// range stays mapped.
    fn soft_decommit(&mut self, addr: AnyNonNullPtr, len: usize) -> Result<(), EnvError>;

    /// Takes access to `len` bytes at `addr` away; the range stays
    /// reserved.
    fn hard_decommit(&mut self, addr: AnyNonNullPtr, len: usize) -> Result<(), EnvError>;

    /// Unmaps `len` bytes at `addr`.
    fn release(&mut self, addr: AnyNonNullPtr, len: usize) -> Result<(), EnvError>;
}

/// An environment together with the record of what was asked of it.
///
/// The environment is reached through the methods of this type only, and
/// each of them adds the request it passes on to the record.
pub struct TracedEnv<Env> {
    env: Env,
    trace: Ghost<Seq<SysCall>>,
    answered: Ghost<Seq<Option<EnvError>>>,
    failure: Ghost<Option<EnvError>>,
    range: Ghost<Option<AnyNonNullPtr>>,
    pagesize: Ghost<Option<usize>>,
}

/// The number of refusals among the answers.
pub open spec fn spec_count_refused(answers: Seq<Option<EnvError>>) -> nat
    decreases answers.len(),
{
    if answers.len() == 0 {
        0
    } else {
        spec_count_refused(answers.drop_last()) + (if answers.last() is Some {
            1nat
        } else {
            0nat
        })
    }
}

/// One more answer adds to the refusals exactly where it is one.
pub proof fn lemma_count_refused_push(answers: Seq<Option<EnvError>>, answer: Option<EnvError>)
    ensures
        spec_count_refused(answers.push(answer)) == spec_count_refused(answers) + (if answer
            is Some {
            1nat
        } else {
            0nat
        }),
{
    assert(answers.push(answer).drop_last() =~= answers);
}

/// What a call that hands a refusal of the environment on did to the
/// record: where it answers with no refusal, the environment refused no
/// request of the call; where it answers with one, the environment refused
/// the last request of the call, with that cause, and no other.
pub open spec fn spec_refusal<Env: SysMemEnv>(
    before: TracedEnv<Env>,
    after: TracedEnv<Env>,
    refusal: Option<EnvError>,
) -> bool {
    &&& before.calls().len() <= after.calls().len()
    &&& match refusal {
        Some(e) => {
            &&& after.refusals() == before.refusals() + 1
            &&& after.last_failed() == Some(e)
            &&& before.calls().len() < after.calls().len()
        },
        None => {
            &&& after.refusals() == before.refusals()
            &&& after.last_failed() == (if after.calls().len() == before.calls().len() {
                before.last_failed()
            } else {
                None
            })
        },
    }
}

/// The cause of a failed answer, or none for an answer that is no failure.
pub open spec fn spec_failure<T>(answer: Result<T, EnvError>) -> Option<EnvError> {
    match answer {
        Ok(_) => None,
        Err(e) => Some(e),
    }
}

impl<Env: SysMemEnv> TracedEnv<Env> {
    /// The requests made so far, the first one first.
    pub closed spec fn calls(&self) -> Seq<SysCall> {
        self.trace@
    }

    /// The answer to each request made so far, the first one first: the
    /// cause where the environment refused the request, and none else.
    pub closed spec fn answers(&self) -> Seq<Option<EnvError>> {
        self.answered@
    }

    /// The number of requests so far that the environment refused.
    pub open spec fn refusals(&self) -> nat {
        spec_count_refused(self.answers())
    }

    /// The cause with which the environment refused the last request, or
    /// none where it did not refuse it or no request was made yet.
    pub closed spec fn last_failed(&self) -> Option<EnvError> {
        self.failure@
    }

    /// The range that the environment answered the last request for a
    /// reservation or a mapping with, or none where it refused it or no such
    /// request was made yet.
    pub closed spec fn last_range(&self) -> Option<AnyNonNullPtr> {
        self.range@
    }

    /// The page size that the environment answered the last request for it
    /// with, or none where it refused it or no such request was made yet.
    pub closed spec fn last_pagesize(&self) -> Option<usize> {
        self.pagesize@
    }

    /// The environment that the requests are passed on to.
    pub closed spec fn inner(&self) -> Env {
        self.env
    }

    pub fn new(env: Env) -> (traced: Self)
        ensures
            traced.calls() == Seq::<SysCall>::empty(),
            traced.answers() == Seq::<Option<EnvError>>::empty(),
            traced.refusals() == 0,
            traced.last_failed() is None,
            traced.inner() == env,
    {
        Self {
            env,
            trace: Ghost(Seq::empty()),
            answered: Ghost(Seq::empty()),
            failure: Ghost(None),
            range: Ghost(None),
            pagesize: Ghost(None),
        }
    }

    /// The environment, to look at.
    pub fn env(&self) -> (env: &Env)
        ensures
            *env == self.inner(),
    {
        &self.env
    }

    pub fn into_inner(self) -> (env: Env)
        ensures
            env == self.inner(),
    {
        self.env
    }

    pub fn get_pagesize(&mut self) -> (r: Result<usize, EnvError>)
        ensures
            final(self).calls() == old(self).calls().push(SysCall::GetPagesize),
            final(self).last_failed() == spec_failure(r),
            final(self).answers() == old(self).answers().push(spec_failure(r)),
            spec_refusal(*old(self), *final(self), spec_failure(r)),
            final(self).last_range() == old(self).last_range(),
            final(self).last_pagesize() == (match r {
                Ok(page_size) => Some(page_size),
                Err(_) => None,
            }),
    {
        self.trace = Ghost(self.trace@.push(SysCall::GetPagesize));
        let r = self.env.get_pagesize();
        self.failure = Ghost(spec_failure(r));
        proof {
            lemma_count_refused_push(self.answered@, spec_failure(r));
        }
        self.answered = Ghost(self.answered@.push(spec_failure(r)));
        self.pagesize = Ghost(
            match r {
                Ok(page_size) => Some(page_size),
                Err(_) => None,
            },
        );
        r
    }

    pub fn reserve(&mut self, len: usize) -> (r: Result<AnyNonNullPtr, EnvError>)
        ensures
            final(self).calls() == old(self).calls().push(SysCall::Reserve { len }),
            final(self).last_failed() == spec_failure(r),
            final(self).answers() == old(self).answers().push(spec_failure(r)),
            spec_refusal(*old(self), *final(self), spec_failure(r)),
            final(self).last_pagesize() == old(self).last_pagesize(),
            final(self).last_range() == (match r {
                Ok(range) => Some(range),
                Err(_) => None,
            }),
    {
        self.trace = Ghost(self.trace@.push(SysCall::Reserve { len }));
        let r = self.env.reserve(len);
        self.failure = Ghost(spec_failure(r));
        proof {
            lemma_count_refused_push(self.answered@, spec_failure(r));
        }
        self.answered = Ghost(self.answered@.push(spec_failure(r)));
        self.range = Ghost(
            match r {
                Ok(range) => Some(range),
                Err(_) => None,
            },
        );
        r
    }

    pub fn alloc_space(&mut self, len: usize) -> (r: Result<AnyNonNullPtr, EnvError>)
        ensures
            final(self).calls() == old(self).calls().push(SysCall::Alloc { len }),
            final(self).last_failed() == spec_failure(r),
            final(self).answers() == old(self).answers().push(spec_failure(r)),
            spec_refusal(*old(self), *final(self), spec_failure(r)),
            final(self).last_pagesize() == old(self).last_pagesize(),
            final(self).last_range() == (match r {
                Ok(range) => Some(range),
                Err(_) => None,
            }),
    {
        self.trace = Ghost(self.trace@.push(SysCall::Alloc { len }));
        let r = self.env.alloc_space(len);
        self.failure = Ghost(spec_failure(r));
        proof {
            lemma_count_refused_push(self.answered@, spec_failure(r));
        }
        self.answered = Ghost(self.answered@.push(spec_failure(r)));
        self.range = Ghost(
            match r {
                Ok(range) => Some(range),
                Err(_) => None,
            },
        );
        r
    }

    pub fn commit(&mut self, addr: AnyNonNullPtr, len: usize) -> (r: Result<(), EnvError>)
        ensures
            final(self).calls() == old(self).calls().push(SysCall::Commit { addr, len }),
            final(self).last_failed() == spec_failure(r),
            final(self).answers() == old(self).answers().push(spec_failure(r)),
            spec_refusal(*old(self), *final(self), spec_failure(r)),
            final(self).last_pagesize() == old(self).last_pagesize(),
            final(self).last_range() == old(self).last_range(),
    {
        self.trace = Ghost(self.trace@.push(SysCall::Commit { addr, len }));
        let r = self.env.commit(addr, len);
        self.failure = Ghost(spec_failure(r));
        proof {
            lemma_count_refused_push(self.answered@, spec_failure(r));
        }
        self.answered = Ghost(self.answered@.push(spec_failure(r)));
        r
    }

    pub fn force_commit(&mut self, addr: AnyNonNullPtr, len: usize) -> (r: Result<(), EnvError>)
        ensures
            final(self).calls() == old(self).calls().push(SysCall::ForceCommit { addr, len }),
            final(self).last_failed() == spec_failure(r),
            final(self).answers() == old(self).answers().push(spec_failure(r)),
            spec_refusal(*old(self), *final(self), spec_failure(r)),
            final(self).last_pagesize() == old(self).last_pagesize(),
            final(self).last_range() == old(self).last_range(),
    {
        self.trace = Ghost(self.trace@.push(SysCall::ForceCommit { addr, len }));
        let r = self.env.force_commit(addr, len);
        self.failure = Ghost(spec_failure(r));
        proof {
            lemma_count_refused_push(self.answered@, spec_failure(r));
        }
        self.answered = Ghost(self.answered@.push(spec_failure(r)));
        r
    }

    pub fn soft_decommit(&mut self, addr: AnyNonNullPtr, len: usize) -> (r: Result<(), EnvError>)
        ensures
            final(self).calls() == old(self).calls().push(SysCall::SoftDecommit { addr, len }),
            final(self).last_failed() == spec_failure(r),
            final(self).answers() == old(self).answers().push(spec_failure(r)),
            spec_refusal(*old(self), *final(self), spec_failure(r)),
            final(self).last_pagesize() == old(self).last_pagesize(),
            final(self).last_range() == old(self).last_range(),
    {
        self.trace = Ghost(self.trace@.push(SysCall::SoftDecommit { addr, len }));
        let r = self.env.soft_decommit(addr, len);
        self.failure = Ghost(spec_failure(r));
        proof {
            lemma_count_refused_push(self.answered@, spec_failure(r));
        }
        self.answered = Ghost(self.answered@.push(spec_failure(r)));
        r
    }

    pub fn hard_decommit(&mut self, addr: AnyNonNullPtr, len: usize) -> (r: Result<(), EnvError>)
        ensures
            final(self).calls() == old(self).calls().push(SysCall::HardDecommit { addr, len }),
            final(self).last_failed() == spec_failure(r),
            final(self).answers() == old(self).answers().push(spec_failure(r)),
            spec_refusal(*old(self), *final(self), spec_failure(r)),
            final(self).last_pagesize() == old(self).last_pagesize(),
            final(self).last_range() == old(self).last_range(),
    {
        self.trace = Ghost(self.trace@.push(SysCall::HardDecommit { addr, len }));
        let r = self.env.hard_decommit(addr, len);
        self.failure = Ghost(spec_failure(r));
        proof {
            lemma_count_refused_push(self.answered@, spec_failure(r));
        }
        self.answered = Ghost(self.answered@.push(spec_failure(r)));
        r
    }

    pub fn release(&mut self, addr: AnyNonNullPtr, len: usize) -> (r: Result<(), EnvError>)
        ensures
            final(self).calls() == old(self).calls().push(SysCall::Release { addr, len }),
            final(self).last_failed() == spec_failure(r),
            final(self).answers() == old(self).answers().push(spec_failure(r)),
            spec_refusal(*old(self), *final(self), spec_failure(r)),
            final(self).last_pagesize() == old(self).last_pagesize(),
            final(self).last_range() == old(self).last_range(),
    {
        self.trace = Ghost(self.trace@.push(SysCall::Release { addr, len }));
        let r = self.env.release(addr, len);
        self.failure = Ghost(spec_failure(r));
        proof {
            lemma_count_refused_push(self.answered@, spec_failure(r));
        }
        self.answered = Ghost(self.answered@.push(spec_failure(r)));
        r
    }

    /// Reserves `space_size` bytes whose base is a multiple of
    /// `alignment_size`: reserves one alignment step more than asked for and
    /// gives the unaligned head and the tail back.
    pub fn reserve_aligned_space(&mut self, space_size: usize, alignment_size: usize) -> (r:
        Result<AnyNonNullPtr, ReserveError>)
        requires
            alignment_size > 0,
            space_size % alignment_size == 0,
            space_size + alignment_size <= usize::MAX,
        ensures
            old(self).calls().is_prefix_of(final(self).calls()),
            old(self).calls().len() < final(self).calls().len() <= old(self).calls().len() + 3,
            final(self).calls()[old(self).calls().len() as int] == (SysCall::Reserve {
                len: (space_size + alignment_size) as usize,
            }),
            forall|at: int|
                old(self).calls().len() < at < final(self).calls().len() ==> (
                #[trigger] final(self).calls()[at]) is Release,
            final(self).last_failed() == (match r {
                Err(ReserveError::Env(e)) => Some(e),
                _ => None,
            }),
            spec_refusal(
                *old(self),
                *final(self),
                match r {
                    Err(ReserveError::Env(e)) => Some(e),
                    _ => None,
                },
            ),
            final(self).last_pagesize() == old(self).last_pagesize(),
            r == Err::<AnyNonNullPtr, ReserveError>(ReserveError::OutOfRange)
                ==> final(self).calls() == old(self).calls().push(
                SysCall::Reserve { len: (space_size + alignment_size) as usize },
            ),
            !(r matches Err(ReserveError::Env(_))) ==> {
                &&& final(self).last_range() matches Some(attempt)
                &&& r == spec_align_reservation(attempt, space_size, alignment_size)
            },
            r matches Ok(p) ==> {
                &&& p.raw != 0
                &&& p.raw % alignment_size == 0
                &&& p.raw + space_size <= usize::MAX
                &&& final(self).calls() == old(self).calls() + aligned_reservation_calls(
                    final(self).last_range().unwrap(),
                    space_size,
                    alignment_size,
                )
            },
    {
        let ghost calls = self.calls();
        let attempt_ptr = match self.reserve(space_size + alignment_size) {
            Ok(p) => p,
            Err(e) => {
                return Err(ReserveError::Env(e));
            },
        };
        let ptr = match align_reservation(attempt_ptr, space_size, alignment_size) {
            Ok(ptr) => ptr,
            Err(e) => {
                return Err(e);
            },
        };
        let pre_adjust_size = ptr.as_addr() - attempt_ptr.as_addr();

        if pre_adjust_size == 0 {
            match self.release(attempt_ptr.add(space_size), alignment_size) {
                Ok(()) => {},
                Err(e) => {
                    return Err(ReserveError::Env(e));
                },
            }
        } else {
            let post_adjust_size = alignment_size - pre_adjust_size;
            match self.release(attempt_ptr, pre_adjust_size) {
                Ok(()) => {},
                Err(e) => {
                    return Err(ReserveError::Env(e));
                },
            }
            match self.release(ptr.add(space_size), post_adjust_size) {
                Ok(()) => {},
                Err(e) => {
                    return Err(ReserveError::Env(e));
                },
            }
        }
        proof {
            assert(self.calls() =~= calls + aligned_reservation_calls(
                attempt_ptr,
                space_size,
                alignment_size,
            ));
        }
        Ok(ptr)
    }
}

/// The environment that `new_env` makes.
pub type SysMemEnvImpl = SysMemEnvForLinux;

/// The strategies that worked last, which an environment on Linux begins
/// with the next time.
#[derive(Debug, Clone, Copy, PartialEq, Eq, Structural)]
pub struct SysMemEnvForLinux {
    pub prefer_commit_strategy: CommitStrategy,
    pub prefer_soft_decommit_strategy: SoftDecommitStrategy,
    pub prefer_hard_decommit_strategy: HardDecommitStrategy,
}

/// The preferences that an environment on Linux begins with: the most
/// preferred strategy of each kind.
pub fn new_env() -> (env: SysMemEnvImpl)
    ensures
        env == (SysMemEnvForLinux {
            prefer_commit_strategy: CommitStrategy::MprotectRw,
            prefer_soft_decommit_strategy: SoftDecommitStrategy::MadviseFree,
            prefer_hard_decommit_strategy: HardDecommitStrategy::MprotectNone,
        }),
{
    SysMemEnvForLinux {
        prefer_commit_strategy: CommitStrategy::MprotectRw,
        prefer_soft_decommit_strategy: SoftDecommitStrategy::MadviseFree,
        prefer_hard_decommit_strategy: HardDecommitStrategy::MprotectNone,
    }
}

} // verus!
