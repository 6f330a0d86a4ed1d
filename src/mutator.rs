use vstd::prelude::*;
use crate::plan::MyGC;

verus! {

/// What a mutator asks for when it allocates.
#[derive(Clone, Copy, PartialEq, Eq, Structural, Debug)]
pub enum AllocationSemantics {
    Default,
    Immortal,
    Los,
    Code,
    ReadOnly,
}

/// Which of a mutator's allocators serves a request.
#[derive(Clone, Copy, PartialEq, Eq, Structural, Debug)]
pub enum AllocatorSelector {
    BumpPointer(u8),
    LargeObject(u8),
}

/// The allocator each kind of allocation uses: every kind goes to the first bump pointer.
pub fn allocator_mapping(semantics: AllocationSemantics) -> (r: AllocatorSelector)
    ensures
        r == AllocatorSelector::BumpPointer(0),
{
    AllocatorSelector::BumpPointer(0)
}

/// What a mutator runs before and after a collection.
#[derive(Clone, Copy, PartialEq, Eq, Structural, Debug)]
pub enum MutatorHook {
    /// `nogc_mutator_noop`: nothing to do.
    NoOp,
}

/// The write barrier a mutator runs.
#[derive(Clone, Copy, PartialEq, Eq, Structural, Debug)]
pub enum Barrier {
    NoBarrier,
}

/// The allocator of each kind of allocation, in the order `Default`, `Immortal`, `Code`,
/// `ReadOnly`, `Los`.
pub open spec fn nogc_allocator_table() -> Seq<(AllocationSemantics, AllocatorSelector)> {
    seq![
        (AllocationSemantics::Default, AllocatorSelector::BumpPointer(0)),
        (AllocationSemantics::Immortal, AllocatorSelector::BumpPointer(0)),
        (AllocationSemantics::Code, AllocatorSelector::BumpPointer(0)),
        (AllocationSemantics::ReadOnly, AllocatorSelector::BumpPointer(0)),
        (AllocationSemantics::Los, AllocatorSelector::BumpPointer(0)),
    ]
}

/// Per-thread allocation state: the thread, the plan it allocates for, which allocator
/// serves each kind of allocation, which space each allocator takes its memory from, the
/// hooks run around a collection, and its barrier.
pub struct Mutator<'a> {
    pub mutator_tls: u64,
    pub plan: &'a MyGC,
    pub allocator_mapping: Vec<(AllocationSemantics, AllocatorSelector)>,
    pub space_mapping: Vec<(AllocatorSelector, &'static str)>,
    pub prepare_func: MutatorHook,
    pub release_func: MutatorHook,
    pub barrier: Barrier,
}

/// What a mutator of this plan does to prepare for, and after, a collection: nothing.
pub fn nogc_mutator_noop(mutator: &mut Mutator, tls: u64)
    ensures
        *final(mutator) == *old(mutator),
{
}

/// A mutator whose allocations all go to a bump pointer into the plan's to-space, with
/// no-op collection hooks and no barrier.
pub fn create_nogc_mutator<'a>(mutator_tls: u64, plan: &'a MyGC) -> (r: Mutator<'a>)
    ensures
        r.mutator_tls == mutator_tls,
        r.plan == plan,
        r.allocator_mapping@ == nogc_allocator_table(),
        r.space_mapping@ == seq![(AllocatorSelector::BumpPointer(0), plan.spec_tospace().spec_name())],
        r.prepare_func == MutatorHook::NoOp,
        r.release_func == MutatorHook::NoOp,
        r.barrier == Barrier::NoBarrier,
{
    let table = vec![
        (AllocationSemantics::Default, allocator_mapping(AllocationSemantics::Default)),
        (AllocationSemantics::Immortal, allocator_mapping(AllocationSemantics::Immortal)),
        (AllocationSemantics::Code, allocator_mapping(AllocationSemantics::Code)),
        (AllocationSemantics::ReadOnly, allocator_mapping(AllocationSemantics::ReadOnly)),
        (AllocationSemantics::Los, allocator_mapping(AllocationSemantics::Los)),
    ];
    assert(table@ =~= nogc_allocator_table());
    let space_mapping = vec![(allocator_mapping(AllocationSemantics::Default), plan.tospace().name())];
    Mutator {
        mutator_tls,
        plan,
        allocator_mapping: table,
        space_mapping,
        prepare_func: MutatorHook::NoOp,
        release_func: MutatorHook::NoOp,
        barrier: Barrier::NoBarrier,
    }
}

} // verus!
