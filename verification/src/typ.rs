//! Stack effects.
//!
//! Serotonin has a single type (the byte), so a stack effect `b b b b -> b b` is
//! kept as the pair of counts `4 -> 2`.
use vstd::prelude::*;

verus! {

/// The number of values a program pops (`i`) and pushes (`o`).
#[derive(Debug)]
pub struct StackEffect {
    i: u32,
    o: u32,
}

/// The abstract value of a stack effect.
pub struct EffectModel {
    pub i: int,
    pub o: int,
}

impl View for StackEffect {
    type V = EffectModel;

    closed spec fn view(&self) -> EffectModel {
        EffectModel { i: self.i as int, o: self.o as int }
    }
}

/// Running `s1` and then `s2`: the outputs of `s1` feed the inputs of `s2`, what
/// `s2` still needs is popped from below, and what `s2` leaves unused stays.
pub open spec fn compose_model(s1: EffectModel, s2: EffectModel) -> EffectModel {
    if s2.i <= s1.o {
        EffectModel { i: s1.i, o: s1.o - s2.i + s2.o }
    } else {
        EffectModel { i: s1.i + (s2.i - s1.o), o: s2.o }
    }
}

impl StackEffect {
    /// A stack effect that pops `i` values and pushes `o`.
    pub fn new(i: u32, o: u32) -> (s: Self)
        ensures
            s@ == (EffectModel { i: i as int, o: o as int }),
    {
        StackEffect { i, o }
    }

    /// Number of values popped.
    pub fn pops(&self) -> (r: u32)
        ensures
            r == self@.i,
    {
        self.i
    }

    /// Number of values pushed.
    pub fn pushes(&self) -> (r: u32)
        ensures
            r == self@.o,
    {
        self.o
    }
}

/// Compositions of StackEffects: each output of `s1` is matched with an input
/// of `s2` until one side runs out.
pub fn composition(s1: &StackEffect, s2: &StackEffect) -> (r: StackEffect)
    requires
        compose_model(s1@, s2@).i <= u32::MAX,
        compose_model(s1@, s2@).o <= u32::MAX,
    ensures
        r@ == compose_model(s1@, s2@),
    decreases s1@.o,
{
    if s1.o == 0 {
        return StackEffect { i: s1.i + s2.i, o: s2.o };
    }
    if s2.i == 0 {
        return StackEffect { i: s1.i, o: s1.o + s2.o };
    }
    composition(&StackEffect { i: s1.i, o: s1.o - 1 }, &StackEffect { i: s2.i - 1, o: s2.o })
}

/// Composition is associative: how a sequence of programs is grouped does not
/// change its stack effect.
pub proof fn lemma_composition_associative(a: EffectModel, b: EffectModel, c: EffectModel)
    requires
        a.i >= 0,
        a.o >= 0,
        b.i >= 0,
        b.o >= 0,
        c.i >= 0,
        c.o >= 0,
    ensures
        compose_model(compose_model(a, b), c) == compose_model(a, compose_model(b, c)),
{
}

/// The empty program `0 -> 0` is neutral on both sides.
pub proof fn lemma_composition_identity(a: EffectModel)
    requires
        a.i >= 0,
        a.o >= 0,
    ensures
        compose_model(EffectModel { i: 0, o: 0 }, a) == a,
        compose_model(a, EffectModel { i: 0, o: 0 }) == a,
{
}

} // verus!
