//! The unsigned integers as weighted edges: an integer weighs what it says.

use crate::edge::WeightedEdge;
use vstd::prelude::*;

verus! {

impl WeightedEdge for u8 {
    open spec fn weight(&self) -> nat {
        *self as nat
    }

    open spec fn representable(total: nat) -> bool {
        total <= u8::MAX
    }

    proof fn lemma_order(a: Self, b: Self) {
    }

    proof fn lemma_sum(a: Self, b: Self) {
    }

    proof fn lemma_zero(zero: Self) {
    }

    proof fn lemma_clone(a: Self, b: Self) {
    }
}

impl WeightedEdge for u16 {
    open spec fn weight(&self) -> nat {
        *self as nat
    }

    open spec fn representable(total: nat) -> bool {
        total <= u16::MAX
    }

    proof fn lemma_order(a: Self, b: Self) {
    }

    proof fn lemma_sum(a: Self, b: Self) {
    }

    proof fn lemma_zero(zero: Self) {
    }

    proof fn lemma_clone(a: Self, b: Self) {
    }
}

impl WeightedEdge for u32 {
    open spec fn weight(&self) -> nat {
        *self as nat
    }

    open spec fn representable(total: nat) -> bool {
        total <= u32::MAX
    }

    proof fn lemma_order(a: Self, b: Self) {
    }

    proof fn lemma_sum(a: Self, b: Self) {
    }

    proof fn lemma_zero(zero: Self) {
    }

    proof fn lemma_clone(a: Self, b: Self) {
    }
}

impl WeightedEdge for u64 {
    open spec fn weight(&self) -> nat {
        *self as nat
    }

    open spec fn representable(total: nat) -> bool {
        total <= u64::MAX
    }

    proof fn lemma_order(a: Self, b: Self) {
    }

    proof fn lemma_sum(a: Self, b: Self) {
    }

    proof fn lemma_zero(zero: Self) {
    }

    proof fn lemma_clone(a: Self, b: Self) {
    }
}

impl WeightedEdge for u128 {
    open spec fn weight(&self) -> nat {
        *self as nat
    }

    open spec fn representable(total: nat) -> bool {
        total <= u128::MAX
    }

    proof fn lemma_order(a: Self, b: Self) {
    }

    proof fn lemma_sum(a: Self, b: Self) {
    }

    proof fn lemma_zero(zero: Self) {
    }

    proof fn lemma_clone(a: Self, b: Self) {
    }
}

impl WeightedEdge for usize {
    open spec fn weight(&self) -> nat {
        *self as nat
    }

    open spec fn representable(total: nat) -> bool {
        total <= usize::MAX
    }

    proof fn lemma_order(a: Self, b: Self) {
    }

    proof fn lemma_sum(a: Self, b: Self) {
    }

    proof fn lemma_zero(zero: Self) {
    }

    proof fn lemma_clone(a: Self, b: Self) {
    }
}

} // verus!
