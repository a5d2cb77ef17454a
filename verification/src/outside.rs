//! Types of other crates that are carried along unopened.
use dashmap::DashMap;
use indexmap::IndexMap;
use vstd::prelude::*;

verus! {

/// `dashmap::DashMap`: a map whose contents are known only through the contracts of the functions
/// that touch it.
#[verifier::external_type_specification]
#[verifier::external_body]
#[verifier::reject_recursive_types(K)]
#[verifier::reject_recursive_types(V)]
#[verifier::reject_recursive_types(S)]
pub struct ExDashMap<K, V, S>(DashMap<K, V, S>);

/// `indexmap::IndexMap`: a map that keeps the order of insertion; its contents are known only
/// through the contracts of the functions that touch it.
#[verifier::external_type_specification]
#[verifier::external_body]
#[verifier::reject_recursive_types(K)]
#[verifier::reject_recursive_types(V)]
#[verifier::reject_recursive_types(S)]
pub struct ExIndexMap<K, V, S>(IndexMap<K, V, S>);

/// `std::time::Instant`: a reading of the clock that is carried along and never looked into.
#[verifier::external_type_specification]
#[verifier::external_body]
pub struct ExInstant(std::time::Instant);

} // verus!
