//! Environments of the code generators: persistent maps (`im::HashMap`) from
//! variable names to stack offsets.

use vstd::prelude::*;

verus! {

/// `im::HashMap`, the persistent map that holds the variables in scope; its
/// contents are reached only through the wrappers below.
#[verifier::external_type_specification]
#[verifier::external_body]
#[verifier::reject_recursive_types(K)]
#[verifier::reject_recursive_types(V)]
#[verifier::reject_recursive_types(S)]
pub struct ExImHashMap<K, V, S>(im::HashMap<K, V, S>);

/// The bindings an environment holds: each name (by its characters) to its
/// offset.
pub uninterp spec fn env_slots(env: im::HashMap<String, i32>) -> Map<Seq<char>, i32>;

/// `im::HashMap::new`: the contract claims the map is empty.
#[verifier::external_body]
pub(crate) fn env_new() -> (fresh: im::HashMap<String, i32>)
    ensures
        env_slots(fresh).dom().is_empty(),
{
    im::HashMap::new()
}

/// `im::HashMap::get`: the contract claims it finds the offset bound to a name
/// with the same characters, and `None` where there is none.
#[verifier::external_body]
pub(crate) fn env_get(env: &im::HashMap<String, i32>, name: &String) -> (r: Option<i32>)
    ensures
        r == (if env_slots(*env).dom().contains(name@) {
            Some(env_slots(*env)[name@])
        } else {
            None
        }),
{
    env.get(name).copied()
}

/// `im::HashMap::insert`: the contract claims the map afterwards binds `name`
/// to `offset` and keeps every other binding.
#[verifier::external_body]
pub(crate) fn env_insert(env: &mut im::HashMap<String, i32>, name: String, offset: i32)
    ensures
        env_slots(*final(env)) == env_slots(*old(env)).insert(name@, offset),
{
    env.insert(name, offset);
}

/// `Clone` of `im::HashMap`: the contract claims the copy holds the same
/// bindings.
#[verifier::external_body]
pub(crate) fn env_clone(env: &im::HashMap<String, i32>) -> (r: im::HashMap<String, i32>)
    ensures
        env_slots(r) == env_slots(*env),
{
    env.clone()
}

} // verus!
