//! Turning what a property lookup on a host object gave into a value or a
//! message that names the property.

use vstd::prelude::*;

verus! {

/// What looking a property up on a host object gave.
#[derive(Debug)]
pub enum Lookup<T> {
    /// The lookup itself failed.
    Failed,
    /// The property is there, but not of the type asked for.
    Mistyped,
    /// The property, as a value of the type asked for.
    Found(T),
}

/// `Failed to get property '<p>'`.
pub open spec fn lookup_failed_message(p: Seq<char>) -> Seq<char> {
    "Failed to get property '"@ + p + "'"@
}

/// `<owner> has no '<f>' function`.
pub open spec fn no_function_message(owner: Seq<char>, f: Seq<char>) -> Seq<char> {
    owner + " has no '"@ + f + "' function"@
}

/// `<owner> has no '<p>' property`.
pub open spec fn no_property_message(owner: Seq<char>, p: Seq<char>) -> Seq<char> {
    owner + " has no '"@ + p + "' property"@
}

/// `<owner> property '<p>' is not string`.
pub open spec fn not_string_message(owner: Seq<char>, p: Seq<char>) -> Seq<char> {
    owner + " property '"@ + p + "' is not string"@
}

/// The message for a lookup of property `p` that failed.
pub fn lookup_failed(p: &str) -> (m: String)
    ensures
        m@ == lookup_failed_message(p@),
{
    let mut m = String::from_str("Failed to get property '");
    m.append(p);
    m.append("'");
    m
}

/// The message for a property `f` of `owner` that is no function.
pub fn no_function(owner: &str, f: &str) -> (m: String)
    ensures
        m@ == no_function_message(owner@, f@),
{
    let mut m = String::from_str(owner);
    m.append(" has no '");
    m.append(f);
    m.append("' function");
    m
}

/// The value of property `p`, or the message for a lookup that failed.
pub fn get_prop<T>(found: Option<T>, p: &str) -> (r: Result<T, String>)
    ensures
        match found {
            Some(v) => r == Ok::<T, String>(v),
            None => r is Err && r->Err_0@ == lookup_failed_message(p@),
        },
{
    match found {
        Some(v) => Ok(v),
        None => Err(lookup_failed(p)),
    }
}

/// The function `f` of the object that messages call `owner`: the function
/// where the lookup found one, the lookup's own message where it failed, and
/// a message that names `owner` and `f` where the property is no function.
pub fn get_fn<T>(found: Lookup<T>, f: &str, owner: &str) -> (r: Result<T, String>)
    ensures
        match found {
            Lookup::Found(v) => r == Ok::<T, String>(v),
            Lookup::Failed => r is Err && r->Err_0@ == lookup_failed_message(f@),
            Lookup::Mistyped => r is Err && r->Err_0@ == no_function_message(owner@, f@),
        },
{
    match found {
        Lookup::Found(v) => Ok(v),
        Lookup::Failed => get_prop(None, f),
        Lookup::Mistyped => Err(no_function(owner, f)),
    }
}

/// The string property `p` of the object that messages call `owner`: the
/// string where the lookup found one, and else a message that names `owner`
/// and `p` and tells a failed lookup from a property that is no string.
pub fn get_string(found: Lookup<String>, p: &str, owner: &str) -> (r: Result<String, String>)
    ensures
        match found {
            Lookup::Found(v) => r == Ok::<String, String>(v),
            Lookup::Failed => r is Err && r->Err_0@ == no_property_message(owner@, p@),
            Lookup::Mistyped => r is Err && r->Err_0@ == not_string_message(owner@, p@),
        },
{
    match found {
        Lookup::Found(v) => Ok(v),
        Lookup::Failed => {
            let mut m = String::from_str(owner);
            m.append(" has no '");
            m.append(p);
            m.append("' property");
            Err(m)
        },
        Lookup::Mistyped => {
            let mut m = String::from_str(owner);
            m.append(" property '");
            m.append(p);
            m.append("' is not string");
            Err(m)
        },
    }
}

} // verus!
