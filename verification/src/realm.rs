//! Checks the runtime makes about frame realms and its environment.
use vstd::prelude::*;

use crate::strutil::str_eq;

verus! {

/// Whether a frame whose document has origin `frame_origin` is same-origin
/// with `other_origin`: an opaque (`null`) origin is same-origin with
/// nothing, not even another `null`.
pub fn is_same_origin_as(frame_origin: &str, other_origin: &str) -> (r: bool)
    ensures
        r == (frame_origin@ != "null"@ && frame_origin@ == other_origin@),
{
    !str_eq(frame_origin, "null") && str_eq(frame_origin, other_origin)
}

/// Why a time zone name was refused before it reached ICU.
#[derive(Clone, Copy, Debug, PartialEq, Eq, Structural)]
pub enum TimezoneNameError {
    EmptyOrNul,
}

impl TimezoneNameError {
    pub fn message(&self) -> (s: &'static str)
        ensures
            s@ == "timezone must be a non-empty IANA name"@,
    {
        match self {
            TimezoneNameError::EmptyOrNul => "timezone must be a non-empty IANA name",
        }
    }
}

/// A time zone name can be handed to ICU as a NUL-terminated string: it is
/// not empty and holds no NUL. Whether ICU knows the zone is ICU's answer.
pub fn check_timezone_name(timezone: &str) -> (r: Result<(), TimezoneNameError>)
    ensures
        r is Ok <==> (timezone@.len() > 0 && !timezone@.contains('\0')),
{
    let n = timezone.unicode_len();
    if n == 0 {
        return Err(TimezoneNameError::EmptyOrNul);
    }
    let mut i: usize = 0;
    while i < n
        invariant
            n == timezone@.len(),
            i <= n,
            forall|k: int| 0 <= k < i ==> timezone@[k] != '\0',
        decreases n - i,
    {
        if timezone.get_char(i) == '\0' {
            return Err(TimezoneNameError::EmptyOrNul);
        }
        i = i + 1;
    }
    Ok(())
}

} // verus!
