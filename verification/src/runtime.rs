//! The part of the JavaScript runtime that decides what the page realm is
//! told about the selected browser fingerprint profile. The host evaluates
//! the scripts built here in the realm they are meant for.
use vstd::prelude::*;

use crate::strutil::{concat_str, owned};

verus! {

/// Script that publishes a fingerprint profile, given as a JSON object
/// literal, to the realm's `__obscura_init`.
pub open spec fn profile_script(profile_json: Seq<char>) -> Seq<char> {
    "globalThis.__obscura_fingerprint_profile="@ + profile_json + ";"@
}

pub struct ObscuraJsRuntime {
    fingerprint_profile_json: Option<String>,
}

impl ObscuraJsRuntime {
    /// The profile last published, as JSON text.
    pub closed spec fn fingerprint_profile(&self) -> Option<Seq<char>> {
        match self.fingerprint_profile_json {
            Some(s) => Some(s@),
            None => None,
        }
    }

    pub fn new() -> (r: ObscuraJsRuntime)
        ensures
            r.fingerprint_profile() is None,
    {
        ObscuraJsRuntime { fingerprint_profile_json: None }
    }

    fn script_for(profile_json: &str) -> (r: String)
        ensures
            r@ == profile_script(profile_json@),
    {
        let head = concat_str("globalThis.__obscura_fingerprint_profile=", profile_json);
        concat_str(head.as_str(), ";")
    }

    /// Publish the profile for the next `__obscura_init`. `profile_json` is
    /// host-owned profile data, never page input. Returns the script to
    /// evaluate in the page realm.
    pub fn set_fingerprint_profile(&mut self, profile_json: &str) -> (script: String)
        ensures
            final(self).fingerprint_profile() == Some(profile_json@),
            script@ == profile_script(profile_json@),
    {
        self.fingerprint_profile_json = Some(owned(profile_json));
        Self::script_for(profile_json)
    }

    /// The script that gives a child realm the selected profile before its
    /// own `__obscura_init`; `None` when no profile was published.
    pub fn copy_fingerprint_profile_to_realm(&self) -> (script: Option<String>)
        ensures
            match self.fingerprint_profile() {
                Some(p) => script is Some && script->Some_0@ == profile_script(p),
                None => script is None,
            },
    {
        match &self.fingerprint_profile_json {
            Some(p) => Some(Self::script_for(p.as_str())),
            None => None,
        }
    }
}

} // verus!
