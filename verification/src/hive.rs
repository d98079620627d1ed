use vstd::prelude::*;
use crate::errors::BridgeError;
use crate::strseq::{eq_ci, str_eq_ci};

verus! {

/// One of the five well-known registry root namespaces.
#[derive(Debug, Clone, Copy, PartialEq, Eq, Structural)]
pub enum Hive {
    ClassesRoot,
    CurrentConfig,
    CurrentUser,
    LocalMachine,
    Users,
}

/// Which hive a symbolic name denotes: each hive answers to its four- or
/// three-letter abbreviation and to its long-form spelling, compared
/// without regard to ASCII case.
pub open spec fn spec_resolve(s: Seq<char>) -> Option<Hive> {
    if eq_ci(s, "CLASSESROOT"@) || eq_ci(s, "HKCR"@) {
        Some(Hive::ClassesRoot)
    } else if eq_ci(s, "CURRENTCONFIG"@) || eq_ci(s, "HKCC"@) {
        Some(Hive::CurrentConfig)
    } else if eq_ci(s, "CURRENTUSER"@) || eq_ci(s, "HKCU"@) {
        Some(Hive::CurrentUser)
    } else if eq_ci(s, "LOCALMACHINE"@) || eq_ci(s, "HKLM"@) {
        Some(Hive::LocalMachine)
    } else if eq_ci(s, "USERS"@) || eq_ci(s, "HKU"@) {
        Some(Hive::Users)
    } else {
        None
    }
}

impl Hive {
    /// The canonical short-name spelling of this hive.
    pub open spec fn short_name(self) -> Seq<char> {
        match self {
            Hive::ClassesRoot => "HKCR"@,
            Hive::CurrentConfig => "HKCC"@,
            Hive::CurrentUser => "HKCU"@,
            Hive::LocalMachine => "HKLM"@,
            Hive::Users => "HKU"@,
        }
    }

    /// The canonical short-name string form of this hive.
    pub fn to_string(&self) -> (r: String)
        ensures
            r@ == self.short_name(),
    {
        match self {
            Hive::ClassesRoot => "HKCR".to_owned(),
            Hive::CurrentConfig => "HKCC".to_owned(),
            Hive::CurrentUser => "HKCU".to_owned(),
            Hive::LocalMachine => "HKLM".to_owned(),
            Hive::Users => "HKU".to_owned(),
        }
    }

    /// Maps a case-insensitive symbolic name to a well-known root; an
    /// unrecognised name fails with `UnknownHive` carrying the text.
    pub fn resolve(s: &str) -> (r: Result<Hive, BridgeError>)
        ensures
            match spec_resolve(s@) {
                Some(h) => r == Ok::<Hive, BridgeError>(h),
                None => r matches Err(e) && (e matches BridgeError::UnknownHive(t) && t@ == s@),
            },
    {
        if str_eq_ci(s, "CLASSESROOT") || str_eq_ci(s, "HKCR") {
            Ok(Hive::ClassesRoot)
        } else if str_eq_ci(s, "CURRENTCONFIG") || str_eq_ci(s, "HKCC") {
            Ok(Hive::CurrentConfig)
        } else if str_eq_ci(s, "CURRENTUSER") || str_eq_ci(s, "HKCU") {
            Ok(Hive::CurrentUser)
        } else if str_eq_ci(s, "LOCALMACHINE") || str_eq_ci(s, "HKLM") {
            Ok(Hive::LocalMachine)
        } else if str_eq_ci(s, "USERS") || str_eq_ci(s, "HKU") {
            Ok(Hive::Users)
        } else {
            Err(BridgeError::UnknownHive(s.to_owned()))
        }
    }
}

/// Hive resolution is case-insensitive: two spellings that agree up to
/// ASCII case resolve to the same outcome.
pub proof fn lemma_resolve_case_insensitive(a: Seq<char>, b: Seq<char>)
    requires
        eq_ci(a, b),
    ensures
        spec_resolve(a) == spec_resolve(b),
{
    assert forall|t: Seq<char>| eq_ci(a, t) == eq_ci(b, t) by {
        if eq_ci(a, t) {
            assert(eq_ci(b, t));
        }
        if eq_ci(b, t) {
            assert(eq_ci(a, t));
        }
    }
}

} // verus!
