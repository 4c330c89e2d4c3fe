//! On-delete policies and their textual names.

use vstd::prelude::*;

verus! {

/// What happens to the records that reference a record when it is deleted.
#[derive(Debug, Clone, Copy, PartialEq, Eq, Structural)]
pub enum OnDelete {
    /// The referencing field is cleared; the referencing record stays.
    Null,
    /// The referencing record is deleted too, and so on for its own referrers.
    Cascade,
}

/// A policy name that is neither `null` nor `cascade`.
#[derive(Debug, Clone, Copy, PartialEq, Eq, Structural)]
pub struct UnknownPolicy;

/// The policy that a name stands for. Names are matched exactly, in lower case.
pub open spec fn policy_named(name: Seq<char>) -> Option<OnDelete> {
    if name == "null"@ {
        Some(OnDelete::Null)
    } else if name == "cascade"@ {
        Some(OnDelete::Cascade)
    } else {
        None
    }
}

/// Whether two string slices hold the same text.
pub fn same_text(a: &str, b: &str) -> (same: bool)
    ensures
        same == (a@ == b@),
{
    let left = a.to_owned();
    let right = b.to_owned();
    left == right
}

impl OnDelete {
    /// The name under which the policy is declared.
    pub open spec fn spec_name(self) -> Seq<char> {
        match self {
            OnDelete::Null => "null"@,
            OnDelete::Cascade => "cascade"@,
        }
    }

    /// The name under which the policy is declared.
    pub fn name(&self) -> (text: &'static str)
        ensures
            text@ == self.spec_name(),
    {
        match self {
            OnDelete::Null => "null",
            OnDelete::Cascade => "cascade",
        }
    }

    /// Reads a policy from its name; any other text is refused.
    pub fn from_str(s: &str) -> (parsed: Result<OnDelete, UnknownPolicy>)
        ensures
            match parsed {
                Ok(policy) => policy_named(s@) == Some(policy),
                Err(_) => policy_named(s@).is_none(),
            },
    {
        if same_text(s, "null") {
            Ok(OnDelete::Null)
        } else if same_text(s, "cascade") {
            Ok(OnDelete::Cascade)
        } else {
            Err(UnknownPolicy)
        }
    }

    /// The names of all policies, in declaration order.
    pub fn variants() -> (names: Vec<&'static str>)
        ensures
            names@.len() == 2,
            names@[0]@ == OnDelete::Null.spec_name(),
            names@[1]@ == OnDelete::Cascade.spec_name(),
    {
        let mut names: Vec<&'static str> = Vec::new();
        names.push("null");
        names.push("cascade");
        names
    }
}

impl std::str::FromStr for OnDelete {
    type Err = UnknownPolicy;

    /// Reads a policy from its name, as [`OnDelete::from_str`] does: the policy
    /// that the text names exactly, and a refusal of any other text.
    fn from_str(s: &str) -> (parsed: Result<OnDelete, UnknownPolicy>)
        ensures
            match parsed {
                Ok(policy) => policy_named(s@) == Some(policy),
                Err(_) => policy_named(s@).is_none(),
            },
    {
        OnDelete::from_str(s)
    }
}

/// A policy's name reads back as the policy.
pub proof fn policy_name_round_trip(policy: OnDelete)
    ensures
        policy_named(policy.spec_name()) == Some(policy),
{
    reveal_strlit("null");
    reveal_strlit("cascade");
    if policy == OnDelete::Cascade {
        assert("cascade"@.len() == 7);
        assert("null"@.len() == 4);
        assert("cascade"@ != "null"@);
    }
}

} // verus!
