//! Compilation targets supported by the K compiler.

use vstd::prelude::*;

use crate::text::{str_equal, text};

verus! {

/// A machine the compiler can be asked to produce code for.
#[derive(Clone, Copy, Debug, PartialEq, Eq, Structural)]
pub enum Target {
    X86_64SystemV,
    X86_64KrumpyOs,
    Aarch64KrumpyOs,
}

/// The canonical name of a target.
pub open spec fn target_name(target: Target) -> Seq<char> {
    match target {
        Target::X86_64SystemV => "x86_64-unknown-linux-gnu"@,
        Target::X86_64KrumpyOs => "x86_64-krumpyos"@,
        Target::Aarch64KrumpyOs => "aarch64-krumpyos"@,
    }
}

/// The target a name selects: each target answers to its canonical name and
/// to one alias.
pub open spec fn target_named(name: Seq<char>) -> Option<Target> {
    if name == "x86_64-unknown-linux-gnu"@ || name == "linux-x86_64"@ {
        Some(Target::X86_64SystemV)
    } else if name == "x86_64-krumpyos"@ || name == "krumpyos-x86_64"@ {
        Some(Target::X86_64KrumpyOs)
    } else if name == "aarch64-krumpyos"@ || name == "krumpyos-aarch64"@ {
        Some(Target::Aarch64KrumpyOs)
    } else {
        None
    }
}

/// Whether a backend exists for the target.
pub open spec fn target_implemented(target: Target) -> bool {
    target == Target::X86_64SystemV || target == Target::X86_64KrumpyOs
}

impl Target {
    pub fn name(self) -> (r: &'static str)
        ensures
            r@ == target_name(self),
    {
        match self {
            Target::X86_64SystemV => "x86_64-unknown-linux-gnu",
            Target::X86_64KrumpyOs => "x86_64-krumpyos",
            Target::Aarch64KrumpyOs => "aarch64-krumpyos",
        }
    }

    pub fn is_implemented(self) -> (r: bool)
        ensures
            r == target_implemented(self),
    {
        match self {
            Target::X86_64SystemV | Target::X86_64KrumpyOs => true,
            Target::Aarch64KrumpyOs => false,
        }
    }

    /// Selects a target by name, reporting the unknown name otherwise.
    pub fn parse_name(value: &str) -> (r: Result<Target, TargetParseError>)
        ensures
            match r {
                Ok(t) => target_named(value@) == Some(t),
                Err(e) => target_named(value@) is None && e.value@ == value@,
            },
    {
        if str_equal(value, "x86_64-unknown-linux-gnu") || str_equal(value, "linux-x86_64") {
            Ok(Target::X86_64SystemV)
        } else if str_equal(value, "x86_64-krumpyos") || str_equal(value, "krumpyos-x86_64") {
            Ok(Target::X86_64KrumpyOs)
        } else if str_equal(value, "aarch64-krumpyos") || str_equal(value, "krumpyos-aarch64") {
            Ok(Target::Aarch64KrumpyOs)
        } else {
            Err(TargetParseError { value: text(value) })
        }
    }
}

impl Default for Target {
    fn default() -> (r: Self)
        ensures
            r == Target::X86_64SystemV,
    {
        Target::X86_64SystemV
    }
}

impl core::str::FromStr for Target {
    type Err = TargetParseError;

    fn from_str(value: &str) -> (r: Result<Self, Self::Err>)
        ensures
            match r {
                Ok(t) => target_named(value@) == Some(t),
                Err(e) => target_named(value@) is None && e.value@ == value@,
            },
    {
        Target::parse_name(value)
    }
}

/// A target name that names no known target.
#[derive(Clone, Debug, PartialEq, Eq)]
pub struct TargetParseError {
    pub value: String,
}

impl TargetParseError {
    /// The diagnostic text: ``unknown target `name` ``.
    pub fn to_string(&self) -> (r: String)
        ensures
            r@ == "unknown target `"@ + self.value@ + "`"@,
    {
        let mut out = text("unknown target `");
        out.append(self.value.as_str());
        out.append("`");
        out
    }
}

/// Every target is selected by its own canonical name.
pub proof fn lemma_name_selects_target(target: Target)
    ensures
        target_named(target_name(target)) == Some(target),
{
    reveal_strlit("x86_64-unknown-linux-gnu");
    reveal_strlit("linux-x86_64");
    reveal_strlit("x86_64-krumpyos");
    reveal_strlit("krumpyos-x86_64");
    reveal_strlit("aarch64-krumpyos");
    reveal_strlit("krumpyos-aarch64");
    assert("x86_64-unknown-linux-gnu"@.len() == 24);
    assert("linux-x86_64"@.len() == 12);
    assert("x86_64-krumpyos"@.len() == 15);
    assert("krumpyos-x86_64"@.len() == 15);
    assert("aarch64-krumpyos"@.len() == 16);
    assert("krumpyos-aarch64"@.len() == 16);
    assert("x86_64-krumpyos"@[0] != "krumpyos-x86_64"@[0]);
    assert("aarch64-krumpyos"@[0] != "krumpyos-aarch64"@[0]);
}

} // verus!
