//! Pass selection and toolchain-path decisions.
//!
//! The surrounding tool selects one mode for a whole batch and resolves
//! the toolchain directory that hosts the compiler it drives.  Reading the
//! environment and spawning processes is the caller's business; the
//! decisions themselves are pure and live here.

use vstd::prelude::*;
use vstd::string::StringExecFns;

verus! {

/// The two operating modes of a pass.
#[derive(Clone, Copy, PartialEq, Eq, Structural, Debug)]
pub enum Mode {
    StripMode,
    EmbedMode,
}

/// The operation name that selects the embed pass.
pub open spec fn embed_word() -> Seq<char> {
    seq!['e', 'm', 'b', 'e', 'd']
}

/// Decides the operating mode from the operation name the caller found in
/// its environment: exactly the word `embed` selects the embed pass;
/// anything else, or nothing at all, selects strip, the default.
pub fn mode_of_operation(op: Option<&String>) -> (m: Mode)
    ensures
        (m == Mode::EmbedMode) <==> (op is Some && op->0@ == embed_word()),
{
    match op {
        Some(s) => {
            let embed: String = String::from_str("embed");
            proof {
                reveal_strlit("embed");
                assert(embed@ =~= embed_word());
            }
            if *s == embed {
                Mode::EmbedMode
            } else {
                Mode::StripMode
            }
        },
        None => Mode::StripMode,
    }
}

/// The fixed path piece between a toolchain home and a toolchain name.
pub open spec fn toolchains_infix() -> Seq<char> {
    seq!['/', 't', 'o', 'o', 'l', 'c', 'h', 'a', 'i', 'n', 's', '/']
}

/// The directory of a named toolchain under a rustup-style home: the home
/// path, the `toolchains` directory, and the toolchain name, joined with
/// the path separator.  Known exactly when both parts are known.
pub fn toolchain_path(home: Option<String>, toolchain: Option<String>) -> (r: Option<String>)
    ensures
        (r is Some) <==> (home is Some && toolchain is Some),
        r is Some ==> r->0@ == home->0@ + toolchains_infix() + toolchain->0@,
{
    match (home, toolchain) {
        (Some(h), Some(t)) => {
            let ghost h0 = h@;
            let mut path = h;
            path.append("/toolchains/");
            proof {
                reveal_strlit("/toolchains/");
                assert(path@ =~= h0 + toolchains_infix());
            }
            path.append(t.as_str());
            proof {
                assert(path@ =~= h0 + toolchains_infix() + t@);
            }
            Some(path)
        },
        (Some(_), None) => None,
        (None, Some(_)) => None,
        (None, None) => None,
    }
}

} // verus!
