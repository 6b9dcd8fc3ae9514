//! The commands the editor-facing dispatcher can hand to the core, and the
//! parsing of a typed command word into one of them.

use vstd::prelude::*;
use vstd::string::StringExecFns;
use vstd::string::StringSliceAdditionalSpecFns;

use crate::util::bytes_eq;
use crate::util::lit_bytes;

verus! {

/// An action requested of the core.
pub enum Command {
    /// Encrypt the active file.
    EncryptFile,
    /// Decrypt the active file.
    DecryptFile,
    /// Generate a fresh key file.
    GenKey,
    /// Open a new file under the given name.
    NewFileName(Option<String>),
}

impl Command {
    /// Parses a command word and its optional argument.
    ///
    /// `e`/`encrypt` and `d`/`decrypt` select the two transforms; an empty
    /// word or `new` carries the optional file name through; any other word
    /// is unrecognised.
    pub fn from_str(cmd: &str, arg: Option<&str>) -> (r: Option<Command>)
        ensures
            (cmd.spec_bytes() == lit_bytes("e") || cmd.spec_bytes() == lit_bytes("encrypt"))
                ==> (r matches Some(c) && c is EncryptFile),
            (cmd.spec_bytes() == lit_bytes("d") || cmd.spec_bytes() == lit_bytes("decrypt"))
                ==> (r matches Some(c) && c is DecryptFile),
            (cmd.spec_bytes().len() == 0 || cmd.spec_bytes() == lit_bytes("new")) ==> {
                &&& r is Some
                &&& r->Some_0 is NewFileName
                &&& (arg is Some ==> r->Some_0->NewFileName_0 is Some
                    && r->Some_0->NewFileName_0->Some_0@ == arg->Some_0@)
                &&& (arg is None ==> r->Some_0->NewFileName_0 is None)
            },
            r is None <==> !{
                ||| cmd.spec_bytes() == lit_bytes("e")
                ||| cmd.spec_bytes() == lit_bytes("encrypt")
                ||| cmd.spec_bytes() == lit_bytes("d")
                ||| cmd.spec_bytes() == lit_bytes("decrypt")
                ||| cmd.spec_bytes().len() == 0
                ||| cmd.spec_bytes() == lit_bytes("new")
            },
    {
        proof {
            reveal_strlit("e");
            reveal_strlit("encrypt");
            reveal_strlit("d");
            reveal_strlit("decrypt");
            reveal_strlit("new");
            assert("e".is_ascii() && "encrypt".is_ascii() && "d".is_ascii()
                && "decrypt".is_ascii() && "new".is_ascii());
            assert(lit_bytes("e")[0] == 101 && lit_bytes("d")[0] == 100);
            assert(lit_bytes("encrypt")[0] == 101 && lit_bytes("decrypt")[0] == 100);
        }
        let cb = cmd.as_bytes();
        if str_matches(cb, "e") || str_matches(cb, "encrypt") {
            Some(Command::EncryptFile)
        } else if str_matches(cb, "d") || str_matches(cb, "decrypt") {
            Some(Command::DecryptFile)
        } else if cb.len() == 0 || str_matches(cb, "new") {
            let name = match arg {
                Some(a) => Some(String::from_str(a)),
                None => None,
            };
            Some(Command::NewFileName(name))
        } else {
            None
        }
    }
}

/// Compares the bytes of a command word against an ASCII literal.
fn str_matches(cb: &[u8], lit: &str) -> (r: bool)
    ensures
        lit.is_ascii() ==> r == (cb@ == lit_bytes(lit)),
{
    let r = bytes_eq(cb, lit.as_bytes());
    proof {
        if lit.is_ascii() {
            vstd::string::is_ascii_spec_bytes(lit);
            assert(lit.spec_bytes() =~= lit_bytes(lit));
        }
    }
    r
}

} // verus!
