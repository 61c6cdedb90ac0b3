//! The assembly syntax style selected by the caller, parsed from its
//! command-line spelling.

use vstd::prelude::*;

use crate::order::str_eq;

verus! {

/// Assembly syntax style of the emitted output.
#[derive(Copy, Clone, Debug, PartialEq, Eq, Structural)]
pub enum Style {
    Intel,
    Att,
}

/// The message returned when a style name is not recognized:
/// `"<name>" is not a valid assembly style. Try "intel" or "att"`.
pub open spec fn style_error_message(name: Seq<char>) -> Seq<char> {
    "\""@ + name + "\" is not a valid assembly style. Try \"intel\" or \"att\""@
}

impl Style {
    /// Parses a style name: exactly `"intel"` and `"att"` are accepted, and
    /// any other input is rejected with the explanatory message.
    pub fn parse(s: &str) -> (r: Result<Style, String>)
        ensures
            s@ == "intel"@ ==> r == Ok::<Style, String>(Style::Intel),
            s@ == "att"@ ==> r == Ok::<Style, String>(Style::Att),
            s@ != "intel"@ && s@ != "att"@ ==> {
                &&& r is Err
                &&& r->Err_0@ == style_error_message(s@)
            },
    {
        proof {
            reveal_strlit("intel");
            reveal_strlit("att");
            assert("intel"@.len() == 5);
            assert("att"@.len() == 3);
        }
        if str_eq(s, "intel") {
            Ok(Style::Intel)
        } else if str_eq(s, "att") {
            Ok(Style::Att)
        } else {
            let mut msg = String::from_str("\"");
            msg.append(s);
            msg.append("\" is not a valid assembly style. Try \"intel\" or \"att\"");
            Err(msg)
        }
    }
}

impl core::str::FromStr for Style {
    type Err = String;

    fn from_str(s: &str) -> Result<Style, String> {
        Style::parse(s)
    }
}

} // verus!
