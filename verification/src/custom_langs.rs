//! The extra languages the program ships grammars for beyond the stock
//! parser set. The name mapping lives here; loading the grammar itself is
//! the highlighting engine's work.

use vstd::prelude::*;

use crate::strutil::streq;

verus! {

/// Custom languages provided by the program itself.
#[derive(Debug, Clone, Copy, PartialEq, Eq, Structural)]
pub enum CustomLang {
    Hcl,
    Terraform,
}

impl CustomLang {
    /// The language's canonical name.
    pub fn name(&self) -> (r: String)
        ensures
            *self is Hcl ==> r@ == "hcl"@,
            *self is Terraform ==> r@ == "terraform"@,
    {
        match self {
            CustomLang::Hcl => String::from_str("hcl"),
            CustomLang::Terraform => String::from_str("terraform"),
        }
    }

    /// The language a (normalized) name denotes: `hcl`, or `terraform` with
    /// its `tf` shorthand.
    pub fn for_name(name: &str) -> (r: Option<CustomLang>)
        ensures
            r == (if name@ == "hcl"@ {
                Some(CustomLang::Hcl)
            } else if name@ == "terraform"@ || name@ == "tf"@ {
                Some(CustomLang::Terraform)
            } else {
                None
            }),
    {
        if streq(name, "hcl") {
            proof {
                reveal_strlit("hcl");
                reveal_strlit("terraform");
                reveal_strlit("tf");
            }
            Some(CustomLang::Hcl)
        } else if streq(name, "terraform") || streq(name, "tf") {
            Some(CustomLang::Terraform)
        } else {
            None
        }
    }
}

} // verus!
