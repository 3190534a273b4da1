//! Why a request is refused.

use vstd::prelude::*;
use vstd::string::*;

verus! {

#[derive(Debug, Clone)]
pub enum AppError {
    BadInput(String),
    Quota(String),
}

impl AppError {
    /// The text shown to the person whose request was refused.
    pub open spec fn text(self) -> Seq<char> {
        match self {
            AppError::BadInput(s) => s@,
            AppError::Quota(s) => "quota: "@ + s@,
        }
    }

    /// The text shown to the person whose request was refused.
    pub fn to_text(&self) -> (r: String)
        ensures
            r@ == self.text(),
    {
        match self {
            AppError::BadInput(s) => s.clone(),
            AppError::Quota(s) => {
                let mut t = "quota: ".to_string();
                t.append(s.as_str());
                t
            },
        }
    }
}

} // verus!
