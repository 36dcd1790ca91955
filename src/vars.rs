use crate::text::push_str;
use crate::value::{value_text, Value};
use vstd::prelude::*;

verus! {

/// A name bound to a value.
pub struct Variable {
    pub name: String,
    pub value: Value,
}


impl Variable {
    /// The written form of the bound value.
    pub fn to_text(&self) -> (r: String)
        ensures
            r@ == value_text(self.value),
    {
        self.value.to_text()
    }

    /// The name and the value as a dotted pair: `("name" . value)`.
    pub fn debug_text(&self) -> (r: String)
        ensures
            r@ == "(\""@ + self.name@ + "\" . "@ + value_text(self.value) + ")"@,
    {
        let mut out = String::new();
        push_str(&mut out, "(\"");
        push_str(&mut out, self.name.as_str());
        push_str(&mut out, "\" . ");
        self.value.write_to(&mut out);
        push_str(&mut out, ")");
        proof {
            assert(out@ =~= "(\""@ + self.name@ + "\" . "@ + value_text(self.value) + ")"@);
        }
        out
    }
}

} // verus!
