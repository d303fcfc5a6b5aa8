//! Props and data of the component patterns: a wrapper that hands props on,
//! a key under which a rendering is remembered, and a list rendered from data.
use vstd::prelude::*;
use vstd::string::StringExecFns;

verus! {

/// The props of a button that shows a text.
#[derive(Clone, Debug)]
pub struct ButtonProps {
    pub text: String,
    pub disabled: bool,
}

/// A name and an address to render.
#[derive(Clone, Debug)]
pub struct UserData {
    pub name: String,
    pub email: String,
}

/// A wrapper that hands a button's props on as they are.
pub struct WithAnalytics;

impl ButtonProps {
    pub open spec fn memo_key_spec(self) -> Seq<char> {
        self.text@ + "_"@ + (if self.disabled {
            "true"@
        } else {
            "false"@
        })
    }

    /// The key under which a rendering of the button is remembered: the
    /// text, an underscore, and whether the button is disabled.
    pub fn memo_key(&self) -> (r: String)
        ensures
            r@ == self.memo_key_spec(),
    {
        let mut r = self.text.clone();
        r.append("_");
        if self.disabled {
            r.append("true");
        } else {
            r.append("false");
        }
        r
    }
}

impl WithAnalytics {
    /// The props of the wrapped button: those of the wrapper.
    pub fn transform_props(hoc_props: &ButtonProps) -> (p: ButtonProps)
        ensures
            p.text == hoc_props.text,
            p.disabled == hoc_props.disabled,
    {
        ButtonProps { text: hoc_props.text.clone(), disabled: hoc_props.disabled }
    }
}

impl UserData {
    pub open spec fn line_spec(self) -> Seq<char> {
        self.name@ + " ("@ + self.email@ + ")"@
    }

    /// The user as one line: the name, then the address in brackets.
    pub fn line(&self) -> (r: String)
        ensures
            r@ == self.line_spec(),
    {
        let mut r = self.name.clone();
        r.append(" (");
        r.append(self.email.as_str());
        r.append(")");
        r
    }
}

/// The text of one node for each user, in their order.
pub fn user_list_renderer(users: Vec<UserData>) -> (lines: Vec<String>)
    ensures
        lines@.len() == users@.len(),
        forall|i: int| 0 <= i < users@.len() ==> (#[trigger] lines@[i])@ == users@[i].line_spec(),
{
    let mut lines: Vec<String> = Vec::new();
    let mut i: usize = 0;
    while i < users.len()
        invariant
            i <= users@.len(),
            lines@.len() == i,
            forall|k: int| 0 <= k < i ==> (#[trigger] lines@[k])@ == users@[k].line_spec(),
        decreases users@.len() - i,
    {
        let line = users[i].line();
        lines.push(line);
        i += 1;
    }
    lines
}

} // verus!
