//! Props of a button with a click handler, and what its node is made of.
use vstd::prelude::*;
use vstd::string::StringExecFns;

verus! {

/// What happened to the mouse.
#[derive(Clone, Copy, PartialEq, Eq, Structural, Debug)]
pub enum MouseEventType {
    Down,
    Up,
    Move,
    Enter,
    Leave,
    Click,
    DoubleClick,
}

/// The handle of a click handler that the host keeps.
#[derive(Clone, Copy, PartialEq, Eq, Structural, Debug)]
pub struct ClickHandler {
    pub id: u64,
}

/// The props of a button.
#[derive(Clone, Debug)]
pub struct ButtonProps {
    pub label: String,
    pub disabled: bool,
    pub primary: bool,
    pub on_click: Option<ClickHandler>,
}

impl Default for ButtonProps {
    fn default() -> (p: Self)
        ensures
            p.label@ == "Button"@,
            !p.disabled,
            !p.primary,
            p.on_click.is_none(),
    {
        Self::new()
    }
}

impl ButtonProps {
    /// Props of an enabled, secondary button with the label "Button" and no
    /// click handler.
    pub fn new() -> (p: Self)
        ensures
            p.label@ == "Button"@,
            !p.disabled,
            !p.primary,
            p.on_click.is_none(),
    {
        ButtonProps { label: "Button".to_string(), disabled: false, primary: false, on_click: None }
    }

    /// The same props with another label.
    pub fn label(self, label: String) -> (p: Self)
        ensures
            p.label == label,
            p.disabled == self.disabled,
            p.primary == self.primary,
            p.on_click == self.on_click,
    {
        let mut p = self;
        p.label = label;
        p
    }

    /// The same props, disabled or not.
    pub fn disabled(self, disabled: bool) -> (p: Self)
        ensures
            p.label == self.label,
            p.disabled == disabled,
            p.primary == self.primary,
            p.on_click == self.on_click,
    {
        let mut p = self;
        p.disabled = disabled;
        p
    }

    /// The same props, primary or not.
    pub fn primary(self, primary: bool) -> (p: Self)
        ensures
            p.label == self.label,
            p.disabled == self.disabled,
            p.primary == primary,
            p.on_click == self.on_click,
    {
        let mut p = self;
        p.primary = primary;
        p
    }

    /// The same props with another click handler, or none.
    pub fn on_click(self, on_click: Option<ClickHandler>) -> (p: Self)
        ensures
            p.label == self.label,
            p.disabled == self.disabled,
            p.primary == self.primary,
            p.on_click == on_click,
    {
        let mut p = self;
        p.on_click = on_click;
        p
    }

    pub open spec fn class_name_spec(self) -> Seq<char> {
        "button "@ + (if self.primary {
            "primary"@
        } else {
            ""@
        }) + " "@ + (if self.disabled {
            "disabled"@
        } else {
            ""@
        })
    }

    /// The class of the button's node: "button", then "primary" or nothing,
    /// then "disabled" or nothing, with one space between them.
    pub fn class_name(&self) -> (r: String)
        ensures
            r@ == self.class_name_spec(),
    {
        let mut r = "button ".to_string();
        if self.primary {
            r.append("primary");
        } else {
            r.append("");
        }
        r.append(" ");
        if self.disabled {
            r.append("disabled");
        } else {
            r.append("");
        }
        r
    }

    /// Whether a click reaches a handler: there is one, and the button is not
    /// disabled.
    pub fn can_click(&self) -> (b: bool)
        ensures
            b == (self.on_click.is_some() && !self.disabled),
    {
        self.on_click.is_some() && !self.disabled
    }

    /// The attributes of the button's one node, in their order: the class,
    /// the label, `disabled` with the value "true" exactly when the button is
    /// disabled, and the click count as the host has written it out.
    pub fn attributes(&self, click_count: String) -> (a: Vec<(String, String)>)
        ensures
            a@.len() == (if self.disabled {
                4int
            } else {
                3int
            }),
            a@[0].0@ == "class"@ && a@[0].1@ == self.class_name_spec(),
            a@[1].0@ == "label"@ && a@[1].1@ == self.label@,
            self.disabled ==> a@[2].0@ == "disabled"@ && a@[2].1@ == "true"@,
            a@.last().0@ == "data-click-count"@ && a@.last().1@ == click_count@,
            forall|i: int| 0 <= i < a@.len() - 1 ==> (#[trigger] a@[i]).0@ != "data-click-count"@,
            !self.disabled ==> forall|i: int|
                0 <= i < a@.len() ==> (#[trigger] a@[i]).0@ != "disabled"@,
    {
        let mut a: Vec<(String, String)> = Vec::new();
        a.push(("class".to_string(), self.class_name()));
        a.push(("label".to_string(), self.label.clone()));
        if self.disabled {
            a.push(("disabled".to_string(), "true".to_string()));
        }
        a.push(("data-click-count".to_string(), click_count));
        proof {
            reveal_strlit("class");
            reveal_strlit("label");
            reveal_strlit("disabled");
            reveal_strlit("data-click-count");
            assert("class"@.len() == 5);
            assert("label"@.len() == 5);
            assert("disabled"@.len() == 8);
            assert("data-click-count"@.len() == 16);
            assert("class"@[0] == 'c' && "label"@[0] == 'l' && "disabled"@[1] == 'i'
                && "data-click-count"@[1] == 'a');
        }
        a
    }
}

} // verus!
