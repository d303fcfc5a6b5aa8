//! Props that are checked before a component is built from them.
use vstd::prelude::*;

verus! {

/// The props of a button with a size.
#[derive(Clone, Debug)]
pub struct ButtonProps {
    pub label: String,
    pub disabled: bool,
    pub size: String,
}

/// The props of a button with a size and the name of its click handler.
#[derive(Clone, Debug)]
pub struct AdvancedButtonProps {
    pub label: String,
    pub disabled: bool,
    pub size: String,
    pub onclick: String,
}

/// Why props were refused.
#[derive(Clone, Debug)]
pub enum PropValidationError {
    InvalidValue { name: String, reason: String },
}

/// Refuses a button without a label.
pub struct ButtonPropsValidator;

impl ButtonPropsValidator {
    /// The error that names the label and says that it cannot be empty.
    pub open spec fn is_empty_label(e: PropValidationError) -> bool {
        match e {
            PropValidationError::InvalidValue { name, reason } => name@ == "label"@ && reason@
                == "Button label cannot be empty"@,
        }
    }

    /// Accepts the props unless the label is empty.
    pub fn validate(&self, props: &ButtonProps) -> (r: Result<(), PropValidationError>)
        ensures
            props.label@.len() > 0 ==> r is Ok,
            props.label@.len() == 0 ==> r is Err && Self::is_empty_label(r.unwrap_err()),
    {
        if props.label.as_str().is_empty() {
            return Err(
                PropValidationError::InvalidValue {
                    name: "label".to_string(),
                    reason: "Button label cannot be empty".to_string(),
                },
            );
        }
        Ok(())
    }
}

} // verus!
