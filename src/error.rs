use vstd::prelude::*;

verus! {

/// Failures that end the service.
pub enum AppError {
    /// The listener could not be bound, or serving stopped with an error.
    AxumServe(String),
}

impl AppError {
    /// The message that reports this error.
    pub fn message(&self) -> (r: String)
        ensures
            match self {
                AppError::AxumServe(m) => r@ == "Axum serve error: "@ + m@,
            },
    {
        match self {
            AppError::AxumServe(m) => {
                let prefix = String::from_str("Axum serve error: ");
                proof {
                    reveal_strlit("Axum serve error: ");
                }
                prefix.concat(m.as_str())
            },
        }
    }
}

} // verus!
