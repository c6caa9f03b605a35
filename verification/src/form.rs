//! Sign-up form submissions.

pub mod code;
pub mod export;
pub mod submission;

pub use code::generate_form_code;
pub use export::submission_record;
pub use submission::{validate_submission, FormSubmission, FormSubmissionRequest};
