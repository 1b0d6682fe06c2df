pub mod conjugate_groups;
pub mod implicitly_solved;
pub mod soundness;
pub mod trial_and_error;
