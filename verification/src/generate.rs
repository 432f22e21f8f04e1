pub mod git;
