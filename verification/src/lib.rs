pub mod text;
pub mod git;
pub mod graph;
pub mod projects;
pub mod ui;
pub mod app;
