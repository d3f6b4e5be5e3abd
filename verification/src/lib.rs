//! The verified core of a dashboard of database performance tests.
#![allow(unused_imports)]

pub mod catalog;
pub mod date;
pub mod laws;
pub mod logs;
pub mod pages;
pub mod report;
pub mod results;
pub mod sorted;
pub mod steps;
pub mod text;
