pub mod city;
pub mod problem;
pub mod solver;
pub mod utils;
