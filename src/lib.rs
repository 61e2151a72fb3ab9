pub mod walk;
pub mod data;
pub mod calc;
pub mod bruteforce;
pub mod longest_table;
pub mod city;
pub mod find;
pub mod json_data;
