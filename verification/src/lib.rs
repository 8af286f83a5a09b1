//! Verified core of a daily city puzzle game: word feedback, daily schedule,
//! answer checking and signed progress tokens.

pub mod text;
pub mod schedule;
pub mod models;
pub mod feedback;
pub mod dates;
pub mod codec;
pub mod words;
pub mod catalog;
pub mod city_files;
pub mod clock;
pub mod session;
pub mod game;
pub mod laws;
