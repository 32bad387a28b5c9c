pub mod feedback;
pub mod freq;
pub mod guesser;
pub mod ranking;
pub mod words;
pub mod laws;
