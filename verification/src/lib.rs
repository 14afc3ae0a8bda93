pub mod text;
pub mod regex;
pub mod outline;
pub mod keyed;
pub mod json;
pub mod state;
pub mod scan;
pub mod rules;
pub mod order;
pub mod hooks;
