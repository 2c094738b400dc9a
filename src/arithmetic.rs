pub mod add;
pub mod inout;
