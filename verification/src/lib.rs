pub mod consistent;
pub mod hashing;
pub mod positions;
pub mod table;

