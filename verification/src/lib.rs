pub mod keyorder;
pub mod text;
pub mod strmap;
pub mod hashing;
pub mod store;
pub mod store_laws;
pub mod tags;
pub mod own;
pub mod own_laws;
pub mod extract;
pub mod migrate;
pub mod review;
pub mod ignore;
pub mod report;
pub mod color;
pub mod line_review;
pub mod listing;
pub mod target;
pub mod tally;
pub mod screen;
