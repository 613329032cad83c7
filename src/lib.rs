//! Food catalog, fuzzy search, nutrient aggregation and diet-balancing
//! recommendations over a fixed-schema nutrition table.

pub mod amount;
pub mod catalog;
pub mod extremes;
pub mod nutrition;
pub mod rank;
pub mod report;
pub mod search;

pub use catalog::{get_foods, Food, IngestError, Nutrient};
pub use extremes::get_highest_and_lowest_nutrients;
pub use nutrition::{recommend_foods, sum_nutrients};
pub use search::lookup_food;
