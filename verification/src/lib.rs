pub mod determinant;
pub mod functions;
pub mod inverse;
pub mod laws;
pub mod matrix;
pub mod reduction;
pub mod row_ops;
pub mod scalar;
pub mod vector;

pub use inverse::Error;
pub use reduction::RowEchelonDetails;
pub use row_ops::RowEchelonOperation;

pub use functions::{cross_product, lerp_generic};
pub use matrix::Matrix;
pub use vector::linear_combination;
pub use scalar::Scalar;
pub use vector::Vector;
