pub mod io_matrix;
